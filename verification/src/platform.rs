//! Platform resolver.
//!
//! Each dependency edge may carry a platform predicate. Against the
//! requested platform set an edge classifies as *universal* (no predicate,
//! or the predicate holds everywhere), *conditional* (it holds on a strict,
//! nonempty subset), or *excluded* (it holds nowhere). Classification is a
//! pure function of predicate and platform set, so the same inputs always
//! classify identically.

use vstd::prelude::*;
use vstd::string::*;

verus! {

/// Mathematical view of a platform descriptor.
#[verifier::ext_equal]
pub ghost struct PlatformV {
    pub triple: Seq<char>,
    pub cfgs: Seq<Seq<char>>,
}

/// One concrete target platform: its target triple and the cfg predicate
/// names that hold for it.
pub struct Platform {
    pub triple: String,
    pub cfgs: Vec<String>,
}

impl View for Platform {
    type V = PlatformV;

    open spec fn view(&self) -> PlatformV {
        PlatformV { triple: self.triple@, cfgs: self.cfgs.deep_view() }
    }
}

/// View of a platform sequence.
pub open spec fn platform_views(s: Seq<Platform>) -> Seq<PlatformV> {
    s.map_values(|p: Platform| p@)
}

/// A predicate holds of a platform when it names the platform's triple or
/// one of the cfg predicates resolvable for it.
pub open spec fn pred_holds(pred: Seq<char>, p: PlatformV) -> bool {
    pred == p.triple || exists|i: int| 0 <= i < p.cfgs.len() && #[trigger] p.cfgs[i] == pred
}

/// The predicate holds on every requested platform.
pub open spec fn holds_on_all(pred: Seq<char>, ps: Seq<PlatformV>) -> bool {
    forall|i: int| 0 <= i < ps.len() ==> pred_holds(pred, #[trigger] ps[i])
}

/// The predicate holds on no requested platform.
pub open spec fn holds_on_none(pred: Seq<char>, ps: Seq<PlatformV>) -> bool {
    forall|i: int| 0 <= i < ps.len() ==> !pred_holds(pred, #[trigger] ps[i])
}

/// Mathematical view of a classification.
pub ghost enum ClassV {
    Universal,
    Conditional(Seq<char>),
    Excluded,
}

/// How an edge's platform predicate relates to the requested platform set.
pub enum Classification {
    /// The edge applies on every requested platform.
    Universal,
    /// The edge applies on a strict, nonempty subset; the payload is the
    /// exact predicate text the rendered select-construct is keyed by.
    Conditional(String),
    /// The edge applies on no requested platform.
    Excluded,
}

impl View for Classification {
    type V = ClassV;

    open spec fn view(&self) -> ClassV {
        match self {
            Classification::Universal => ClassV::Universal,
            Classification::Conditional(p) => ClassV::Conditional(p@),
            Classification::Excluded => ClassV::Excluded,
        }
    }
}

/// The classification an optional predicate receives against a platform set.
pub open spec fn classify_spec(pred: Option<Seq<char>>, ps: Seq<PlatformV>) -> ClassV {
    match pred {
        None => ClassV::Universal,
        Some(p) => if holds_on_all(p, ps) {
            ClassV::Universal
        } else if holds_on_none(p, ps) {
            ClassV::Excluded
        } else {
            ClassV::Conditional(p)
        },
    }
}

/// Classification totality: against a nonempty platform set, a predicate
/// receives exactly one of the three classifications — universal exactly
/// when it holds everywhere, excluded exactly when it holds nowhere, and
/// conditional exactly when it holds on a strict, nonempty subset.
pub proof fn lemma_classification_total(pred: Seq<char>, ps: Seq<PlatformV>)
    requires
        ps.len() > 0,
    ensures
        !(holds_on_all(pred, ps) && holds_on_none(pred, ps)),
        classify_spec(Some(pred), ps) is Universal <==> holds_on_all(pred, ps),
        classify_spec(Some(pred), ps) is Excluded <==> holds_on_none(pred, ps),
        classify_spec(Some(pred), ps) is Conditional <==> (!holds_on_all(pred, ps)
            && !holds_on_none(pred, ps)),
{
    if holds_on_all(pred, ps) && holds_on_none(pred, ps) {
        assert(pred_holds(pred, ps[0]));
        assert(!pred_holds(pred, ps[0]));
    }
}

/// Whether the predicate holds of one platform.
fn pred_holds_exec(pred: &String, p: &Platform) -> (r: bool)
    ensures
        r == pred_holds(pred@, p@),
{
    if *pred == p.triple {
        return true;
    }
    let mut i: usize = 0;
    while i < p.cfgs.len()
        invariant
            i <= p.cfgs@.len(),
            pred@ != p@.triple,
            forall|m: int| 0 <= m < i ==> #[trigger] p@.cfgs[m] != pred@,
        decreases p.cfgs@.len() - i,
    {
        if p.cfgs[i] == *pred {
            proof {
                assert(p@.cfgs[i as int] == pred@);
            }
            return true;
        }
        proof {
            assert(p@.cfgs[i as int] != pred@);
        }
        i = i + 1;
    }
    false
}

/// Classify an edge's optional platform predicate against the requested
/// platform set.
pub fn classify(pred: &Option<String>, platforms: &Vec<Platform>) -> (r: Classification)
    ensures
        r@ == classify_spec(pred.deep_view(), platform_views(platforms@)),
{
    let p = match pred {
        Some(p) => p,
        None => {
            return Classification::Universal;
        },
    };
    let ghost psv = platform_views(platforms@);
    let mut on_all = true;
    let mut on_none = true;
    let mut i: usize = 0;
    while i < platforms.len()
        invariant
            i <= platforms@.len(),
            psv == platform_views(platforms@),
            on_all == (forall|m: int| 0 <= m < i ==> pred_holds(p@, #[trigger] psv[m])),
            on_none == (forall|m: int| 0 <= m < i ==> !pred_holds(p@, #[trigger] psv[m])),
        decreases platforms@.len() - i,
    {
        let h = pred_holds_exec(p, &platforms[i]);
        proof {
            assert(psv[i as int] == platforms@[i as int]@);
        }
        on_all = on_all && h;
        on_none = on_none && !h;
        i = i + 1;
    }
    if on_all {
        Classification::Universal
    } else if on_none {
        Classification::Excluded
    } else {
        Classification::Conditional(p.clone())
    }
}

} // verus!
