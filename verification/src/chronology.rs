//! Moments of creation, and the log of them.

use crate::ident::MioId;
use core::cmp::Ordering;
use vstd::prelude::*;

verus! {

/// The moment at which an entity was registered.
#[derive(Debug, Clone, Copy)]
pub struct Ephemerality {
    /// The time of the moment, in nanoseconds since the Unix epoch.
    pub time: u128,
    /// The entity that was registered at that moment.
    pub base: MioId,
}

impl PartialEq for Ephemerality {
    /// Two moments are equal where their times are.
    fn eq(&self, other: &Self) -> (same: bool) {
        self.time == other.time
    }
}

impl vstd::std_specs::cmp::PartialEqSpecImpl for Ephemerality {
    open spec fn obeys_eq_spec() -> bool {
        true
    }

    open spec fn eq_spec(&self, other: &Self) -> bool {
        self.time == other.time
    }
}

impl Eq for Ephemerality {

}

impl PartialOrd for Ephemerality {
    /// Moments are ordered by their times.
    fn partial_cmp(&self, other: &Self) -> (order: Option<Ordering>) {
        if self.time < other.time {
            Some(Ordering::Less)
        } else if self.time > other.time {
            Some(Ordering::Greater)
        } else {
            Some(Ordering::Equal)
        }
    }
}

impl vstd::std_specs::cmp::PartialOrdSpecImpl for Ephemerality {
    open spec fn obeys_partial_cmp_spec() -> bool {
        true
    }

    open spec fn partial_cmp_spec(&self, other: &Self) -> Option<Ordering> {
        if self.time < other.time {
            Some(Ordering::Less)
        } else if self.time > other.time {
            Some(Ordering::Greater)
        } else {
            Some(Ordering::Equal)
        }
    }
}

/// The entities of a stretch of the log, in its order.
pub open spec fn bases_of(timeline: Seq<Ephemerality>) -> Seq<MioId> {
    timeline.map_values(|moment: Ephemerality| moment.base)
}

/// The entities of a stretch of the log, in its order.
pub fn bases(timeline: &Vec<Ephemerality>) -> (ids: Vec<MioId>)
    ensures
        ids@ == bases_of(timeline@),
{
    let mut ids: Vec<MioId> = Vec::new();
    let mut i: usize = 0;
    while i < timeline.len()
        invariant
            i <= timeline@.len(),
            ids@ == bases_of(timeline@.subrange(0, i as int)),
        decreases timeline@.len() - i,
    {
        ids.push(timeline[i].base);
        assert(ids@ =~= bases_of(timeline@.subrange(0, i + 1)));
        i += 1;
    }
    assert(timeline@.subrange(0, i as int) =~= timeline@);
    ids
}

} // verus!
