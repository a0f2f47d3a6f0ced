//! Views: a stretch of the log together with the part of the graph that
//! belongs to it.

use crate::chronology::{bases, bases_of, Ephemerality};
use crate::closure::roots_of;
use crate::error::MioError;
use crate::ident::{MioId, OpId};
use crate::lists::lemma_prefix_set;
use crate::mio::Mio;
use crate::ring::{MioRing, Reach};
use vstd::prelude::*;

verus! {

impl MioRing {
    /// A ring of copies of the listed specters and operations, as far as this
    /// ring holds them.
    pub fn copy_of(&self, nodes: &Vec<MioId>, ops: &Vec<OpId>) -> (ring: MioRing)
        ensures
            ring@ == self@.restrict(roots_of(nodes@, ops@)),
    {
        let mut ring = MioRing::new();
        let mut i: usize = 0;
        while i < nodes.len()
            invariant
                i <= nodes@.len(),
                ring@.entities == self@.entities.restrict(nodes@.subrange(0, i as int).to_set()),
                ring@.specters == self@.specters.restrict(nodes@.subrange(0, i as int).to_set()),
                ring@.operations == Map::<OpId, crate::model::OperationView>::empty(),
            decreases nodes@.len() - i,
        {
            let id = nodes[i];
            let ghost seen = nodes@.subrange(0, i as int).to_set();
            let ghost next = nodes@.subrange(0, i + 1).to_set();
            proof {
                lemma_prefix_set(nodes@, i as int);
            }
            match self.entities.get(&id) {
                Some(entity) => {
                    ring.entities.insert(id, entity.clone());
                },
                None => {},
            }
            match self.specters.get(&id) {
                Some(specter) => {
                    ring.specters.insert(id, specter.clone());
                },
                None => {},
            }
            proof {
                assert(ring@.entities =~= self@.entities.restrict(next));
                assert(ring@.specters =~= self@.specters.restrict(next));
            }
            i += 1;
        }
        assert(nodes@.subrange(0, i as int) =~= nodes@);
        let mut j: usize = 0;
        while j < ops.len()
            invariant
                j <= ops@.len(),
                ring@.entities == self@.entities.restrict(nodes@.to_set()),
                ring@.specters == self@.specters.restrict(nodes@.to_set()),
                ring@.operations == self@.operations.restrict(ops@.subrange(0, j as int).to_set()),
            decreases ops@.len() - j,
        {
            let id = ops[j];
            let ghost seen = ops@.subrange(0, j as int).to_set();
            let ghost next = ops@.subrange(0, j + 1).to_set();
            proof {
                lemma_prefix_set(ops@, j as int);
            }
            match self.operations.get(&id) {
                Some(operation) => {
                    ring.operations.insert(id, operation.clone());
                },
                None => {},
            }
            proof {
                assert(ring@.operations =~= self@.operations.restrict(next));
            }
            j += 1;
        }
        assert(ops@.subrange(0, j as int) =~= ops@);
        ring
    }
}

/// The command that gathers what belongs to a set of specters.
#[derive(Debug)]
pub struct MioRingGen {
    /// The specters to start from.
    pub base: Vec<MioId>,
}

impl MioRingGen {
    /// The roots that the command starts from.
    pub open spec fn roots(&self) -> Reach {
        roots_of(self.base@, Seq::<OpId>::empty())
    }

    /// The part of the live ring that belongs to the given specters: the
    /// closure that takes the edges both ways, so that with a specter come
    /// the operations that read it, and with an operation what it reads and
    /// what it results in. Nothing else is in the result. The aggregate is
    /// not changed.
    ///
    /// Fails where the closure holds an identifier that is not live, and
    /// names one.
    pub fn interpret(self, mio: &Mio) -> (res: Result<MioRing, MioError>)
        ensures
            match res {
                Ok(ring) => {
                    &&& mio.ring@.holds(mio.ring@.closure_of(self.roots(), true))
                    &&& ring@ == mio.ring@.restrict(mio.ring@.closure_of(self.roots(), true))
                },
                Err(MioError::NotFound(m)) => {
                    &&& !mio.ring@.has(m)
                    &&& mio.ring@.closure_of(self.roots(), true).nodes.contains(m)
                },
                Err(MioError::OperationNotFound(o)) => {
                    &&& !mio.ring@.operations.contains_key(o)
                    &&& mio.ring@.closure_of(self.roots(), true).ops.contains(o)
                },
                Err(_) => false,
            },
    {
        let none: Vec<OpId> = Vec::new();
        match mio.ring.closure(&self.base, &none, true) {
            Ok((nodes, ops)) => Ok(mio.ring.copy_of(&nodes, &ops)),
            Err(e) => Err(e),
        }
    }
}

/// A snapshot for reading: a stretch of the log, and the part of the graph
/// that belongs to its entities.
#[derive(Debug)]
pub struct MioView {
    pub timeline: Vec<Ephemerality>,
    pub ring: MioRing,
}

/// The command that makes a view.
#[derive(Debug, Clone, Copy)]
pub enum MioViewGen {
    /// The whole log.
    All,
    /// The entry at position `anchor`, with up to `former` entries before it
    /// and up to `latter` entries after it.
    Anchor { former: usize, anchor: usize, latter: usize },
}

impl MioViewGen {
    /// The stretch of a log of the given length that the command asks for,
    /// cut to the bounds of the log: its first position, and the position
    /// after its last.
    pub open spec fn window(self, len: nat) -> (int, int) {
        match self {
            MioViewGen::All => (0, len as int),
            MioViewGen::Anchor { former, anchor, latter } => (
                if anchor >= former {
                    anchor - former
                } else {
                    0
                },
                if anchor + latter + 1 <= len {
                    anchor + latter + 1
                } else {
                    len as int
                },
            ),
        }
    }

    /// The entries of a log that the command asks for: those of its window,
    /// and none where the window lies outside the log.
    pub open spec fn windowed(self, chronology: Seq<Ephemerality>) -> Seq<Ephemerality> {
        let (low, high) = self.window(chronology.len());
        if low < high {
            chronology.subrange(low, high)
        } else {
            Seq::empty()
        }
    }

    /// The roots of the view's ring: the entities of its timeline.
    pub open spec fn roots(self, chronology: Seq<Ephemerality>) -> Reach {
        roots_of(bases_of(self.windowed(chronology)), Seq::<OpId>::empty())
    }

    /// The view that the command asks for: the entries of its window, and the
    /// part of the live ring that belongs to their entities. The aggregate is
    /// not changed.
    ///
    /// Fails where that part holds an identifier that is not live, and names
    /// one.
    pub fn interpret(self, mio: &Mio) -> (res: Result<MioView, MioError>)
        ensures
            match res {
                Ok(view) => {
                    &&& view.timeline@ == self.windowed(mio.chronology@)
                    &&& mio.ring@.holds(
                        mio.ring@.closure_of(self.roots(mio.chronology@), true),
                    )
                    &&& view.ring@ == mio.ring@.restrict(
                        mio.ring@.closure_of(self.roots(mio.chronology@), true),
                    )
                },
                Err(MioError::NotFound(m)) => {
                    &&& !mio.ring@.has(m)
                    &&& mio.ring@.closure_of(self.roots(mio.chronology@), true).nodes.contains(m)
                },
                Err(MioError::OperationNotFound(o)) => {
                    &&& !mio.ring@.operations.contains_key(o)
                    &&& mio.ring@.closure_of(self.roots(mio.chronology@), true).ops.contains(o)
                },
                Err(_) => false,
            },
    {
        let len = mio.chronology.len();
        let (low, high) = match self {
            MioViewGen::All => (0, len),
            MioViewGen::Anchor { former, anchor, latter } => {
                let low = if anchor >= former {
                    anchor - former
                } else {
                    0
                };
                let high = if anchor < len && latter < len - anchor {
                    anchor + latter + 1
                } else {
                    len
                };
                (low, high)
            },
        };
        let mut timeline: Vec<Ephemerality> = Vec::new();
        let mut i: usize = low;
        while i < high
            invariant
                high <= mio.chronology@.len(),
                low <= i,
                low < high ==> i <= high,
                low < high ==> timeline@ == mio.chronology@.subrange(low as int, i as int),
                low >= high ==> timeline@ == Seq::<Ephemerality>::empty(),
            decreases high - i,
        {
            timeline.push(mio.chronology[i]);
            assert(timeline@ =~= mio.chronology@.subrange(low as int, i + 1));
            i += 1;
        }
        assert(timeline@ == self.windowed(mio.chronology@));
        let ring = MioRingGen { base: bases(&timeline) }.interpret(mio);
        match ring {
            Ok(ring) => Ok(MioView { timeline, ring }),
            Err(e) => Err(e),
        }
    }
}

impl MioView {
    /// The view of the whole log: all of its entries, and the part of the
    /// live ring that belongs to their entities.
    ///
    /// Fails where that part holds an identifier that is not live, and names
    /// one.
    pub fn all(mio: &Mio) -> (res: Result<MioView, MioError>)
        ensures
            match res {
                Ok(view) => {
                    &&& view.timeline@ == mio.chronology@
                    &&& mio.ring@.holds(
                        mio.ring@.closure_of(MioViewGen::All.roots(mio.chronology@), true),
                    )
                    &&& view.ring@ == mio.ring@.restrict(
                        mio.ring@.closure_of(MioViewGen::All.roots(mio.chronology@), true),
                    )
                },
                Err(MioError::NotFound(m)) => {
                    &&& !mio.ring@.has(m)
                    &&& mio.ring@.closure_of(
                        MioViewGen::All.roots(mio.chronology@),
                        true,
                    ).nodes.contains(m)
                },
                Err(MioError::OperationNotFound(o)) => {
                    &&& !mio.ring@.operations.contains_key(o)
                    &&& mio.ring@.closure_of(
                        MioViewGen::All.roots(mio.chronology@),
                        true,
                    ).ops.contains(o)
                },
                Err(_) => false,
            },
    {
        let res = MioViewGen::All.interpret(mio);
        proof {
            let all = MioViewGen::All;
            assert(all.windowed(mio.chronology@) =~= mio.chronology@);
        }
        res
    }
}

} // verus!
