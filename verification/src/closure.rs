//! The closure of a set of roots in a ring: what can be reached from them
//! along the edges of the graph.

use crate::error::MioError;
use crate::ident::{MioId, OpId};
use crate::lists::{add_all, holds, lemma_listing_bounded};
use crate::ring::{MioRing, Reach};
use vstd::prelude::*;

verus! {

/// The roots that two lists of identifiers name.
pub open spec fn roots_of(nodes: Seq<MioId>, ops: Seq<OpId>) -> Reach {
    Reach { nodes: nodes.to_set(), ops: ops.to_set() }
}

impl MioRing {
    /// The closure of the given roots in this ring: the specters and
    /// operations that can be reached from them, each listed once, the roots
    /// first. An operation is reached from a specter that it reads, and a
    /// specter from the operation that results in it; where `backward` is set,
    /// a specter is also reached from an operation that reads it.
    ///
    /// Where something that is reached is not in the ring, the closure is not
    /// given, and the error names one such identifier.
    pub fn closure(&self, nodes: &Vec<MioId>, ops: &Vec<OpId>, backward: bool) -> (res: Result<
        (Vec<MioId>, Vec<OpId>),
        MioError,
    >)
        ensures
            match res {
                Ok((found, used)) => {
                    &&& found@.no_duplicates()
                    &&& used@.no_duplicates()
                    &&& self@.holds(roots_of(found@, used@))
                    &&& roots_of(found@, used@) == self@.closure_of(
                        roots_of(nodes@, ops@),
                        backward,
                    )
                },
                Err(MioError::NotFound(m)) => {
                    &&& !self@.has(m)
                    &&& self@.closure_of(roots_of(nodes@, ops@), backward).nodes.contains(m)
                },
                Err(MioError::OperationNotFound(o)) => {
                    &&& !self@.operations.contains_key(o)
                    &&& self@.closure_of(roots_of(nodes@, ops@), backward).ops.contains(o)
                },
                Err(_) => false,
            },
    {
        let ghost ring = self@;
        let ghost roots = roots_of(nodes@, ops@);
        let mut found: Vec<MioId> = Vec::new();
        let mut used: Vec<OpId> = Vec::new();
        add_all(&mut found, nodes);
        add_all(&mut used, ops);
        let node_count = self.entities.len();
        let lazy_count = self.specters.len();
        let op_count = self.operations.len();
        proof {
            vstd::set_lib::lemma_len_union(ring.entities.dom(), ring.specters.dom());
        }
        let mut i: usize = 0;
        let mut j: usize = 0;
        loop
            invariant
                ring == self@,
                roots == roots_of(nodes@, ops@),
                ring.nodes().finite(),
                ring.operations.dom().finite(),
                found@.no_duplicates(),
                used@.no_duplicates(),
                i <= found@.len(),
                j <= used@.len(),
                i <= ring.nodes().len(),
                j <= ring.operations.dom().len(),
                roots.within(roots_of(found@, used@)),
                forall|k: int| 0 <= k < i ==> ring.has(#[trigger] found@[k]),
                forall|k: int, l: int|
                    0 <= k < i && 0 <= l < ring.deps(found@[k]).len() ==> used@.contains(
                        #[trigger] ring.deps(found@[k])[l],
                    ),
                forall|k: int| 0 <= k < j ==> ring.operations.contains_key(#[trigger] used@[k]),
                forall|k: int|
                    0 <= k < j ==> found@.contains(#[trigger] ring.operations[used@[k]].specter),
                backward ==> forall|k: int, l: int|
                    0 <= k < j && 0 <= l < ring.operations[used@[k]].base.len()
                        ==> found@.contains(#[trigger] ring.operations[used@[k]].base[l]),
                forall|other: Reach| #[trigger]
                    ring.encloses(roots, other, backward) ==> roots_of(found@, used@).within(
                        other,
                    ),
            decreases ring.nodes().len() - i + (ring.operations.dom().len() - j),
        {
            if i < found.len() {
                let m = found[i];
                assert(found@.to_set().contains(m));
                match self.deps(&m) {
                    None => {
                        return Err(MioError::NotFound(m));
                    },
                    Some(deps) => {
                        let ghost prior = used@;
                        add_all(&mut used, deps);
                        proof {
                            assert forall|k: int| 0 <= k < j implies #[trigger] used@[k]
                                == prior[k] by {
                                assert(used@.subrange(0, prior.len() as int)[k] == prior[k]);
                            }
                            assert forall|k: int, l: int|
                                0 <= k < i + 1 && 0 <= l < ring.deps(
                                    found@[k],
                                ).len() implies used@.contains(
                                #[trigger] ring.deps(found@[k])[l],
                            ) by {
                                let d = ring.deps(found@[k])[l];
                                if k < i {
                                    assert(prior.contains(d));
                                } else {
                                    assert(deps@[l] == d);
                                    assert(deps@.contains(d));
                                }
                            }
                            assert(roots.within(roots_of(found@, used@))) by {
                                assert forall|o: OpId| roots.ops.contains(o) implies roots_of(
                                    found@,
                                    used@,
                                ).ops.contains(o) by {
                                    assert(prior.to_set().contains(o));
                                    assert(prior.contains(o));
                                }
                            }
                            assert forall|other: Reach| #[trigger]
                                ring.encloses(roots, other, backward) implies roots_of(
                                found@,
                                used@,
                            ).within(other) by {
                                assert(roots_of(found@, prior).within(other));
                                assert(other.nodes.contains(m));
                                assert forall|o: OpId| used@.to_set().contains(
                                    o,
                                ) implies other.ops.contains(o) by {
                                    assert(used@.contains(o));
                                    if prior.contains(o) {
                                        assert(prior.to_set().contains(o));
                                    } else {
                                        assert(deps@.contains(o));
                                        let l = choose|l: int|
                                            0 <= l < deps@.len() && deps@[l] == o;
                                        assert(ring.deps(m)[l] == o);
                                    }
                                }
                            }
                            let done = found@.subrange(0, i + 1);
                            assert forall|k: int| 0 <= k < done.len() implies ring.nodes().contains(
                                #[trigger] done[k],
                            ) by {
                                assert(ring.has(found@[k]));
                            }
                            lemma_listing_bounded(done, ring.nodes());
                        }
                        i += 1;
                    },
                }
            } else if j < used.len() {
                let o = used[j];
                assert(used@.to_set().contains(o));
                match self.operations.get(&o) {
                    None => {
                        return Err(MioError::OperationNotFound(o));
                    },
                    Some(operation) => {
                        let ghost prior = found@;
                        let ghost op = ring.operations[o];
                        if backward {
                            add_all(&mut found, &operation.base);
                        }
                        let ghost middle = found@;
                        if !holds(&found, &operation.specter) {
                            found.push(operation.specter);
                        }
                        proof {
                            assert(middle.subrange(0, prior.len() as int) == prior);
                            assert(found@.subrange(0, prior.len() as int) =~= prior) by {
                                assert forall|k: int| 0 <= k < prior.len() implies found@[k]
                                    == prior[k] by {
                                    assert(middle.subrange(0, prior.len() as int)[k] == prior[k]);
                                }
                            }
                            assert forall|k: int| 0 <= k < prior.len() implies #[trigger] found@[k]
                                == prior[k] by {
                                assert(found@.subrange(0, prior.len() as int)[k] == prior[k]);
                            }
                            assert forall|x: MioId| prior.contains(x) implies found@.contains(
                                x,
                            ) by {
                                let k = choose|k: int| 0 <= k < prior.len() && prior[k] == x;
                                assert(found@[k] == x);
                            }
                            assert forall|x: MioId| middle.contains(x) implies found@.contains(
                                x,
                            ) by {
                                let k = choose|k: int| 0 <= k < middle.len() && middle[k] == x;
                                assert(found@[k] == x);
                            }
                            assert(found@.contains(op.specter)) by {
                                if !middle.contains(op.specter) {
                                    assert(found@[middle.len() as int] == op.specter);
                                }
                            }
                            assert forall|x: MioId| found@.contains(x) implies middle.contains(x)
                                || x == op.specter by {
                                let k = choose|k: int| 0 <= k < found@.len() && found@[k] == x;
                                if k < middle.len() {
                                    assert(middle[k] == x);
                                }
                            }
                            assert forall|k: int| 0 <= k < j + 1 implies found@.contains(
                                #[trigger] ring.operations[used@[k]].specter,
                            ) by {
                                if k < j {
                                    assert(prior.contains(ring.operations[used@[k]].specter));
                                }
                            }
                            if backward {
                                assert forall|k: int, l: int|
                                    0 <= k < j + 1 && 0 <= l
                                        < ring.operations[used@[k]].base.len() implies found@.contains(
                                    #[trigger] ring.operations[used@[k]].base[l],
                                ) by {
                                    let b = ring.operations[used@[k]].base[l];
                                    if k < j {
                                        assert(prior.contains(b));
                                    } else {
                                        assert(operation.base@[l] == b);
                                        assert(operation.base@.contains(b));
                                        assert(middle.contains(b));
                                    }
                                }
                            }
                            assert(roots.within(roots_of(found@, used@))) by {
                                assert forall|x: MioId| roots.nodes.contains(x) implies roots_of(
                                    found@,
                                    used@,
                                ).nodes.contains(x) by {
                                    assert(prior.to_set().contains(x));
                                    assert(prior.contains(x));
                                }
                            }
                            assert forall|other: Reach| #[trigger]
                                ring.encloses(roots, other, backward) implies roots_of(
                                found@,
                                used@,
                            ).within(other) by {
                                assert(roots_of(prior, used@).within(other));
                                assert(other.ops.contains(o));
                                assert(other.nodes.contains(ring.operations[o].specter));
                                assert forall|x: MioId| found@.to_set().contains(
                                    x,
                                ) implies other.nodes.contains(x) by {
                                    assert(found@.contains(x));
                                    if prior.contains(x) {
                                        assert(prior.to_set().contains(x));
                                    } else if x == op.specter {
                                    } else {
                                        assert(middle.contains(x));
                                        assert(backward);
                                        assert(operation.base@.contains(x));
                                        let l = choose|l: int|
                                            0 <= l < operation.base@.len() && operation.base@[l]
                                                == x;
                                        assert(ring.operations[o].base[l] == x);
                                    }
                                }
                            }
                            let done = used@.subrange(0, j + 1);
                            assert forall|k: int|
                                0 <= k < done.len() implies ring.operations.dom().contains(
                                #[trigger] done[k],
                            ) by {
                                assert(ring.operations.contains_key(used@[k]));
                            }
                            lemma_listing_bounded(done, ring.operations.dom());
                        }
                        j += 1;
                    },
                }
            } else {
                proof {
                    let reach = roots_of(found@, used@);
                    assert(ring.holds(reach)) by {
                        assert forall|m: MioId| reach.nodes.contains(m) implies ring.has(m) by {
                            let k = choose|k: int| 0 <= k < found@.len() && found@[k] == m;
                            assert(ring.has(found@[k]));
                        }
                        assert forall|o: OpId|
                            reach.ops.contains(o) implies ring.operations.contains_key(o) by {
                            let k = choose|k: int| 0 <= k < used@.len() && used@[k] == o;
                            assert(ring.operations.contains_key(used@[k]));
                        }
                    }
                    assert(ring.closed(reach, backward)) by {
                        assert forall|m: MioId, l: int|
                            reach.nodes.contains(m) && 0 <= l < ring.deps(
                                m,
                            ).len() implies reach.ops.contains(#[trigger] ring.deps(m)[l]) by {
                            let k = choose|k: int| 0 <= k < found@.len() && found@[k] == m;
                            assert(used@.contains(ring.deps(found@[k])[l]));
                        }
                        assert forall|o: OpId|
                            #![trigger ring.operations[o]]
                            reach.ops.contains(o) && ring.operations.contains_key(
                                o,
                            ) implies reach.nodes.contains(ring.operations[o].specter) by {
                            let k = choose|k: int| 0 <= k < used@.len() && used@[k] == o;
                            assert(found@.contains(ring.operations[used@[k]].specter));
                        }
                        if backward {
                            assert forall|o: OpId, l: int|
                                reach.ops.contains(o) && ring.operations.contains_key(o) && 0 <= l
                                    < ring.operations[o].base.len() implies reach.nodes.contains(
                                #[trigger] ring.operations[o].base[l],
                            ) by {
                                let k = choose|k: int| 0 <= k < used@.len() && used@[k] == o;
                                assert(found@.contains(ring.operations[used@[k]].base[l]));
                            }
                        }
                    }
                    ring.lemma_closure_unique(roots, reach, backward);
                }
                return Ok((found, used));
            }
        }
    }
}

} // verus!
