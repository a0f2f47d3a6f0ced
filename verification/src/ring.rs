//! The ring: the three keyed collections that hold a graph, and what it means
//! for such a graph to hang together.

use crate::ident::{MioId, OpId};
use crate::kind::{ext_kind, EntityExt, EntityKind, EntityLike};
use crate::model::{
    Concrete, ConcreteView, Lazy, Operation, OperationView, Specter, SpecterView,
};
use crate::table::Table;
use vstd::prelude::*;

verus! {

/// A graph of entities, lazy specters and operations, each under its
/// identifier.
#[derive(Debug)]
pub struct MioRing {
    /// The concrete specters.
    pub entities: Table<MioId, Specter<Concrete>>,
    /// The operations.
    pub operations: Table<OpId, Operation>,
    /// The lazy specters.
    pub specters: Table<MioId, Specter<Lazy>>,
}

/// What a ring is to contracts: three maps.
pub struct RingView {
    pub entities: Map<MioId, SpecterView<ConcreteView>>,
    pub operations: Map<OpId, OperationView>,
    pub specters: Map<MioId, SpecterView<Lazy>>,
}

/// A set of specters together with a set of operations.
pub struct Reach {
    pub nodes: Set<MioId>,
    pub ops: Set<OpId>,
}

impl Reach {
    /// Whether everything of this reach is in the other.
    pub open spec fn within(self, other: Reach) -> bool {
        self.nodes.subset_of(other.nodes) && self.ops.subset_of(other.ops)
    }
}

impl View for MioRing {
    type V = RingView;

    open spec fn view(&self) -> RingView {
        RingView {
            entities: self.entities@,
            operations: self.operations@,
            specters: self.specters@,
        }
    }
}

impl RingView {
    /// The ring that holds nothing.
    pub open spec fn empty() -> RingView {
        RingView { entities: Map::empty(), operations: Map::empty(), specters: Map::empty() }
    }

    /// Whether a specter, concrete or lazy, is in the ring.
    pub open spec fn has(self, id: MioId) -> bool {
        self.entities.contains_key(id) || self.specters.contains_key(id)
    }

    /// The identifiers of the specters of the ring.
    pub open spec fn nodes(self) -> Set<MioId> {
        self.entities.dom().union(self.specters.dom())
    }

    /// The operations that read a specter of the ring, in the order in which
    /// they were registered with it.
    pub open spec fn deps(self, id: MioId) -> Seq<OpId> {
        if self.entities.contains_key(id) {
            self.entities[id].deps
        } else if self.specters.contains_key(id) {
            self.specters[id].deps
        } else {
            Seq::empty()
        }
    }

    /// The extension of a specter of the ring.
    pub open spec fn ext(self, id: MioId) -> EntityExt {
        if self.entities.contains_key(id) {
            self.entities[id].ext
        } else {
            self.specters[id].ext
        }
    }

    /// The kind of a specter of the ring.
    pub open spec fn kind(self, id: MioId) -> EntityKind {
        ext_kind(self.ext(id))
    }

    /// The kinds of a sequence of specters of the ring, in its order.
    pub open spec fn kinds(self, ids: Seq<MioId>) -> Seq<EntityKind> {
        ids.map_values(|id: MioId| self.kind(id))
    }

    /// The first of a sequence of identifiers that is not a specter of the
    /// ring, if there is one.
    pub open spec fn first_missing(self, ids: Seq<MioId>) -> Option<MioId>
        decreases ids.len(),
    {
        if ids.len() == 0 {
            None
        } else if !self.has(ids[0]) {
            Some(ids[0])
        } else {
            self.first_missing(ids.drop_first())
        }
    }

    /// The first missing identifier is the one before which all are in the
    /// ring; there is none where all are.
    pub proof fn lemma_first_missing(self, ids: Seq<MioId>, at: int)
        requires
            0 <= at <= ids.len(),
            forall|j: int| 0 <= j < at ==> self.has(#[trigger] ids[j]),
            at < ids.len() ==> !self.has(ids[at]),
        ensures
            self.first_missing(ids) == if at < ids.len() {
                Some(ids[at])
            } else {
                None
            },
        decreases ids.len(),
    {
        if ids.len() > 0 && at > 0 {
            let rest = ids.drop_first();
            assert(self.has(ids[0]));
            assert forall|j: int| 0 <= j < at - 1 implies self.has(#[trigger] rest[j]) by {
                assert(rest[j] == ids[j + 1]);
            }
            self.lemma_first_missing(rest, at - 1);
        }
    }

    /// Whether a reach is closed under the edges of the ring: with a specter
    /// it holds the operations that read it, and with an operation the
    /// specter that it results in; where `backward` is set, with an operation
    /// also the specters that it reads.
    pub open spec fn closed(self, reach: Reach, backward: bool) -> bool {
        &&& forall|m: MioId, i: int|
            reach.nodes.contains(m) && 0 <= i < self.deps(m).len() ==> reach.ops.contains(
                #[trigger] self.deps(m)[i],
            )
        &&& forall|o: OpId|
            #![trigger self.operations[o]]
            reach.ops.contains(o) && self.operations.contains_key(o) ==> reach.nodes.contains(
                self.operations[o].specter,
            )
        &&& backward ==> forall|o: OpId, i: int|
            reach.ops.contains(o) && self.operations.contains_key(o) && 0 <= i
                < self.operations[o].base.len() ==> reach.nodes.contains(
                #[trigger] self.operations[o].base[i],
            )
    }

    /// Whether a reach holds the roots and is closed.
    pub open spec fn encloses(self, roots: Reach, reach: Reach, backward: bool) -> bool {
        roots.within(reach) && self.closed(reach, backward)
    }

    /// Whether a reach is the closure of the roots: the least reach that
    /// holds them and is closed. It holds what can be reached from the roots
    /// along the edges of the ring, and nothing else.
    pub open spec fn is_closure(self, roots: Reach, reach: Reach, backward: bool) -> bool {
        &&& self.encloses(roots, reach, backward)
        &&& forall|other: Reach| #[trigger]
            self.encloses(roots, other, backward) ==> reach.within(other)
    }

    /// The closure of the roots: what lies in every reach that holds the
    /// roots and is closed.
    pub open spec fn closure_of(self, roots: Reach, backward: bool) -> Reach {
        Reach {
            nodes: Set::new(
                |m: MioId|
                    forall|other: Reach| #[trigger]
                        self.encloses(roots, other, backward) ==> other.nodes.contains(m),
            ),
            ops: Set::new(
                |o: OpId|
                    forall|other: Reach| #[trigger]
                        self.encloses(roots, other, backward) ==> other.ops.contains(o),
            ),
        }
    }

    /// What lies in every closed reach around the roots is itself such a
    /// reach, and so the least of them.
    pub proof fn lemma_closure_of(self, roots: Reach, backward: bool)
        ensures
            self.is_closure(roots, self.closure_of(roots, backward), backward),
    {
        let least = self.closure_of(roots, backward);
        assert(roots.within(least));
        assert forall|m: MioId, i: int|
            least.nodes.contains(m) && 0 <= i < self.deps(m).len() implies least.ops.contains(
            #[trigger] self.deps(m)[i],
        ) by {
            assert forall|other: Reach| #[trigger]
                self.encloses(roots, other, backward) implies other.ops.contains(
                self.deps(m)[i],
            ) by {
                assert(other.nodes.contains(m));
            }
        }
        assert forall|o: OpId|
            #![trigger self.operations[o]]
            least.ops.contains(o) && self.operations.contains_key(
                o,
            ) implies least.nodes.contains(self.operations[o].specter) by {
            assert forall|other: Reach| #[trigger]
                self.encloses(roots, other, backward) implies other.nodes.contains(
                self.operations[o].specter,
            ) by {
                assert(other.ops.contains(o));
            }
        }
        if backward {
            assert forall|o: OpId, i: int|
                least.ops.contains(o) && self.operations.contains_key(o) && 0 <= i
                    < self.operations[o].base.len() implies least.nodes.contains(
                #[trigger] self.operations[o].base[i],
            ) by {
                assert forall|other: Reach| #[trigger]
                    self.encloses(roots, other, backward) implies other.nodes.contains(
                    self.operations[o].base[i],
                ) by {
                    assert(other.ops.contains(o));
                }
            }
        }
    }

    /// There is one closure of given roots.
    pub proof fn lemma_closure_unique(self, roots: Reach, reach: Reach, backward: bool)
        requires
            self.is_closure(roots, reach, backward),
        ensures
            reach == self.closure_of(roots, backward),
    {
        self.lemma_closure_of(roots, backward);
        let least = self.closure_of(roots, backward);
        assert(reach.within(least));
        assert(least.within(reach));
        assert(reach.nodes =~= least.nodes);
        assert(reach.ops =~= least.ops);
    }

    /// Whether everything of a reach is in the ring.
    pub open spec fn holds(self, reach: Reach) -> bool {
        &&& forall|m: MioId| reach.nodes.contains(m) ==> self.has(m)
        &&& forall|o: OpId| reach.ops.contains(o) ==> self.operations.contains_key(o)
    }

    /// The part of the ring that lies in a reach.
    pub open spec fn restrict(self, reach: Reach) -> RingView {
        RingView {
            entities: self.entities.restrict(reach.nodes),
            operations: self.operations.restrict(reach.ops),
            specters: self.specters.restrict(reach.nodes),
        }
    }

    /// The ring without what lies in a reach.
    pub open spec fn without(self, reach: Reach) -> RingView {
        RingView {
            entities: self.entities.remove_keys(reach.nodes),
            operations: self.operations.remove_keys(reach.ops),
            specters: self.specters.remove_keys(reach.nodes),
        }
    }

    /// The ring with all of another ring put into it, in place of what was
    /// there under the same identifiers.
    pub open spec fn with(self, other: RingView) -> RingView {
        RingView {
            entities: self.entities.union_prefer_right(other.entities),
            operations: self.operations.union_prefer_right(other.operations),
            specters: self.specters.union_prefer_right(other.specters),
        }
    }

    /// Whether the graph hangs together: each record stands under its own
    /// identifier, no specter is both concrete and lazy, an operation and a
    /// specter that it reads are both in the ring and know of each other, and
    /// the operation that a lazy specter results from is in the ring and
    /// results in it.
    pub open spec fn consistent(self) -> bool {
        &&& forall|m: MioId| #[trigger]
            self.entities.contains_key(m) ==> self.entities[m].id == m
                && !self.specters.contains_key(m)
        &&& forall|m: MioId| #[trigger]
            self.specters.contains_key(m) ==> self.specters[m].id == m
        &&& forall|o: OpId| #[trigger]
            self.operations.contains_key(o) ==> self.operations[o].id == o
        &&& forall|m: MioId, i: int|
            self.has(m) && 0 <= i < self.deps(m).len() ==> self.operations.contains_key(
                #[trigger] self.deps(m)[i],
            ) && self.operations[self.deps(m)[i]].base.contains(m)
        &&& forall|o: OpId, i: int|
            self.operations.contains_key(o) && 0 <= i < self.operations[o].base.len()
                ==> self.has(#[trigger] self.operations[o].base[i]) && self.deps(
                self.operations[o].base[i],
            ).contains(o)
        &&& forall|m: MioId| #[trigger]
            self.specters.contains_key(m) ==> self.operations.contains_key(
                self.specters[m].body.operation,
            ) && self.operations[self.specters[m].body.operation].specter == m
    }
}

/// A specter of either body.
#[derive(Debug)]
pub enum AnySpecter {
    Concrete(Specter<Concrete>),
    Lazy(Specter<Lazy>),
}

impl MioRing {
    /// A ring that holds nothing.
    pub fn new() -> (ring: MioRing)
        ensures
            ring@ == RingView::empty(),
    {
        MioRing { entities: Table::new(), operations: Table::new(), specters: Table::new() }
    }

    /// Whether a specter, concrete or lazy, is in the ring.
    pub fn has(&self, id: &MioId) -> (found: bool)
        ensures
            found == self@.has(*id),
    {
        self.entities.contains_key(id) || self.specters.contains_key(id)
    }

    /// The operations that read a specter, if the specter is in the ring.
    pub fn deps(&self, id: &MioId) -> (deps: Option<&Vec<OpId>>)
        ensures
            match deps {
                Some(deps) => self@.has(*id) && deps@ == self@.deps(*id),
                None => !self@.has(*id),
            },
    {
        match self.entities.get(id) {
            Some(entity) => Some(&entity.deps),
            None => match self.specters.get(id) {
                Some(specter) => Some(&specter.deps),
                None => None,
            },
        }
    }

    /// The kind of a specter, if the specter is in the ring.
    pub fn kind(&self, id: &MioId) -> (kind: Option<EntityKind>)
        ensures
            match kind {
                Some(kind) => self@.has(*id) && kind == self@.kind(*id),
                None => !self@.has(*id),
            },
    {
        match self.entities.get(id) {
            Some(entity) => Some(entity.ext.kind()),
            None => match self.specters.get(id) {
                Some(specter) => Some(specter.ext.kind()),
                None => None,
            },
        }
    }

    /// A copy of the specter under an identifier, whichever body it has, if
    /// it is in the ring.
    pub fn find(&self, id: &MioId) -> (node: Option<AnySpecter>)
        ensures
            match node {
                Some(AnySpecter::Concrete(entity)) => self@.entities.contains_key(*id)
                    && entity@ == self@.entities[*id],
                Some(AnySpecter::Lazy(specter)) => !self@.entities.contains_key(*id)
                    && self@.specters.contains_key(*id) && specter@ == self@.specters[*id],
                None => !self@.has(*id),
            },
    {
        match self.entities.get(id) {
            Some(entity) => Some(AnySpecter::Concrete(entity.clone())),
            None => match self.specters.get(id) {
                Some(specter) => Some(AnySpecter::Lazy(specter.clone())),
                None => None,
            },
        }
    }

    /// A copy of the specter under an identifier that is in the ring,
    /// whichever body it has.
    pub fn specterish(&self, id: &MioId) -> (node: AnySpecter)
        requires
            self@.has(*id),
        ensures
            match node {
                AnySpecter::Concrete(entity) => self@.entities.contains_key(*id) && entity@
                    == self@.entities[*id],
                AnySpecter::Lazy(specter) => !self@.entities.contains_key(*id)
                    && self@.specters.contains_key(*id) && specter@ == self@.specters[*id],
            },
    {
        match self.find(id) {
            Some(node) => node,
            None => vstd::pervasive::unreached(),
        }
    }
}

} // verus!
