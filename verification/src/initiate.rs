//! Initiating an operation: a new operation on live specters, and the lazy
//! specter that it results in.

use crate::allocator::{Alloc, AllocView};
use crate::error::MioError;
use crate::ident::{MioId, OpId, RingId};
use crate::kind::{analyzed, kind_ext, EntityKind, EntityLike, OperationKind};
use crate::mio::{Mio, MioModel};
use crate::model::{ConcreteView, Lazy, Operation, OperationView, Specter, SpecterView};
use crate::lists::holds_before;
use crate::pool::{is_lowest, AllocPool};
use crate::ring::{MioRing, Reach, RingView};
use vstd::prelude::*;

verus! {

/// What drawing one ordinal gives: the ordinal, and what is left.
pub struct Draw {
    pub ord: usize,
    pub pool: Set<usize>,
    pub alloc: AllocView,
}

/// One ordinal drawn from a private pool where it has any, its lowest, and
/// from the allocator otherwise.
pub open spec fn draw(pool: Set<usize>, alloc: AllocView) -> Draw {
    if pool.is_empty() {
        Draw { ord: alloc.next(), pool, alloc: alloc.issue() }
    } else {
        let lowest = choose|x: usize| is_lowest(pool, x);
        Draw { ord: lowest, pool: pool.remove(lowest), alloc }
    }
}

/// Draws one ordinal, from the pool where it has any and from the allocator
/// otherwise, and stamps it with the current time.
pub fn draw_from(pool: &mut AllocPool, alloc: &mut Alloc) -> (id: RingId)
    requires
        !old(pool)@.is_empty() || old(alloc)@.can_issue(),
    ensures
        id.ord == draw(old(pool)@, old(alloc)@).ord,
        final(pool)@ == draw(old(pool)@, old(alloc)@).pool,
        final(alloc)@ == draw(old(pool)@, old(alloc)@).alloc,
{
    match pool.allocate() {
        Some(id) => {
            proof {
                let lowest = choose|x: usize| is_lowest(old(pool)@, x);
                crate::allocator::lemma_lowest_unique(old(pool)@, id.ord, lowest);
            }
            id
        },
        None => alloc.allocate(),
    }
}

/// The command that initiates an operation.
#[derive(Debug)]
pub struct MioInitiate {
    /// The kind of the transformation.
    pub kind: OperationKind,
    /// Its parameters.
    pub attr: serde_json::Value,
    /// The specters that it reads, in order.
    pub base: Vec<MioId>,
}

/// A ring with an operation registered as a reader of the given specters,
/// at the rear of their lists.
pub open spec fn registered(ring: RingView, nodes: Set<MioId>, op: OpId) -> RingView {
    RingView {
        entities: Map::new(
            |m: MioId| ring.entities.contains_key(m),
            |m: MioId|
                if nodes.contains(m) {
                    SpecterView {
                        id: ring.entities[m].id,
                        ext: ring.entities[m].ext,
                        deps: ring.entities[m].deps.push(op),
                        body: ring.entities[m].body,
                    }
                } else {
                    ring.entities[m]
                },
        ),
        operations: ring.operations,
        specters: Map::new(
            |m: MioId| ring.specters.contains_key(m),
            |m: MioId|
                if nodes.contains(m) {
                    SpecterView {
                        id: ring.specters[m].id,
                        ext: ring.specters[m].ext,
                        deps: ring.specters[m].deps.push(op),
                        body: ring.specters[m].body,
                    }
                } else {
                    ring.specters[m]
                },
        ),
    }
}

/// A ring with the private pool of one of its entities set to the given
/// ordinals.
pub open spec fn repooled(ring: RingView, id: MioId, pool: Set<usize>) -> RingView {
    if ring.entities.contains_key(id) {
        RingView {
            entities: ring.entities.insert(
                id,
                SpecterView {
                    id: ring.entities[id].id,
                    ext: ring.entities[id].ext,
                    deps: ring.entities[id].deps,
                    body: ConcreteView { pool, providence: ring.entities[id].body.providence },
                },
            ),
            operations: ring.operations,
            specters: ring.specters,
        }
    } else {
        ring
    }
}

impl MioRing {
    /// The kinds of the listed specters, in order, where all of them are in
    /// the ring; the first that is not, otherwise.
    pub fn kinds(&self, ids: &Vec<MioId>) -> (res: Result<Vec<EntityKind>, MioId>)
        ensures
            match res {
                Ok(kinds) => kinds@ == self@.kinds(ids@) && forall|i: int|
                    0 <= i < ids@.len() ==> self@.has(#[trigger] ids@[i]),
                Err(missing) => self@.first_missing(ids@) == Some(missing) && !self@.has(missing),
            },
    {
        let mut kinds: Vec<EntityKind> = Vec::new();
        let mut i: usize = 0;
        while i < ids.len()
            invariant
                i <= ids@.len(),
                kinds@ == self@.kinds(ids@.subrange(0, i as int)),
                forall|j: int| 0 <= j < i ==> self@.has(#[trigger] ids@[j]),
            decreases ids@.len() - i,
        {
            match self.kind(&ids[i]) {
                Some(kind) => {
                    kinds.push(kind);
                    assert(kinds@ =~= self@.kinds(ids@.subrange(0, i + 1)));
                },
                None => {
                    proof {
                        self@.lemma_first_missing(ids@, i as int);
                    }
                    return Err(ids[i]);
                },
            }
            i += 1;
        }
        assert(ids@.subrange(0, i as int) =~= ids@);
        Ok(kinds)
    }

    /// Registers an operation as a reader of each of the listed specters that
    /// the ring holds, at the rear of its list, once.
    pub fn register_dep(&mut self, ids: &Vec<MioId>, op: OpId)
        ensures
            final(self)@ == registered(old(self)@, ids@.to_set(), op),
    {
        let ghost before = self@;
        let mut i: usize = 0;
        assert(self@.entities =~= registered(before, ids@.subrange(0, 0).to_set(), op).entities);
        assert(self@.specters =~= registered(before, ids@.subrange(0, 0).to_set(), op).specters);
        while i < ids.len()
            invariant
                i <= ids@.len(),
                self@ == registered(before, ids@.subrange(0, i as int).to_set(), op),
            decreases ids@.len() - i,
        {
            let id = ids[i];
            let ghost seen = ids@.subrange(0, i as int).to_set();
            let ghost next = ids@.subrange(0, i + 1).to_set();
            proof {
                crate::lists::lemma_prefix_set(ids@, i as int);
            }
            if !holds_before(ids, i, &id) {
                assert(!seen.contains(id));
                match self.entities.remove(&id) {
                    Some(entity) => {
                        let mut entity = entity;
                        entity.deps.push(op);
                        self.entities.insert(id, entity);
                    },
                    None => {},
                }
                match self.specters.remove(&id) {
                    Some(specter) => {
                        let mut specter = specter;
                        specter.deps.push(op);
                        self.specters.insert(id, specter);
                    },
                    None => {},
                }
            } else {
                assert(seen.contains(id));
                assert(next =~= seen);
            }
            proof {
                assert(self@.entities =~= registered(before, next, op).entities);
                assert(self@.specters =~= registered(before, next, op).specters);
            }
            i += 1;
        }
        assert(ids@.subrange(0, i as int) =~= ids@);
    }

    /// Draws the ordinals for two new identifiers, from the private pool of
    /// the given specter first, where it is an entity of the ring, and from
    /// the allocator after, and stamps them with the current time.
    pub fn draw_two(&mut self, alloc: &mut Alloc, first: MioId) -> (ids: (RingId, RingId))
        requires
            old(alloc)@.wf(),
            (if old(self)@.entities.contains_key(first) {
                old(self)@.entities[first].body.pool.finite() && (if old(
                    self,
                )@.entities[first].body.pool.len() >= 2 {
                    0
                } else {
                    2 - old(self)@.entities[first].body.pool.len()
                }) <= old(alloc)@.room()
            } else {
                2 <= old(alloc)@.room()
            }),
        ensures
            ({
                let pool = if old(self)@.entities.contains_key(first) {
                    old(self)@.entities[first].body.pool
                } else {
                    Set::empty()
                };
                let one = draw(pool, old(alloc)@);
                let two = draw(one.pool, one.alloc);
                &&& ids.0.ord == one.ord
                &&& ids.1.ord == two.ord
                &&& final(alloc)@ == two.alloc
                &&& final(self)@ == repooled(old(self)@, first, two.pool)
            }),
    {
        let ghost before = self@;
        let ghost start = alloc@;
        match self.entities.remove(&first) {
            Some(entity) => {
                let mut entity = entity;
                let ghost pool = entity.body.pool@;
                proof {
                    start.lemma_room();
                    if pool.len() == 0 {
                        pool.lemma_len0_is_empty();
                        start.lemma_issue();
                        start.issue().lemma_room();
                    } else {
                        crate::allocator::lemma_has_lowest(pool);
                        let one = draw(pool, start);
                        if one.pool.len() == 0 {
                            one.pool.lemma_len0_is_empty();
                        }
                    }
                }
                let a = draw_from(&mut entity.body.pool, alloc);
                let b = draw_from(&mut entity.body.pool, alloc);
                self.entities.insert(first, entity);
                proof {
                    assert(self@.entities =~= repooled(
                        before,
                        first,
                        draw(draw(pool, start).pool, draw(pool, start).alloc).pool,
                    ).entities);
                }
                (a, b)
            },
            None => {
                let mut pool = AllocPool::new();
                proof {
                    start.lemma_room();
                    start.lemma_issue();
                    start.issue().lemma_room();
                    assert(self@.entities =~= before.entities);
                }
                let a = draw_from(&mut pool, alloc);
                let b = draw_from(&mut pool, alloc);
                (a, b)
            },
        }
    }
}

impl MioInitiate {
    /// The command for a transformation of the given kind, with the given
    /// parameters, on the given specters.
    pub fn new(kind: OperationKind, attr: serde_json::Value, base: Vec<MioId>) -> (command: Self)
        ensures
            command.kind == kind,
            command.attr == attr,
            command.base == base,
    {
        MioInitiate { kind, attr, base }
    }

    /// The private pool that the new identifiers are drawn from first: that
    /// of the first specter read, where it is an entity.
    pub open spec fn pool(&self, pre: MioModel) -> Set<usize> {
        if pre.ring.entities.contains_key(self.base@[0]) {
            pre.ring.entities[self.base@[0]].body.pool
        } else {
            Set::empty()
        }
    }

    /// How many of the two new ordinals the allocator has to give.
    pub open spec fn needed(&self, pre: MioModel) -> int {
        if self.pool(pre).len() >= 2 {
            0
        } else {
            2 - self.pool(pre).len()
        }
    }

    /// What the transformation results in on the specters that it reads, if
    /// it is legal on them.
    pub open spec fn outcome(&self, pre: MioModel) -> Option<EntityKind> {
        analyzed(self.kind, pre.ring.kinds(self.base@))
    }

    /// Whether the command can be carried out: it reads at least one
    /// specter, all that it reads are live, the transformation is legal on
    /// them, and the ordinals for its two new identifiers can be had.
    pub open spec fn ready(&self, pre: MioModel) -> bool {
        &&& self.base@.len() > 0
        &&& forall|i: int| 0 <= i < self.base@.len() ==> pre.ring.has(#[trigger] self.base@[i])
        &&& self.outcome(pre) is Some
        &&& self.needed(pre) <= pre.alloc.room()
    }

    /// The aggregate after the command, given the two identifiers that it
    /// made: the ordinals drawn, the operation registered with each specter
    /// that it reads, and the new lazy specter and the new operation put into
    /// the live ring.
    pub open spec fn effect(&self, pre: MioModel, op: OpId, specter: MioId) -> MioModel {
        let first = draw(self.pool(pre), pre.alloc);
        let second = draw(first.pool, first.alloc);
        let ring = registered(
            repooled(pre.ring, self.base@[0], second.pool),
            self.base@.to_set(),
            op,
        );
        MioModel {
            alloc: second.alloc,
            null: pre.null,
            chronology: pre.chronology,
            ring: RingView {
                entities: ring.entities,
                operations: ring.operations.insert(
                    op,
                    OperationView {
                        id: op,
                        kind: self.kind,
                        attr: self.attr,
                        base: self.base@,
                        specter,
                    },
                ),
                specters: ring.specters.insert(
                    specter,
                    SpecterView {
                        id: specter,
                        ext: kind_ext(self.outcome(pre)->0),
                        deps: Seq::empty(),
                        body: Lazy { operation: op },
                    },
                ),
            },
            archived: pre.archived,
        }
    }

    /// Whether the command was carried out from `pre` to `post` with the two
    /// given identifiers, and `ring` is what it hands back: the specters that
    /// it reads, as they stand after it, the new specter and the new
    /// operation.
    pub open spec fn initiated(
        &self,
        pre: MioModel,
        post: MioModel,
        ring: RingView,
        op: OpId,
        specter: MioId,
    ) -> bool {
        &&& self.ready(pre)
        &&& op.0.ord == draw(self.pool(pre), pre.alloc).ord
        &&& specter.0.ord == draw(
            draw(self.pool(pre), pre.alloc).pool,
            draw(self.pool(pre), pre.alloc).alloc,
        ).ord
        &&& post == self.effect(pre, op, specter)
        &&& ring == post.ring.restrict(
            Reach { nodes: self.base@.to_set().insert(specter), ops: set![op] },
        )
    }

    /// Carries the command out on an aggregate: draws the identifiers of a new
    /// operation and of the lazy specter that it results in, from the private
    /// pool of the first specter read before the allocator; registers the
    /// operation at the rear of the readers of each specter that it reads;
    /// and puts the new specter, with the extension that its kind suggests,
    /// and the new operation into the live ring. Hands back the specters read,
    /// the new specter and the new operation, as a ring of their own. An
    /// aggregate that was in order stays so.
    ///
    /// Fails, and leaves the aggregate as it was, where the command reads no
    /// specter, where a specter that it reads is not live, where the
    /// transformation is not legal on what it reads, and where no ordinal is
    /// left.
    pub fn interpret(self, mio: &mut Mio) -> (res: Result<MioRing, MioError>)
        ensures
            final(mio).dirs == old(mio).dirs,
            match res {
                Ok(ring) => {
                    &&& exists|op: OpId, specter: MioId| #[trigger]
                        self.initiated(old(mio)@, final(mio)@, ring@, op, specter)
                    &&& old(mio)@.wf() ==> final(mio)@.wf()
                },
                Err(MioError::NoBase) => self.base@.len() == 0 && *final(mio) == *old(mio),
                Err(MioError::NotFound(missing)) => {
                    &&& *final(mio) == *old(mio)
                    &&& old(mio)@.ring.first_missing(self.base@) == Some(missing)
                    &&& !old(mio)@.ring.has(missing)
                },
                Err(MioError::Unsupported(e)) => {
                    &&& *final(mio) == *old(mio)
                    &&& self.base@.len() > 0
                    &&& forall|i: int|
                        0 <= i < self.base@.len() ==> old(mio)@.ring.has(#[trigger] self.base@[i])
                    &&& self.outcome(old(mio)@) is None
                    &&& e.kind == self.kind
                    &&& e.src@ == old(mio)@.ring.kinds(self.base@)
                },
                Err(MioError::Exhausted) => {
                    &&& *final(mio) == *old(mio)
                    &&& self.base@.len() > 0
                    &&& forall|i: int|
                        0 <= i < self.base@.len() ==> old(mio)@.ring.has(#[trigger] self.base@[i])
                    &&& self.outcome(old(mio)@) is Some
                    &&& self.needed(old(mio)@) > old(mio)@.alloc.room()
                },
                Err(_) => false,
            },
    {
        let ghost pre = mio@;
        let ghost command = self;
        let MioInitiate { kind: op_kind, attr, base } = self;
        if base.len() == 0 {
            return Err(MioError::NoBase);
        }
        let kinds = match mio.ring.kinds(&base) {
            Ok(kinds) => kinds,
            Err(missing) => {
                return Err(MioError::NotFound(missing));
            },
        };
        let kind = match op_kind.analyze(&kinds) {
            Ok(kind) => kind,
            Err(e) => {
                return Err(MioError::Unsupported(e));
            },
        };
        let first = base[0];
        let at_hand = match mio.ring.entities.get(&first) {
            Some(entity) => entity.body.pool.len(),
            None => 0,
        };
        let needed: usize = if at_hand >= 2 {
            0
        } else {
            2 - at_hand
        };
        assert(needed == command.needed(pre)) by {
            if !pre.ring.entities.contains_key(first) {
                assert(command.pool(pre).len() == 0);
            }
        }
        if !mio.alloc.has_room(needed) {
            return Err(MioError::Exhausted);
        }
        let (a, b) = mio.ring.draw_two(&mut mio.alloc, first);
        let new_op = OpId(a);
        let new_specter = MioId(b);
        mio.ring.register_dep(&base, new_op);
        mio.ring.specters.insert(
            new_specter,
            Specter {
                id: new_specter,
                ext: kind.ext_hint(),
                deps: Vec::new(),
                body: Lazy { operation: new_op },
            },
        );
        let mut nodes = crate::lists::copied(&base);
        nodes.push(new_specter);
        let ghost read = base@;
        let operation = Operation { id: new_op, kind: op_kind, attr, base, specter: new_specter };
        mio.ring.operations.insert(new_op, operation);
        let mut ops: Vec<OpId> = Vec::new();
        ops.push(new_op);
        let ring = mio.ring.copy_of(&nodes, &ops);
        proof {
            let post = command.effect(pre, new_op, new_specter);
            assert(mio@.ring.entities =~= post.ring.entities);
            assert(mio@.ring.specters =~= post.ring.specters);
            assert(mio@.ring.operations =~= post.ring.operations);
            assert(mio@.ring == post.ring);
            assert(mio@ == post);
            crate::lists::lemma_prefix_set(nodes@, read.len() as int);
            assert(nodes@.subrange(0, read.len() as int) =~= read);
            assert(nodes@.subrange(0, read.len() as int + 1) =~= nodes@);
            assert(ops@.to_set() =~= set![new_op]) by {
                assert(ops@[0] == new_op);
            }
            assert(command.initiated(pre, mio@, ring@, new_op, new_specter));
        }
        let ghost post = mio@;
        let ghost handed = ring@;
        let res: Result<MioRing, MioError> = Ok(ring);
        assert(res->Ok_0@ == handed);
        assert(command.initiated(pre, post, res->Ok_0@, new_op, new_specter));
        proof {
            if pre.wf() {
                command.lemma_initiate_keeps_order(pre, new_op, new_specter);
            }
        }
        res
    }
}

} // verus!
