//! The aggregate as a whole: what it means for it to be in order, and that
//! the commands keep it so.

use crate::allocator::AllocView;
use crate::archive::{archived_state, lemma_cascade, ordinals};
use crate::chronology::Ephemerality;
use crate::ident::{MioId, OpId};
use crate::initiate::{draw, registered, repooled, MioInitiate};
use crate::kind::EntityExt;
use crate::mio::{MioModel, POOL_SIZE};
use crate::model::{ConcreteView, Providence, SpecterView};
use crate::ring::{Reach, RingView};
use vstd::prelude::*;

verus! {

/// A use of an ordinal: by the null identifier, by the identifier of a live
/// specter or of a live operation, or by the private pool of a live entity,
/// which holds it for a descendant.
#[derive(Debug, Clone, Copy, PartialEq, Eq, Structural)]
pub enum Use {
    Null,
    Node(MioId),
    Op(OpId),
    Pooled(MioId, usize),
}

impl MioModel {
    /// Whether an ordinal is in use in this way.
    pub open spec fn in_use(self, how: Use) -> bool {
        match how {
            Use::Null => true,
            Use::Node(m) => self.ring.has(m),
            Use::Op(o) => self.ring.operations.contains_key(o),
            Use::Pooled(e, x) => self.ring.entities.contains_key(e)
                && self.ring.entities[e].body.pool.contains(x),
        }
    }

    /// The ordinal that is used.
    pub open spec fn ord_of(self, how: Use) -> usize {
        match how {
            Use::Null => self.null.0.ord,
            Use::Node(m) => m.0.ord,
            Use::Op(o) => o.0.ord,
            Use::Pooled(_, x) => x,
        }
    }

    /// Whether the ordinals are in order: each ordinal that is in use is out
    /// of the allocator, and none is in use in two ways. So no two live
    /// identifiers share an ordinal, and none will be handed one that is
    /// live.
    pub open spec fn disciplined(self) -> bool {
        &&& forall|how: Use| #[trigger]
            self.in_use(how) ==> self.alloc.issued().contains(self.ord_of(how))
        &&& forall|one: Use, other: Use|
            #![trigger self.in_use(one), self.in_use(other)]
            self.in_use(one) && self.in_use(other) && self.ord_of(one) == self.ord_of(other)
                ==> one == other
    }

    /// Whether every moment of the log is that of a live specter.
    pub open spec fn chronicled(self) -> bool {
        forall|i: int|
            0 <= i < self.chronology.len() ==> self.ring.has((#[trigger] self.chronology[i]).base)
    }

    /// Whether the aggregate is in order: its allocator is well formed, its
    /// live ring hangs together, its ordinals are in order, and its log
    /// speaks of live specters only.
    pub open spec fn wf(self) -> bool {
        &&& self.alloc.wf()
        &&& self.ring.consistent()
        &&& self.disciplined()
        &&& self.chronicled()
    }
}

impl AllocView {
    /// Taking a pool keeps the allocator well formed, and what the pool
    /// holds was not out before and is out after.
    pub proof fn lemma_pools_to(self, size: usize, pool: Set<usize>, after: AllocView)
        requires
            self.wf(),
            self.pools_to(size, pool, after),
        ensures
            after.wf(),
            pool.disjoint(self.issued()),
            after.issued() == self.issued().union(pool),
    {
        assert forall|x: usize| after.hill.contains(x) implies x < after.ord by {
            assert(self.hill.contains(x));
        }
        assert forall|x: usize| pool.contains(x) implies !self.issued().contains(x) by {
            assert(self.available().contains(x));
        }
        assert forall|x: usize| after.issued().contains(x) implies self.issued().union(
            pool,
        ).contains(x) by {
            if x >= self.ord {
                assert(pool.contains(x));
            }
        }
        assert forall|x: usize| self.issued().union(pool).contains(x) implies after.issued().contains(
            x,
        ) by {
            if pool.contains(x) {
                assert(self.available().contains(x));
                if self.hill.contains(x) {
                    assert(!after.hill.contains(x));
                }
            }
        }
        assert(after.issued() =~= self.issued().union(pool));
    }
}

impl MioModel {
    /// Whether `after` is this aggregate after content of the given
    /// extension was registered under the given identifier: the identifier
    /// has the next ordinal; the entity has a private pool taken from the
    /// allocator after that, no reader, and the provenance of what was
    /// registered; it is in the live ring, and its moment is the last of the
    /// log. Nothing else has changed.
    pub open spec fn registers(self, after: MioModel, id: MioId, ext: EntityExt) -> bool {
        &&& self.alloc.can_issue()
        &&& id.0.ord == self.alloc.next()
        &&& after.ring.entities.contains_key(id)
        &&& self.alloc.issue().pools_to(
            POOL_SIZE,
            after.ring.entities[id].body.pool,
            after.alloc,
        )
        &&& after.ring.entities == self.ring.entities.insert(
            id,
            SpecterView {
                id,
                ext,
                deps: Seq::empty(),
                body: ConcreteView {
                    pool: after.ring.entities[id].body.pool,
                    providence: Providence::Registered,
                },
            },
        )
        &&& after.ring.specters == self.ring.specters
        &&& after.ring.operations == self.ring.operations
        &&& after.archived == self.archived
        &&& after.null == self.null
        &&& after.chronology.len() == self.chronology.len() + 1
        &&& after.chronology.drop_last() == self.chronology
        &&& after.chronology.last().base == id
    }

    /// The aggregate with nothing in it but the null identifier, which has
    /// the first ordinal.
    pub open spec fn fresh(self) -> bool {
        &&& self.null.0.ord == 0
        &&& self.alloc.ord == 1
        &&& self.alloc.hill == Set::<usize>::empty()
        &&& self.chronology == Seq::<Ephemerality>::empty()
        &&& self.ring == RingView::empty()
        &&& self.archived == RingView::empty()
    }

    /// Being in order is a matter of the allocator, the null identifier, the
    /// log and the live ring alone.
    pub proof fn lemma_order_of_live(self, other: MioModel)
        requires
            self.wf(),
            other.alloc == self.alloc,
            other.null == self.null,
            other.ring == self.ring,
            other.chronology == self.chronology,
        ensures
            other.wf(),
    {
        assert forall|how: Use| #[trigger] other.in_use(how) implies self.in_use(how)
            && self.ord_of(how) == other.ord_of(how) by {}
        assert forall|one: Use, another: Use|
            #![trigger other.in_use(one), other.in_use(another)]
            other.in_use(one) && other.in_use(another) && other.ord_of(one) == other.ord_of(
                another,
            ) implies one == another by {
            assert(self.in_use(one) && self.in_use(another));
        }
    }

    /// A fresh aggregate is in order.
    pub proof fn lemma_fresh_in_order(self)
        requires
            self.fresh(),
        ensures
            self.wf(),
    {
        assert forall|how: Use| #[trigger] self.in_use(how) implies how == Use::Null by {}
    }

    /// Registering keeps the aggregate in order.
    pub proof fn lemma_register_keeps_order(self, after: MioModel, id: MioId, ext: EntityExt)
        requires
            self.wf(),
            self.registers(after, id, ext),
        ensures
            after.wf(),
            !self.ring.has(id),
    {
        let pool = after.ring.entities[id].body.pool;
        let middle = self.alloc.issue();
        self.alloc.lemma_issue();
        middle.lemma_pools_to(POOL_SIZE, pool, after.alloc);
        assert(!self.ring.has(id)) by {
            if self.ring.has(id) {
                assert(self.in_use(Use::Node(id)));
            }
        }
        assert forall|m: MioId| after.ring.has(m) implies (if m == id {
            after.ring.deps(m) == Seq::<OpId>::empty()
        } else {
            self.ring.has(m) && after.ring.deps(m) == self.ring.deps(m)
        }) by {}
        assert(after.ring.consistent()) by {
            assert forall|o: OpId, i: int|
                after.ring.operations.contains_key(o) && 0 <= i
                    < after.ring.operations[o].base.len() implies after.ring.has(
                #[trigger] after.ring.operations[o].base[i],
            ) && after.ring.deps(after.ring.operations[o].base[i]).contains(o) by {
                let b = self.ring.operations[o].base[i];
                assert(self.ring.has(b));
            }
        }
        assert forall|i: int| 0 <= i < after.chronology.len() implies after.ring.has(
            (#[trigger] after.chronology[i]).base,
        ) by {
            if i < self.chronology.len() {
                assert(after.chronology.drop_last()[i] == after.chronology[i]);
                assert(self.ring.has(self.chronology[i].base));
            }
        }
        assert forall|how: Use| #[trigger] after.in_use(how) implies (self.in_use(how)
            && self.alloc.issued().contains(after.ord_of(how))) || (how == Use::Node(id)
            && after.ord_of(how) == self.alloc.next()) || (exists|x: usize|
            how == Use::Pooled(id, x) && pool.contains(x)) by {
            match how {
                Use::Null => {
                    assert(self.in_use(Use::Null));
                },
                Use::Node(m) => {
                    if m != id {
                        assert(self.in_use(Use::Node(m)));
                    }
                },
                Use::Op(o) => {
                    assert(self.in_use(Use::Op(o)));
                },
                Use::Pooled(e, x) => {
                    if e != id {
                        assert(self.in_use(Use::Pooled(e, x)));
                    }
                },
            }
        }
        assert forall|one: Use, other: Use|
            #![trigger after.in_use(one), after.in_use(other)]
            after.in_use(one) && after.in_use(other) && after.ord_of(one) == after.ord_of(
                other,
            ) implies one == other by {
            if self.in_use(one) && self.in_use(other) {
                assert(self.ord_of(one) == after.ord_of(one));
                assert(self.ord_of(other) == after.ord_of(other));
            }
        }
    }
}

/// The ordinals below a ceiling are finitely many.
pub proof fn lemma_below_finite(ceiling: usize)
    ensures
        Set::new(|x: usize| x < ceiling).finite(),
    decreases ceiling,
{
    let below = Set::new(|x: usize| x < ceiling);
    if ceiling == 0 {
        assert(below =~= Set::<usize>::empty());
    } else {
        let lower = (ceiling - 1) as usize;
        lemma_below_finite(lower);
        assert(below =~= Set::new(|x: usize| x < lower).insert(lower));
    }
}

impl MioModel {
    /// Archiving keeps the aggregate in order: where a reach of the live ring
    /// is closed along the edges forward, the aggregate without it is in
    /// order as the aggregate was, and the hill has gained exactly the
    /// ordinals of the reach.
    pub proof fn lemma_archive_keeps_order(self, reach: Reach)
        requires
            self.wf(),
            self.ring.closed(reach, false),
            self.ring.holds(reach),
        ensures
            archived_state(self, reach).wf(),
            archived_state(self, reach).alloc.hill == self.alloc.hill.union(ordinals(reach)),
    {
        let after = archived_state(self, reach);
        lemma_cascade(self.ring, reach);
        assert forall|x: usize| ordinals(reach).contains(x) implies self.alloc.issued().contains(
            x,
        ) by {
            if exists|m: MioId| reach.nodes.contains(m) && m.0.ord == x {
                let m = choose|m: MioId| reach.nodes.contains(m) && m.0.ord == x;
                assert(self.in_use(Use::Node(m)));
            } else {
                let o = choose|o: OpId| reach.ops.contains(o) && o.0.ord == x;
                assert(self.in_use(Use::Op(o)));
            }
        }
        assert(after.alloc.hill =~= self.alloc.hill.union(ordinals(reach)));
        assert(after.alloc.wf()) by {
            lemma_below_finite(self.alloc.ord);
            let below = Set::new(|x: usize| x < self.alloc.ord);
            assert(after.alloc.hill.subset_of(below));
            vstd::set_lib::lemma_set_subset_finite(below, after.alloc.hill);
        }
        assert forall|i: int| 0 <= i < after.chronology.len() implies after.ring.has(
            (#[trigger] after.chronology[i]).base,
        ) by {
            let moment = after.chronology[i];
            assert(after.chronology.contains(moment));
            crate::archive::lemma_filter_has(
                self.chronology,
                crate::archive::apart(reach.nodes),
                moment,
            );
            let k = choose|k: int| 0 <= k < self.chronology.len() && self.chronology[k] == moment;
            assert(self.ring.has(self.chronology[k].base));
        }
        assert forall|how: Use| #[trigger] after.in_use(how) implies self.in_use(how)
            && !ordinals(reach).contains(after.ord_of(how)) by {
            assert(self.in_use(how));
            let x = after.ord_of(how);
            if ordinals(reach).contains(x) {
                if exists|m: MioId| reach.nodes.contains(m) && m.0.ord == x {
                    let m = choose|m: MioId| reach.nodes.contains(m) && m.0.ord == x;
                    assert(self.in_use(Use::Node(m)));
                    assert(how == Use::Node(m));
                } else {
                    let o = choose|o: OpId| reach.ops.contains(o) && o.0.ord == x;
                    assert(self.in_use(Use::Op(o)));
                    assert(how == Use::Op(o));
                }
            }
        }
        assert forall|one: Use, other: Use|
            #![trigger after.in_use(one), after.in_use(other)]
            after.in_use(one) && after.in_use(other) && after.ord_of(one) == after.ord_of(
                other,
            ) implies one == other by {
            assert(self.in_use(one) && self.in_use(other));
        }
    }
}

/// What one draw does: it takes the lowest ordinal of the pool where the
/// pool has any, and leaves the allocator alone; and otherwise it has the
/// allocator issue one that was not out.
pub proof fn lemma_draw(pool: Set<usize>, alloc: AllocView)
    requires
        alloc.wf(),
        pool.finite(),
        !pool.is_empty() || alloc.can_issue(),
    ensures
        draw(pool, alloc).alloc.wf(),
        draw(pool, alloc).pool.finite(),
        pool.is_empty() ==> {
            &&& draw(pool, alloc).pool == pool
            &&& !alloc.issued().contains(draw(pool, alloc).ord)
            &&& draw(pool, alloc).alloc.issued() == alloc.issued().insert(draw(pool, alloc).ord)
            &&& draw(pool, alloc).alloc.room() == alloc.room() - 1
        },
        !pool.is_empty() ==> {
            &&& pool.contains(draw(pool, alloc).ord)
            &&& draw(pool, alloc).pool == pool.remove(draw(pool, alloc).ord)
            &&& draw(pool, alloc).pool.len() == pool.len() - 1
            &&& draw(pool, alloc).alloc == alloc
        },
{
    if pool.is_empty() {
        alloc.lemma_issue();
    } else {
        crate::allocator::lemma_has_lowest(pool);
    }
}

impl MioInitiate {
    /// Initiating keeps the aggregate in order, and the two identifiers that
    /// it makes are new to the live ring.
    pub proof fn lemma_initiate_keeps_order(&self, pre: MioModel, op: OpId, specter: MioId)
        requires
            pre.wf(),
            self.ready(pre),
            op.0.ord == draw(self.pool(pre), pre.alloc).ord,
            specter.0.ord == draw(
                draw(self.pool(pre), pre.alloc).pool,
                draw(self.pool(pre), pre.alloc).alloc,
            ).ord,
        ensures
            self.effect(pre, op, specter).wf(),
            !pre.ring.operations.contains_key(op),
            !pre.ring.has(specter),
    {
        let post = self.effect(pre, op, specter);
        let first = self.base@[0];
        let pool = self.pool(pre);
        let one = draw(pool, pre.alloc);
        let two = draw(one.pool, one.alloc);
        let nodes = self.base@.to_set();
        // the pool is finite, and what it holds is out
        assert(pool.finite() && pool.subset_of(pre.alloc.issued())) by {
            lemma_below_finite(pre.alloc.ord);
            let below = Set::new(|x: usize| x < pre.alloc.ord);
            assert forall|x: usize| pool.contains(x) implies below.contains(x)
                && pre.alloc.issued().contains(x) by {
                assert(pre.in_use(Use::Pooled(first, x)));
            }
            vstd::set_lib::lemma_set_subset_finite(below, pool);
        }
        pre.alloc.lemma_room();
        if pool.len() == 0 {
            pool.lemma_len0_is_empty();
        }
        lemma_draw(pool, pre.alloc);
        one.alloc.lemma_room();
        if one.pool.len() == 0 {
            one.pool.lemma_len0_is_empty();
        }
        lemma_draw(one.pool, one.alloc);
        // the two ordinals differ, and each was pooled or was not out
        assert(one.ord != two.ord);
        let from_pool_one = !pool.is_empty();
        let from_pool_two = !one.pool.is_empty();
        assert(post.alloc.issued() =~= pre.alloc.issued().union(
            Set::new(
                |x: usize|
                    (x == one.ord && !from_pool_one) || (x == two.ord && !from_pool_two),
            ),
        ));
        // neither is the ordinal of anything that stays in use
        assert forall|how: Use| pre.in_use(how) && pre.ord_of(how) == one.ord implies from_pool_one
            && how == Use::Pooled(first, one.ord) by {
            if from_pool_one {
                assert(pre.in_use(Use::Pooled(first, one.ord)));
            }
        }
        assert forall|how: Use| pre.in_use(how) && pre.ord_of(how) == two.ord implies from_pool_two
            && how == Use::Pooled(first, two.ord) by {
            if from_pool_two {
                assert(pre.in_use(Use::Pooled(first, two.ord)));
            }
        }
        assert(!pre.ring.operations.contains_key(op)) by {
            if pre.ring.operations.contains_key(op) {
                assert(pre.in_use(Use::Op(op)));
            }
        }
        assert(!pre.ring.has(specter)) by {
            if pre.ring.has(specter) {
                assert(pre.in_use(Use::Node(specter)));
            }
        }
        let middle = registered(repooled(pre.ring, first, two.pool), nodes, op);
        assert forall|m: MioId| post.ring.has(m) <==> pre.ring.has(m) || m == specter by {}
        assert forall|m: MioId| pre.ring.has(m) implies post.ring.deps(m) == (if nodes.contains(
            m,
        ) {
            pre.ring.deps(m).push(op)
        } else {
            pre.ring.deps(m)
        }) by {}
        assert(pre.ring.has(first));
        assert(post.ring.deps(specter) == Seq::<OpId>::empty());
        assert(post.ring.consistent()) by {
            assert forall|m: MioId, i: int|
                post.ring.has(m) && 0 <= i < post.ring.deps(
                    m,
                ).len() implies post.ring.operations.contains_key(
                #[trigger] post.ring.deps(m)[i],
            ) && post.ring.operations[post.ring.deps(m)[i]].base.contains(m) by {
                if i < pre.ring.deps(m).len() {
                    let d = pre.ring.deps(m)[i];
                    assert(pre.ring.operations.contains_key(d));
                } else {
                    let k = choose|k: int| 0 <= k < self.base@.len() && self.base@[k] == m;
                    assert(self.base@[k] == m);
                }
            }
            assert forall|o: OpId, i: int|
                post.ring.operations.contains_key(o) && 0 <= i
                    < post.ring.operations[o].base.len() implies post.ring.has(
                #[trigger] post.ring.operations[o].base[i],
            ) && post.ring.deps(post.ring.operations[o].base[i]).contains(o) by {
                if o == op {
                    let b = self.base@[i];
                    assert(nodes.contains(b));
                    let deps = post.ring.deps(b);
                    assert(deps[deps.len() - 1] == op);
                } else {
                    let b = pre.ring.operations[o].base[i];
                    assert(pre.ring.has(b) && pre.ring.deps(b).contains(o));
                    let k = choose|k: int|
                        0 <= k < pre.ring.deps(b).len() && pre.ring.deps(b)[k] == o;
                    assert(post.ring.deps(b)[k] == o);
                }
            }
            assert forall|m: MioId| #[trigger]
                post.ring.specters.contains_key(m) implies post.ring.specters[m].id == m
                && post.ring.operations.contains_key(post.ring.specters[m].body.operation)
                && post.ring.operations[post.ring.specters[m].body.operation].specter == m by {
                if m != specter {
                    assert(pre.ring.specters.contains_key(m));
                }
            }
            assert forall|m: MioId| #[trigger]
                post.ring.entities.contains_key(m) implies post.ring.entities[m].id == m
                && !post.ring.specters.contains_key(m) by {
                assert(pre.ring.entities.contains_key(m));
            }
            assert forall|o: OpId| #[trigger]
                post.ring.operations.contains_key(o) implies post.ring.operations[o].id == o by {
                if o != op {
                    assert(pre.ring.operations.contains_key(o));
                }
            }
        }
        assert forall|i: int| 0 <= i < post.chronology.len() implies post.ring.has(
            (#[trigger] post.chronology[i]).base,
        ) by {
            assert(pre.ring.has(pre.chronology[i].base));
        }
        // what is in use after was in use before, but for the two that are new
        assert forall|how: Use| #[trigger] post.in_use(how) implies post.alloc.issued().contains(
            post.ord_of(how),
        ) && (how == Use::Op(op) || how == Use::Node(specter) || (pre.in_use(how) && pre.ord_of(
            how,
        ) == post.ord_of(how) && pre.ord_of(how) != one.ord && pre.ord_of(how) != two.ord)) by {
            match how {
                Use::Null => {
                    assert(pre.in_use(Use::Null));
                },
                Use::Node(m) => {
                    if m != specter {
                        assert(pre.in_use(Use::Node(m)));
                    }
                },
                Use::Op(o) => {
                    if o != op {
                        assert(pre.in_use(Use::Op(o)));
                    }
                },
                Use::Pooled(e, x) => {
                    assert(pre.ring.entities.contains_key(e));
                    if e == first {
                        assert(two.pool.contains(x));
                        assert(pool.contains(x));
                    }
                    assert(pre.in_use(Use::Pooled(e, x)));
                },
            }
        }
        assert forall|a: Use, b: Use|
            #![trigger post.in_use(a), post.in_use(b)]
            post.in_use(a) && post.in_use(b) && post.ord_of(a) == post.ord_of(b) implies a
            == b by {
            if a != Use::Op(op) && a != Use::Node(specter) && b != Use::Op(op) && b != Use::Node(
                specter,
            ) {
                assert(pre.in_use(a) && pre.in_use(b));
            }
        }
    }
}

} // verus!
