//! Archiving: moving a specter or an operation out of the live ring, with
//! everything that was computed from it.

use crate::allocator::{Alloc, AllocView};
use crate::chronology::Ephemerality;
use crate::closure::roots_of;
use crate::error::MioError;
use crate::ident::{MioId, OpId};
use crate::lists::holds;
use crate::mio::{Mio, MioModel};
use crate::model::SpecterView;
use crate::ring::{MioRing, Reach, RingView};
use crate::table::Identifier;
use vstd::prelude::*;

verus! {

/// The test that an item is not in a set.
pub open spec fn outside<T>(drop: Set<T>) -> spec_fn(T) -> bool {
    |x: T| !drop.contains(x)
}

/// The test that a moment is not that of one of the given entities.
pub open spec fn apart(nodes: Set<MioId>) -> spec_fn(Ephemerality) -> bool {
    |moment: Ephemerality| !nodes.contains(moment.base)
}

/// A list without the last item, filtered, is the filtered list without
/// what the last item added to it.
proof fn lemma_filter_step<T>(list: Seq<T>, at: int, keep: spec_fn(T) -> bool)
    requires
        0 <= at < list.len(),
    ensures
        list.subrange(0, at + 1).filter(keep) == if keep(list[at]) {
            list.subrange(0, at).filter(keep).push(list[at])
        } else {
            list.subrange(0, at).filter(keep)
        },
{
    reveal(Seq::filter);
    let long = list.subrange(0, at + 1);
    assert(long.drop_last() =~= list.subrange(0, at));
    assert(long.last() == list[at]);
}

/// The items of a list that are not in another, in their order.
pub fn without<T: Identifier>(items: &Vec<T>, drop: &Vec<T>) -> (kept: Vec<T>)
    ensures
        kept@ == items@.filter(outside(drop@.to_set())),
{
    let ghost keep = outside(drop@.to_set());
    let mut kept: Vec<T> = Vec::new();
    let mut i: usize = 0;
    proof {
        reveal(Seq::filter);
        assert(items@.subrange(0, 0).filter(keep) =~= Seq::<T>::empty());
    }
    while i < items.len()
        invariant
            i <= items@.len(),
            keep == outside(drop@.to_set()),
            kept@ == items@.subrange(0, i as int).filter(keep),
        decreases items@.len() - i,
    {
        proof {
            lemma_filter_step(items@, i as int, keep);
        }
        if !holds(drop, &items[i]) {
            kept.push(items[i]);
        }
        i += 1;
    }
    assert(items@.subrange(0, i as int) =~= items@);
    kept
}

/// The moments of a log that are not those of the listed entities, in their
/// order.
pub fn forget(chronology: &Vec<Ephemerality>, nodes: &Vec<MioId>) -> (kept: Vec<Ephemerality>)
    ensures
        kept@ == chronology@.filter(apart(nodes@.to_set())),
{
    let ghost keep = apart(nodes@.to_set());
    let mut kept: Vec<Ephemerality> = Vec::new();
    let mut i: usize = 0;
    proof {
        reveal(Seq::filter);
        assert(chronology@.subrange(0, 0).filter(keep) =~= Seq::<Ephemerality>::empty());
    }
    while i < chronology.len()
        invariant
            i <= chronology@.len(),
            keep == apart(nodes@.to_set()),
            kept@ == chronology@.subrange(0, i as int).filter(keep),
        decreases chronology@.len() - i,
    {
        proof {
            lemma_filter_step(chronology@, i as int, keep);
        }
        if !holds(nodes, &chronology[i].base) {
            kept.push(chronology[i]);
        }
        i += 1;
    }
    assert(chronology@.subrange(0, i as int) =~= chronology@);
    kept
}

/// A ring in which no specter lists any of the given operations as a reader
/// any more.
pub open spec fn pruned(ring: RingView, ops: Set<OpId>) -> RingView {
    RingView {
        entities: Map::new(
            |m: MioId| ring.entities.contains_key(m),
            |m: MioId|
                SpecterView {
                    id: ring.entities[m].id,
                    ext: ring.entities[m].ext,
                    deps: ring.entities[m].deps.filter(outside(ops)),
                    body: ring.entities[m].body,
                },
        ),
        operations: ring.operations,
        specters: Map::new(
            |m: MioId| ring.specters.contains_key(m),
            |m: MioId|
                SpecterView {
                    id: ring.specters[m].id,
                    ext: ring.specters[m].ext,
                    deps: ring.specters[m].deps.filter(outside(ops)),
                    body: ring.specters[m].body,
                },
        ),
    }
}

/// The ordinals of the identifiers of a reach.
pub open spec fn ordinals(reach: Reach) -> Set<usize> {
    Set::new(
        |x: usize|
            (exists|m: MioId| reach.nodes.contains(m) && m.0.ord == x) || (exists|o: OpId|
                reach.ops.contains(o) && o.0.ord == x),
    )
}

/// An allocator after those of the given ordinals that lie below its ceiling
/// have come back to it.
pub open spec fn reclaimed(alloc: AllocView, ords: Set<usize>) -> AllocView {
    AllocView { ord: alloc.ord, hill: alloc.hill.union(ords.filter(|x: usize| x < alloc.ord)) }
}

impl MioRing {
    /// Takes the listed operations off the readers of every specter of the
    /// ring.
    pub fn prune(&mut self, ops: &Vec<OpId>)
        ensures
            final(self)@ == pruned(old(self)@, ops@.to_set()),
    {
        let ghost before = self@;
        let ghost gone = ops@.to_set();
        let keys = self.entities.keys();
        let mut i: usize = 0;
        while i < keys.len()
            invariant
                i <= keys@.len(),
                gone == ops@.to_set(),
                keys@.to_set() == before.entities.dom(),
                self@.operations == before.operations,
                self@.specters == before.specters,
                self@.entities.dom() == before.entities.dom(),
                forall|m: MioId|
                    before.entities.contains_key(m) ==> #[trigger] self@.entities[m] == (if keys@.subrange(
                        0,
                        i as int,
                    ).contains(m) {
                        pruned(before, gone).entities[m]
                    } else {
                        before.entities[m]
                    }),
            decreases keys@.len() - i,
        {
            let key = keys[i];
            let ghost prior = self@;
            let ghost short = keys@.subrange(0, i as int);
            let ghost long = keys@.subrange(0, i + 1);
            proof {
                assert(keys@.to_set().contains(key));
                assert forall|x: MioId| long.contains(x) <==> short.contains(x) || x == key by {
                    if long.contains(x) {
                        let k = choose|k: int| 0 <= k < long.len() && long[k] == x;
                        if k < i {
                            assert(short[k] == x);
                        }
                    }
                    if short.contains(x) {
                        let k = choose|k: int| 0 <= k < short.len() && short[k] == x;
                        assert(long[k] == x);
                    }
                    if x == key {
                        assert(long[i as int] == x);
                    }
                }
            }
            match self.entities.remove(&key) {
                Some(entity) => {
                    let mut entity = entity;
                    let ghost deps = entity.deps@;
                    entity.deps = without(&entity.deps, ops);
                    proof {
                        if short.contains(key) {
                            lemma_filter_twice(before.entities[key].deps, outside(gone));
                        }
                    }
                    self.entities.insert(key, entity);
                },
                None => {},
            }
            proof {
                assert(self@.entities.dom() =~= before.entities.dom());
            }
            i += 1;
        }
        proof {
            assert(keys@.subrange(0, i as int) =~= keys@);
            assert forall|m: MioId| before.entities.contains_key(m) implies keys@.contains(m) by {
                assert(keys@.to_set().contains(m));
            }
            assert(self@.entities =~= pruned(before, gone).entities);
        }
        let keys = self.specters.keys();
        let ghost middle = self@;
        let mut i: usize = 0;
        while i < keys.len()
            invariant
                i <= keys@.len(),
                gone == ops@.to_set(),
                keys@.to_set() == before.specters.dom(),
                self@.operations == before.operations,
                self@.entities == middle.entities,
                self@.specters.dom() == before.specters.dom(),
                forall|m: MioId|
                    before.specters.contains_key(m) ==> #[trigger] self@.specters[m] == (if keys@.subrange(
                        0,
                        i as int,
                    ).contains(m) {
                        pruned(before, gone).specters[m]
                    } else {
                        before.specters[m]
                    }),
            decreases keys@.len() - i,
        {
            let key = keys[i];
            let ghost short = keys@.subrange(0, i as int);
            let ghost long = keys@.subrange(0, i + 1);
            proof {
                assert(keys@.to_set().contains(key));
                assert forall|x: MioId| long.contains(x) <==> short.contains(x) || x == key by {
                    if long.contains(x) {
                        let k = choose|k: int| 0 <= k < long.len() && long[k] == x;
                        if k < i {
                            assert(short[k] == x);
                        }
                    }
                    if short.contains(x) {
                        let k = choose|k: int| 0 <= k < short.len() && short[k] == x;
                        assert(long[k] == x);
                    }
                    if x == key {
                        assert(long[i as int] == x);
                    }
                }
            }
            match self.specters.remove(&key) {
                Some(specter) => {
                    let mut specter = specter;
                    specter.deps = without(&specter.deps, ops);
                    proof {
                        if short.contains(key) {
                            lemma_filter_twice(before.specters[key].deps, outside(gone));
                        }
                    }
                    self.specters.insert(key, specter);
                },
                None => {},
            }
            proof {
                assert(self@.specters.dom() =~= before.specters.dom());
            }
            i += 1;
        }
        proof {
            assert(keys@.subrange(0, i as int) =~= keys@);
            assert forall|m: MioId| before.specters.contains_key(m) implies keys@.contains(m) by {
                assert(keys@.to_set().contains(m));
            }
            assert(self@.specters =~= pruned(before, gone).specters);
        }
    }

    /// Moves the listed specters and operations into another ring, in place
    /// of what that ring held under their identifiers.
    pub fn banish(&mut self, to: &mut MioRing, nodes: &Vec<MioId>, ops: &Vec<OpId>)
        ensures
            final(self)@ == old(self)@.without(roots_of(nodes@, ops@)),
            final(to)@ == old(to)@.with(old(self)@.restrict(roots_of(nodes@, ops@))),
    {
        self.entities.move_to(&mut to.entities, nodes);
        self.specters.move_to(&mut to.specters, nodes);
        self.operations.move_to(&mut to.operations, ops);
    }
}

/// Filtering a filtered list again by the same test changes nothing.
proof fn lemma_filter_twice<T>(list: Seq<T>, keep: spec_fn(T) -> bool)
    ensures
        list.filter(keep).filter(keep) == list.filter(keep),
    decreases list.len(),
{
    reveal(Seq::filter);
    if list.len() > 0 {
        lemma_filter_twice(list.drop_last(), keep);
        let rest = list.drop_last().filter(keep);
        if keep(list.last()) {
            let whole = rest.push(list.last());
            assert(whole.drop_last() =~= rest);
            assert(whole.last() == list.last());
        }
    }
}

/// Returns to the allocator the ordinals of the listed identifiers, those of
/// them that are out: what lies at or above the ceiling or on the hill
/// already is passed over.
pub fn reclaim(alloc: &mut Alloc, nodes: &Vec<MioId>, ops: &Vec<OpId>)
    ensures
        final(alloc)@ == reclaimed(old(alloc)@, ordinals(roots_of(nodes@, ops@))),
{
    let ghost before = alloc@;
    let mut i: usize = 0;
    proof {
        assert(alloc@.hill =~= before.hill.union(
            Set::new(
                |x: usize|
                    x < before.ord && exists|k: int| 0 <= k < 0 && (#[trigger] nodes@[k]).0.ord == x,
            ),
        ));
    }
    while i < nodes.len()
        invariant
            i <= nodes@.len(),
            alloc@.ord == before.ord,
            alloc@.hill == before.hill.union(
                Set::new(
                    |x: usize|
                        x < before.ord && exists|k: int|
                            0 <= k < i && (#[trigger] nodes@[k]).0.ord == x,
                ),
            ),
        decreases nodes@.len() - i,
    {
        let id = nodes[i].0;
        let ghost prior = alloc@.hill;
        if alloc.is_issued(id.ord) {
            alloc.deallocate(id);
        }
        proof {
            let next = before.hill.union(
                Set::new(
                    |x: usize|
                        x < before.ord && exists|k: int|
                            0 <= k < i + 1 && (#[trigger] nodes@[k]).0.ord == x,
                ),
            );
            assert forall|x: usize| alloc@.hill.contains(x) implies next.contains(x) by {
                if x == id.ord && !prior.contains(x) {
                    assert(nodes@[i as int].0.ord == x);
                } else if !before.hill.contains(x) {
                    let k = choose|k: int| 0 <= k < i && (#[trigger] nodes@[k]).0.ord == x;
                    assert(nodes@[k].0.ord == x);
                }
            }
            assert forall|x: usize| next.contains(x) implies alloc@.hill.contains(x) by {
                if !before.hill.contains(x) {
                    let k = choose|k: int| 0 <= k < i + 1 && (#[trigger] nodes@[k]).0.ord == x;
                    if k < i {
                        assert(prior.contains(x));
                    }
                }
            }
            assert(alloc@.hill =~= next);
        }
        i += 1;
    }
    let ghost middle = alloc@.hill;
    let mut j: usize = 0;
    proof {
        assert(alloc@.hill =~= middle.union(
            Set::new(
                |x: usize|
                    x < before.ord && exists|k: int| 0 <= k < 0 && (#[trigger] ops@[k]).0.ord == x,
            ),
        ));
    }
    while j < ops.len()
        invariant
            j <= ops@.len(),
            alloc@.ord == before.ord,
            alloc@.hill == middle.union(
                Set::new(
                    |x: usize|
                        x < before.ord && exists|k: int|
                            0 <= k < j && (#[trigger] ops@[k]).0.ord == x,
                ),
            ),
        decreases ops@.len() - j,
    {
        let id = ops[j].0;
        let ghost prior = alloc@.hill;
        if alloc.is_issued(id.ord) {
            alloc.deallocate(id);
        }
        proof {
            let next = middle.union(
                Set::new(
                    |x: usize|
                        x < before.ord && exists|k: int|
                            0 <= k < j + 1 && (#[trigger] ops@[k]).0.ord == x,
                ),
            );
            assert forall|x: usize| alloc@.hill.contains(x) implies next.contains(x) by {
                if x == id.ord && !prior.contains(x) {
                    assert(ops@[j as int].0.ord == x);
                } else if !middle.contains(x) {
                    let k = choose|k: int| 0 <= k < j && (#[trigger] ops@[k]).0.ord == x;
                    assert(ops@[k].0.ord == x);
                }
            }
            assert forall|x: usize| next.contains(x) implies alloc@.hill.contains(x) by {
                if !middle.contains(x) {
                    let k = choose|k: int| 0 <= k < j + 1 && (#[trigger] ops@[k]).0.ord == x;
                    if k < j {
                        assert(prior.contains(x));
                    }
                }
            }
            assert(alloc@.hill =~= next);
        }
        j += 1;
    }
    proof {
        let reach = roots_of(nodes@, ops@);
        let goal = reclaimed(before, ordinals(reach));
        assert forall|x: usize| alloc@.hill.contains(x) implies goal.hill.contains(x) by {
            if !before.hill.contains(x) {
                if middle.contains(x) {
                    let k = choose|k: int| 0 <= k < i && (#[trigger] nodes@[k]).0.ord == x;
                    assert(reach.nodes.contains(nodes@[k]));
                } else {
                    let k = choose|k: int| 0 <= k < j && (#[trigger] ops@[k]).0.ord == x;
                    assert(reach.ops.contains(ops@[k]));
                }
            }
        }
        assert forall|x: usize| goal.hill.contains(x) implies alloc@.hill.contains(x) by {
            if !before.hill.contains(x) {
                if exists|m: MioId| reach.nodes.contains(m) && m.0.ord == x {
                    let m = choose|m: MioId| reach.nodes.contains(m) && m.0.ord == x;
                    let k = choose|k: int| 0 <= k < nodes@.len() && nodes@[k] == m;
                    assert(nodes@[k].0.ord == x);
                    assert(middle.contains(x));
                } else {
                    let o = choose|o: OpId| reach.ops.contains(o) && o.0.ord == x;
                    let k = choose|k: int| 0 <= k < ops@.len() && ops@[k] == o;
                    assert(ops@[k].0.ord == x);
                }
            }
        }
        assert(alloc@.hill =~= goal.hill);
    }
}

/// What was archived by a command: the specters and the operations, each
/// listed once.
#[derive(Debug)]
pub struct MioArchived {
    pub mio_id: Vec<MioId>,
    pub op_id: Vec<OpId>,
}

impl View for MioArchived {
    type V = Reach;

    open spec fn view(&self) -> Reach {
        roots_of(self.mio_id@, self.op_id@)
    }
}

impl Default for MioArchived {
    fn default() -> (archived: MioArchived)
        ensures
            archived.mio_id@ == Seq::<MioId>::empty(),
            archived.op_id@ == Seq::<OpId>::empty(),
    {
        MioArchived { mio_id: Vec::new(), op_id: Vec::new() }
    }
}

/// The command that archives a specter or an operation, with everything that
/// was computed from it.
#[derive(Debug, Clone, Copy)]
pub enum MioArchive {
    Specter(MioId),
    Operation(OpId),
}

/// An aggregate after a reach of its live ring has been archived: the reach
/// moved from the live ring into the archived ring, its ordinals returned to
/// the allocator, the moments of its entities dropped from the log, and its
/// operations taken off the readers of the specters that stay.
pub open spec fn archived_state(pre: MioModel, reach: Reach) -> MioModel {
    MioModel {
        alloc: reclaimed(pre.alloc, ordinals(reach)),
        null: pre.null,
        chronology: pre.chronology.filter(apart(reach.nodes)),
        ring: pruned(pre.ring.without(reach), reach.ops),
        archived: pre.archived.with(pre.ring.restrict(reach)),
    }
}

/// An aggregate after a reach of its live ring has been deleted: as after
/// archiving it, but that the archived ring is as it was.
pub open spec fn deleted_state(pre: MioModel, reach: Reach) -> MioModel {
    MioModel {
        alloc: reclaimed(pre.alloc, ordinals(reach)),
        null: pre.null,
        chronology: pre.chronology.filter(apart(reach.nodes)),
        ring: pruned(pre.ring.without(reach), reach.ops),
        archived: pre.archived,
    }
}

impl MioArchive {
    /// What the command starts from.
    pub open spec fn roots(self) -> Reach {
        match self {
            MioArchive::Specter(id) => Reach { nodes: set![id], ops: Set::empty() },
            MioArchive::Operation(id) => Reach { nodes: Set::empty(), ops: set![id] },
        }
    }

    /// What the command archives in a ring: what it starts from, with a
    /// specter the operations that read it, and with an operation the specter
    /// that it results in, and so on.
    pub open spec fn fan_out(self, ring: RingView) -> Reach {
        ring.closure_of(self.roots(), false)
    }

    /// Whether the cascade from what the command names was carried out from
    /// `pre` to `post` with the given result, the reach going to the
    /// archived ring where `hold` is set, and nowhere otherwise.
    ///
    /// Carried out, the result lists what left, each specter and each
    /// operation once: everything that was computed from what the command
    /// names, directly or through other operations, and what it names. The
    /// ordinals of what left have returned to the allocator, the moments of
    /// the entities that left are dropped from the log, and the operations
    /// that left are taken off the readers of the specters that stay. Where
    /// the live ring hung together before, it does so after, and so no
    /// operation that stays reads a specter that left, and no lazy specter
    /// that stays results from an operation that left. An aggregate that was
    /// in order stays so, and its hill has gained the ordinals of all that
    /// left.
    ///
    /// Not carried out, the aggregate is as it was, and the result names
    /// something that would have had to leave and is not in the live ring.
    pub open spec fn carried_out(
        self,
        pre: MioModel,
        post: MioModel,
        res: Result<MioArchived, MioError>,
        hold: bool,
    ) -> bool {
        match res {
            Ok(archived) => {
                &&& archived.mio_id@.no_duplicates()
                &&& archived.op_id@.no_duplicates()
                &&& archived@ == self.fan_out(pre.ring)
                &&& pre.ring.holds(archived@)
                &&& self.roots().within(archived@)
                &&& post == if hold {
                    archived_state(pre, archived@)
                } else {
                    deleted_state(pre, archived@)
                }
                &&& pre.wf() ==> post.wf() && post.alloc.hill == pre.alloc.hill.union(
                    ordinals(archived@),
                )
                &&& pre.ring.consistent() ==> {
                    &&& post.ring.consistent()
                    &&& forall|o: OpId, i: int|
                        post.ring.operations.contains_key(o) && 0 <= i
                            < post.ring.operations[o].base.len() ==> !archived@.nodes.contains(
                            #[trigger] post.ring.operations[o].base[i],
                        )
                    &&& forall|m: MioId|
                        #![trigger post.ring.specters[m]]
                        post.ring.specters.contains_key(m) ==> !archived@.ops.contains(
                            post.ring.specters[m].body.operation,
                        )
                }
            },
            Err(MioError::NotFound(missing)) => {
                &&& post == pre
                &&& !pre.ring.has(missing)
                &&& self.fan_out(pre.ring).nodes.contains(missing)
            },
            Err(MioError::OperationNotFound(missing)) => {
                &&& post == pre
                &&& !pre.ring.operations.contains_key(missing)
                &&& self.fan_out(pre.ring).ops.contains(missing)
            },
            Err(_) => false,
        }
    }

    /// Carries the cascade out on an aggregate, into the archived ring where
    /// `hold` is set.
    fn cascade(self, mio: &mut Mio, hold: bool) -> (res: Result<MioArchived, MioError>)
        ensures
            final(mio).dirs == old(mio).dirs,
            self.carried_out(old(mio)@, final(mio)@, res, hold),
    {
        let ghost pre = mio@;
        let mut from_nodes: Vec<MioId> = Vec::new();
        let mut from_ops: Vec<OpId> = Vec::new();
        match self {
            MioArchive::Specter(id) => {
                from_nodes.push(id);
            },
            MioArchive::Operation(id) => {
                from_ops.push(id);
            },
        }
        proof {
            assert(roots_of(from_nodes@, from_ops@).nodes =~= self.roots().nodes) by {
                if self is Specter {
                    assert(from_nodes@[0] == self->Specter_0);
                }
            }
            assert(roots_of(from_nodes@, from_ops@).ops =~= self.roots().ops) by {
                if self is Operation {
                    assert(from_ops@[0] == self->Operation_0);
                }
            }
        }
        let (nodes, ops) = match mio.ring.closure(&from_nodes, &from_ops, false) {
            Ok(found) => found,
            Err(e) => {
                return Err(e);
            },
        };
        let ghost reach = roots_of(nodes@, ops@);
        if hold {
            mio.ring.banish(&mut mio.archived, &nodes, &ops);
        } else {
            let mut scrap = MioRing::new();
            mio.ring.banish(&mut scrap, &nodes, &ops);
        }
        reclaim(&mut mio.alloc, &nodes, &ops);
        mio.chronology = forget(&mio.chronology, &nodes);
        mio.ring.prune(&ops);
        proof {
            assert(hold ==> mio@ == archived_state(pre, reach));
            assert(!hold ==> mio@ == deleted_state(pre, reach));
            pre.ring.lemma_closure_of(self.roots(), false);
            if pre.ring.consistent() {
                lemma_cascade(pre.ring, reach);
            }
            if pre.wf() {
                pre.lemma_archive_keeps_order(reach);
                archived_state(pre, reach).lemma_order_of_live(deleted_state(pre, reach));
            }
        }
        let archived = MioArchived { mio_id: nodes, op_id: ops };
        assert(archived@ == reach);
        let res: Result<MioArchived, MioError> = Ok(archived);
        assert(res->Ok_0@ == reach);
        res
    }

    /// Carries the command out on an aggregate: everything that was computed
    /// from what the command names, directly or through other operations,
    /// leaves the live ring together with it, for the archived ring. Hands
    /// back what was archived.
    ///
    /// Fails, and leaves the aggregate as it was, where something that would
    /// have to leave is not in the live ring, and names it.
    pub fn interpret(self, mio: &mut Mio) -> (res: Result<MioArchived, MioError>)
        ensures
            final(mio).dirs == old(mio).dirs,
            self.carried_out(old(mio)@, final(mio)@, res, true),
    {
        self.cascade(mio, true)
    }
}

/// The command that deletes a specter or an operation, with everything that
/// was computed from it, without holding it in the archived ring.
#[derive(Debug, Clone, Copy)]
pub enum MioDelete {
    Specter(MioId),
    Operation(OpId),
}

impl MioDelete {
    /// The command that archives the same, and holds it.
    pub open spec fn archive(self) -> MioArchive {
        match self {
            MioDelete::Specter(id) => MioArchive::Specter(id),
            MioDelete::Operation(id) => MioArchive::Operation(id),
        }
    }

    /// Carries the command out on an aggregate: everything that was computed
    /// from what the command names, directly or through other operations,
    /// leaves the live ring together with it, for good. Hands back what was
    /// deleted.
    ///
    /// Fails, and leaves the aggregate as it was, where something that would
    /// have to leave is not in the live ring, and names it.
    pub fn interpret(self, mio: &mut Mio) -> (res: Result<MioArchived, MioError>)
        ensures
            final(mio).dirs == old(mio).dirs,
            self.archive().carried_out(old(mio)@, final(mio)@, res, false),
    {
        let command = match self {
            MioDelete::Specter(id) => MioArchive::Specter(id),
            MioDelete::Operation(id) => MioArchive::Operation(id),
        };
        command.cascade(mio, false)
    }
}

impl MioRing {
    /// Takes the listed specters and operations out of the ring, whatever
    /// refers to them.
    pub fn delete(&mut self, deleted: MioArchived)
        ensures
            final(self)@ == old(self)@.without(deleted@),
    {
        let mut scrap = MioRing::new();
        self.banish(&mut scrap, &deleted.mio_id, &deleted.op_id);
    }
}

/// The command that empties the archived ring.
#[derive(Debug, Clone, Copy)]
pub struct MioPurge;

impl MioPurge {
    /// Carries the command out on an aggregate: everything in the archived
    /// ring is removed from it for good, and handed back so that what it
    /// left on disk can be removed too. The live ring, the log and the
    /// allocator stay as they are: the ordinals of what was archived went
    /// back to the allocator when it was archived. On an empty archived ring
    /// nothing changes.
    pub fn interpret(self, mio: &mut Mio) -> (purged: MioRing)
        ensures
            final(mio).dirs == old(mio).dirs,
            purged@ == old(mio)@.archived,
            final(mio)@ == (MioModel {
                alloc: old(mio)@.alloc,
                null: old(mio)@.null,
                chronology: old(mio)@.chronology,
                ring: old(mio)@.ring,
                archived: RingView::empty(),
            }),
            old(mio)@.archived == RingView::empty() ==> final(mio)@ == old(mio)@,
            old(mio)@.wf() ==> final(mio)@.wf(),
    {
        let mut purged = MioRing::new();
        core::mem::swap(&mut mio.archived, &mut purged);
        proof {
            if old(mio)@.wf() {
                old(mio)@.lemma_order_of_live(mio@);
            }
        }
        purged
    }
}

/// The items of a filtered list are the items of the list that pass the
/// test.
pub proof fn lemma_filter_has<T>(list: Seq<T>, keep: spec_fn(T) -> bool, x: T)
    ensures
        list.filter(keep).contains(x) <==> list.contains(x) && keep(x),
    decreases list.len(),
{
    reveal(Seq::filter);
    if list.len() > 0 {
        let rest = list.drop_last();
        lemma_filter_has(rest, keep, x);
        let kept = rest.filter(keep);
        if list.contains(x) {
            let k = choose|k: int| 0 <= k < list.len() && list[k] == x;
            if k < rest.len() {
                assert(rest[k] == x);
            }
        }
        if rest.contains(x) {
            let k = choose|k: int| 0 <= k < rest.len() && rest[k] == x;
            assert(list[k] == x);
        }
        if keep(list.last()) {
            let whole = kept.push(list.last());
            if whole.contains(x) {
                let k = choose|k: int| 0 <= k < whole.len() && whole[k] == x;
                if k < kept.len() {
                    assert(kept[k] == x);
                }
            }
            if kept.contains(x) {
                let k = choose|k: int| 0 <= k < kept.len() && kept[k] == x;
                assert(whole[k] == x);
            }
            if x == list.last() {
                assert(whole[kept.len() as int] == x);
                assert(list[list.len() - 1] == x);
            }
        }
    }
}

/// The cascade keeps the graph together: where a ring hangs together and a
/// reach of it is closed along its edges forward, the ring without the reach,
/// with the operations of the reach taken off the readers of what stays,
/// hangs together too; no operation that stays reads a specter of the reach,
/// and no lazy specter that stays results from an operation of the reach.
pub proof fn lemma_cascade(ring: RingView, reach: Reach)
    requires
        ring.consistent(),
        ring.closed(reach, false),
    ensures
        pruned(ring.without(reach), reach.ops).consistent(),
        forall|o: OpId, i: int|
            pruned(ring.without(reach), reach.ops).operations.contains_key(o) && 0 <= i < pruned(
                ring.without(reach),
                reach.ops,
            ).operations[o].base.len() ==> !reach.nodes.contains(
                #[trigger] pruned(ring.without(reach), reach.ops).operations[o].base[i],
            ),
        forall|m: MioId|
            #![trigger pruned(ring.without(reach), reach.ops).specters[m]]
            pruned(ring.without(reach), reach.ops).specters.contains_key(m) ==> !reach.ops.contains(
                pruned(ring.without(reach), reach.ops).specters[m].body.operation,
            ),
{
    let rest = ring.without(reach);
    let after = pruned(rest, reach.ops);
    let keep = outside(reach.ops);
    assert forall|m: MioId| after.has(m) implies ring.has(m) && !reach.nodes.contains(m)
        && after.deps(m) == ring.deps(m).filter(keep) by {}
    assert forall|m: MioId| ring.has(m) && !reach.nodes.contains(m) implies after.has(m) by {}
    // an operation that stays reads only specters that stay
    assert forall|o: OpId, i: int|
        after.operations.contains_key(o) && 0 <= i < after.operations[o].base.len() implies after.has(
        #[trigger] after.operations[o].base[i],
    ) && after.deps(after.operations[o].base[i]).contains(o) && !reach.nodes.contains(
        after.operations[o].base[i],
    ) by {
        let b = ring.operations[o].base[i];
        assert(ring.has(b) && ring.deps(b).contains(o));
        if reach.nodes.contains(b) {
            let k = choose|k: int| 0 <= k < ring.deps(b).len() && ring.deps(b)[k] == o;
            assert(reach.ops.contains(ring.deps(b)[k]));
        }
        lemma_filter_has(ring.deps(b), keep, o);
    }
    // what a specter that stays lists as a reader stays, and reads it
    assert forall|m: MioId, i: int|
        after.has(m) && 0 <= i < after.deps(m).len() implies after.operations.contains_key(
        #[trigger] after.deps(m)[i],
    ) && after.operations[after.deps(m)[i]].base.contains(m) by {
        let d = after.deps(m)[i];
        assert(after.deps(m).contains(d));
        lemma_filter_has(ring.deps(m), keep, d);
        let k = choose|k: int| 0 <= k < ring.deps(m).len() && ring.deps(m)[k] == d;
        assert(ring.operations.contains_key(ring.deps(m)[k]));
    }
    assert forall|m: MioId| #[trigger] after.specters.contains_key(m) implies after.operations.contains_key(
        after.specters[m].body.operation,
    ) && after.operations[after.specters[m].body.operation].specter == m && !reach.ops.contains(
        after.specters[m].body.operation,
    ) by {
        let o = ring.specters[m].body.operation;
        assert(ring.operations.contains_key(o) && ring.operations[o].specter == m);
        if reach.ops.contains(o) {
            assert(reach.nodes.contains(ring.operations[o].specter));
        }
    }
}

} // verus!
