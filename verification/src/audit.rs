//! Auditing a ring: finding out whether a graph that came from elsewhere
//! hangs together.

use crate::discipline::Use;
use crate::ident::{MioId, OpId};
use crate::lists::{holds, lemma_prefix_contains, lemma_push_contains};
use crate::mio::Mio;
use crate::ring::{MioRing, RingView};
use vstd::prelude::*;

verus! {

impl RingView {
    /// Whether the listed operations are all in the ring and read the given
    /// specter.
    pub open spec fn read_by(self, id: MioId, deps: Seq<OpId>) -> bool {
        forall|i: int|
            0 <= i < deps.len() ==> self.operations.contains_key(#[trigger] deps[i])
                && self.operations[deps[i]].base.contains(id)
    }

    /// Whether the listed specters are all in the ring and list the given
    /// operation as a reader.
    pub open spec fn reads(self, id: OpId, base: Seq<MioId>) -> bool {
        forall|i: int|
            0 <= i < base.len() ==> self.has(#[trigger] base[i]) && self.deps(base[i]).contains(id)
    }

    /// Whether the entity under an identifier stands under its own
    /// identifier, is not a lazy specter too, and is read by the operations
    /// that it lists.
    pub open spec fn entity_sound(self, m: MioId) -> bool {
        &&& self.entities[m].id == m
        &&& !self.specters.contains_key(m)
        &&& self.read_by(m, self.entities[m].deps)
    }

    /// Whether the lazy specter under an identifier stands under its own
    /// identifier, results from an operation of the ring that results in it,
    /// and is read by the operations that it lists.
    pub open spec fn specter_sound(self, m: MioId) -> bool {
        &&& self.specters[m].id == m
        &&& self.operations.contains_key(self.specters[m].body.operation)
        &&& self.operations[self.specters[m].body.operation].specter == m
        &&& self.read_by(m, self.specters[m].deps)
    }

    /// Whether the operation under an identifier stands under its own
    /// identifier, and is listed as a reader by the specters that it reads,
    /// which are in the ring.
    pub open spec fn operation_sound(self, o: OpId) -> bool {
        &&& self.operations[o].id == o
        &&& self.reads(o, self.operations[o].base)
    }

    /// Whether every record of the ring is sound.
    pub open spec fn sound(self) -> bool {
        &&& forall|m: MioId| self.entities.contains_key(m) ==> #[trigger] self.entity_sound(m)
        &&& forall|m: MioId| self.specters.contains_key(m) ==> #[trigger] self.specter_sound(m)
        &&& forall|o: OpId| self.operations.contains_key(o) ==> #[trigger] self.operation_sound(o)
    }

    /// A graph hangs together exactly where every record of it is sound.
    pub proof fn lemma_sound_is_consistent(self)
        ensures
            self.sound() <==> self.consistent(),
    {
        if self.sound() {
            assert forall|m: MioId| #[trigger] self.entities.contains_key(m) implies self.entities[m].id
                == m && !self.specters.contains_key(m) by {
                assert(self.entity_sound(m));
            }
            assert forall|m: MioId| #[trigger] self.specters.contains_key(m) implies self.specters[m].id
                == m && self.operations.contains_key(self.specters[m].body.operation)
                && self.operations[self.specters[m].body.operation].specter == m by {
                assert(self.specter_sound(m));
            }
            assert forall|o: OpId| #[trigger] self.operations.contains_key(o) implies self.operations[o].id
                == o by {
                assert(self.operation_sound(o));
            }
            assert forall|m: MioId, i: int|
                self.has(m) && 0 <= i < self.deps(m).len() implies self.operations.contains_key(
                #[trigger] self.deps(m)[i],
            ) && self.operations[self.deps(m)[i]].base.contains(m) by {
                if self.entities.contains_key(m) {
                    assert(self.entity_sound(m));
                    assert(self.deps(m)[i] == self.entities[m].deps[i]);
                } else {
                    assert(self.specter_sound(m));
                    assert(self.deps(m)[i] == self.specters[m].deps[i]);
                }
            }
            assert forall|o: OpId, i: int|
                self.operations.contains_key(o) && 0 <= i
                    < self.operations[o].base.len() implies self.has(
                #[trigger] self.operations[o].base[i],
            ) && self.deps(self.operations[o].base[i]).contains(o) by {
                assert(self.operation_sound(o));
            }
        }
        if self.consistent() {
            assert forall|m: MioId| self.entities.contains_key(m) implies #[trigger] self.entity_sound(
                m,
            ) by {
                assert(self.has(m));
                assert forall|i: int| 0 <= i < self.entities[m].deps.len() implies
                    self.operations.contains_key(#[trigger] self.entities[m].deps[i])
                    && self.operations[self.entities[m].deps[i]].base.contains(m) by {
                    assert(self.deps(m)[i] == self.entities[m].deps[i]);
                }
            }
            assert forall|m: MioId| self.specters.contains_key(m) implies #[trigger] self.specter_sound(
                m,
            ) by {
                assert(self.has(m));
                if self.entities.contains_key(m) {
                    assert(!self.specters.contains_key(m));
                }
                assert forall|i: int| 0 <= i < self.specters[m].deps.len() implies
                    self.operations.contains_key(#[trigger] self.specters[m].deps[i])
                    && self.operations[self.specters[m].deps[i]].base.contains(m) by {
                    assert(self.deps(m)[i] == self.specters[m].deps[i]);
                }
            }
            assert forall|o: OpId| self.operations.contains_key(o) implies #[trigger] self.operation_sound(
                o,
            ) by {
                assert forall|i: int| 0 <= i < self.operations[o].base.len() implies self.has(
                    #[trigger] self.operations[o].base[i],
                ) && self.deps(self.operations[o].base[i]).contains(o) by {}
            }
        }
    }
}

impl MioRing {
    /// Whether the listed operations are all in the ring and read the given
    /// specter.
    pub fn read_by(&self, id: MioId, deps: &Vec<OpId>) -> (sound: bool)
        ensures
            sound == self@.read_by(id, deps@),
    {
        let mut i: usize = 0;
        while i < deps.len()
            invariant
                i <= deps@.len(),
                forall|j: int|
                    0 <= j < i ==> self@.operations.contains_key(#[trigger] deps@[j])
                        && self@.operations[deps@[j]].base.contains(id),
            decreases deps@.len() - i,
        {
            match self.operations.get(&deps[i]) {
                Some(operation) => {
                    if !holds(&operation.base, &id) {
                        assert(!self@.operations[deps@[i as int]].base.contains(id));
                        return false;
                    }
                },
                None => {
                    assert(!self@.operations.contains_key(deps@[i as int]));
                    return false;
                },
            }
            i += 1;
        }
        true
    }

    /// Whether the listed specters are all in the ring and list the given
    /// operation as a reader.
    pub fn reads(&self, id: OpId, base: &Vec<MioId>) -> (sound: bool)
        ensures
            sound == self@.reads(id, base@),
    {
        let mut i: usize = 0;
        while i < base.len()
            invariant
                i <= base@.len(),
                forall|j: int|
                    0 <= j < i ==> self@.has(#[trigger] base@[j]) && self@.deps(
                        base@[j],
                    ).contains(id),
            decreases base@.len() - i,
        {
            match self.deps(&base[i]) {
                Some(deps) => {
                    if !holds(deps, &id) {
                        assert(!self@.deps(base@[i as int]).contains(id));
                        return false;
                    }
                },
                None => {
                    assert(!self@.has(base@[i as int]));
                    return false;
                },
            }
            i += 1;
        }
        true
    }

    fn entities_sound(&self) -> (sound: bool)
        ensures
            sound == forall|m: MioId|
                self@.entities.contains_key(m) ==> #[trigger] self@.entity_sound(m),
    {
        let keys = self.entities.keys();
        let mut i: usize = 0;
        while i < keys.len()
            invariant
                i <= keys@.len(),
                keys@.to_set() == self@.entities.dom(),
                forall|j: int| 0 <= j < i ==> self@.entity_sound(#[trigger] keys@[j]),
            decreases keys@.len() - i,
        {
            let key = keys[i];
            assert(keys@.to_set().contains(key));
            match self.entities.get(&key) {
                Some(entity) => {
                    let own = entity.id.0.epoch == key.0.epoch && entity.id.0.ord == key.0.ord;
                    let twice = self.specters.contains_key(&key);
                    let read = self.read_by(key, &entity.deps);
                    if !own || twice || !read {
                        assert(self@.entities.contains_key(key) && !self@.entity_sound(key));
                        return false;
                    }
                },
                None => {},
            }
            i += 1;
        }
        assert forall|m: MioId| self@.entities.contains_key(m) implies #[trigger] self@.entity_sound(
            m,
        ) by {
            assert(keys@.to_set().contains(m));
            let j = choose|j: int| 0 <= j < keys@.len() && keys@[j] == m;
            assert(self@.entity_sound(keys@[j]));
        }
        true
    }

    fn specters_sound(&self) -> (sound: bool)
        ensures
            sound == forall|m: MioId|
                self@.specters.contains_key(m) ==> #[trigger] self@.specter_sound(m),
    {
        let keys = self.specters.keys();
        let mut i: usize = 0;
        while i < keys.len()
            invariant
                i <= keys@.len(),
                keys@.to_set() == self@.specters.dom(),
                forall|j: int| 0 <= j < i ==> self@.specter_sound(#[trigger] keys@[j]),
            decreases keys@.len() - i,
        {
            let key = keys[i];
            assert(keys@.to_set().contains(key));
            match self.specters.get(&key) {
                Some(specter) => {
                    let own = specter.id.0.epoch == key.0.epoch && specter.id.0.ord == key.0.ord;
                    let made = match self.operations.get(&specter.body.operation) {
                        Some(operation) => operation.specter.0.epoch == key.0.epoch
                            && operation.specter.0.ord == key.0.ord,
                        None => false,
                    };
                    let read = self.read_by(key, &specter.deps);
                    if !own || !made || !read {
                        assert(self@.specters.contains_key(key) && !self@.specter_sound(key));
                        return false;
                    }
                },
                None => {},
            }
            i += 1;
        }
        assert forall|m: MioId| self@.specters.contains_key(m) implies #[trigger] self@.specter_sound(
            m,
        ) by {
            assert(keys@.to_set().contains(m));
            let j = choose|j: int| 0 <= j < keys@.len() && keys@[j] == m;
            assert(self@.specter_sound(keys@[j]));
        }
        true
    }

    fn operations_sound(&self) -> (sound: bool)
        ensures
            sound == forall|o: OpId|
                self@.operations.contains_key(o) ==> #[trigger] self@.operation_sound(o),
    {
        let keys = self.operations.keys();
        let mut i: usize = 0;
        while i < keys.len()
            invariant
                i <= keys@.len(),
                keys@.to_set() == self@.operations.dom(),
                forall|j: int| 0 <= j < i ==> self@.operation_sound(#[trigger] keys@[j]),
            decreases keys@.len() - i,
        {
            let key = keys[i];
            assert(keys@.to_set().contains(key));
            match self.operations.get(&key) {
                Some(operation) => {
                    let own = operation.id.0.epoch == key.0.epoch && operation.id.0.ord
                        == key.0.ord;
                    let read = self.reads(key, &operation.base);
                    if !own || !read {
                        assert(self@.operations.contains_key(key) && !self@.operation_sound(key));
                        return false;
                    }
                },
                None => {},
            }
            i += 1;
        }
        assert forall|o: OpId| self@.operations.contains_key(o) implies #[trigger] self@.operation_sound(
            o,
        ) by {
            assert(keys@.to_set().contains(o));
            let j = choose|j: int| 0 <= j < keys@.len() && keys@[j] == o;
            assert(self@.operation_sound(keys@[j]));
        }
        true
    }

    /// Whether the graph hangs together.
    pub fn is_consistent(&self) -> (consistent: bool)
        ensures
            consistent == self@.consistent(),
    {
        proof {
            self@.lemma_sound_is_consistent();
        }
        let entities = self.entities_sound();
        let specters = self.specters_sound();
        let operations = self.operations_sound();
        entities && specters && operations
    }
}

impl Mio {
    /// The ordinal that is used.
    fn ord_of(&self, how: Use) -> (ord: usize)
        ensures
            ord == self@.ord_of(how),
    {
        match how {
            Use::Null => self.null.0.ord,
            Use::Node(m) => m.0.ord,
            Use::Op(o) => o.0.ord,
            Use::Pooled(_, x) => x,
        }
    }

    /// The uses of ordinals in the aggregate, each listed at least once.
    fn uses(&self) -> (uses: Vec<Use>)
        ensures
            forall|how: Use| self@.in_use(how) <==> uses@.contains(how),
    {
        let ghost model = self@;
        let entities = self.ring.entities.keys();
        let specters = self.ring.specters.keys();
        let operations = self.ring.operations.keys();
        let mut uses: Vec<Use> = Vec::new();
        uses.push(Use::Null);
        proof {
            assert forall|how: Use| uses@.contains(how) <==> how == Use::Null by {
                lemma_push_contains(Seq::<Use>::empty(), Use::Null, how);
            }
        }
        let mut i: usize = 0;
        while i < entities.len()
            invariant
                i <= entities@.len(),
                forall|how: Use|
                    uses@.contains(how) <==> how == Use::Null || (how is Node
                        && entities@.subrange(0, i as int).contains(how->Node_0)),
            decreases entities@.len() - i,
        {
            let ghost before = uses@;
            uses.push(Use::Node(entities[i]));
            proof {
                assert forall|how: Use|
                    uses@.contains(how) <==> how == Use::Null || (how is Node
                        && entities@.subrange(0, i + 1).contains(how->Node_0)) by {
                    lemma_push_contains(before, Use::Node(entities@[i as int]), how);
                    if how is Node {
                        lemma_prefix_contains(entities@, i as int, how->Node_0);
                    }
                }
            }
            i += 1;
        }
        assert(entities@.subrange(0, i as int) =~= entities@);
        let mut i: usize = 0;
        assert(specters@.subrange(0, 0) =~= Seq::<MioId>::empty());
        while i < specters.len()
            invariant
                i <= specters@.len(),
                forall|how: Use|
                    uses@.contains(how) <==> how == Use::Null || (how is Node && (
                    entities@.contains(how->Node_0) || specters@.subrange(0, i as int).contains(
                        how->Node_0,
                    ))),
            decreases specters@.len() - i,
        {
            let ghost before = uses@;
            uses.push(Use::Node(specters[i]));
            proof {
                assert forall|how: Use|
                    uses@.contains(how) <==> how == Use::Null || (how is Node && (
                    entities@.contains(how->Node_0) || specters@.subrange(0, i + 1).contains(
                        how->Node_0,
                    ))) by {
                    lemma_push_contains(before, Use::Node(specters@[i as int]), how);
                    if how is Node {
                        lemma_prefix_contains(specters@, i as int, how->Node_0);
                    }
                }
            }
            i += 1;
        }
        assert(specters@.subrange(0, i as int) =~= specters@);
        let mut i: usize = 0;
        assert(operations@.subrange(0, 0) =~= Seq::<OpId>::empty());
        while i < operations.len()
            invariant
                i <= operations@.len(),
                forall|how: Use|
                    uses@.contains(how) <==> how == Use::Null || (how is Node && (
                    entities@.contains(how->Node_0) || specters@.contains(how->Node_0))) || (
                    how is Op && operations@.subrange(0, i as int).contains(how->Op_0)),
            decreases operations@.len() - i,
        {
            let ghost before = uses@;
            uses.push(Use::Op(operations[i]));
            proof {
                assert forall|how: Use|
                    uses@.contains(how) <==> how == Use::Null || (how is Node && (
                    entities@.contains(how->Node_0) || specters@.contains(how->Node_0))) || (
                    how is Op && operations@.subrange(0, i + 1).contains(how->Op_0)) by {
                    lemma_push_contains(before, Use::Op(operations@[i as int]), how);
                    if how is Op {
                        lemma_prefix_contains(operations@, i as int, how->Op_0);
                    }
                }
            }
            i += 1;
        }
        assert(operations@.subrange(0, i as int) =~= operations@);
        let mut i: usize = 0;
        assert(entities@.subrange(0, 0) =~= Seq::<MioId>::empty());
        while i < entities.len()
            invariant
                i <= entities@.len(),
                model == self@,
                entities@.to_set() == model.ring.entities.dom(),
                forall|how: Use|
                    uses@.contains(how) <==> how == Use::Null || (how is Node && (
                    entities@.contains(how->Node_0) || specters@.contains(how->Node_0))) || (
                    how is Op && operations@.contains(how->Op_0)) || (how is Pooled
                        && entities@.subrange(0, i as int).contains(how->Pooled_0)
                        && model.ring.entities[how->Pooled_0].body.pool.contains(how->Pooled_1)),
            decreases entities@.len() - i,
        {
            let key = entities[i];
            assert(entities@.to_set().contains(key));
            let ords = match self.ring.entities.get(&key) {
                Some(entity) => entity.body.pool.ordinals(),
                None => Vec::new(),
            };
            let ghost pool = model.ring.entities[key].body.pool;
            assert(ords@.to_set() == pool);
            let mut p: usize = 0;
            assert(ords@.subrange(0, 0) =~= Seq::<usize>::empty());
            while p < ords.len()
                invariant
                    p <= ords@.len(),
                    i < entities@.len(),
                    key == entities@[i as int],
                    forall|how: Use|
                        uses@.contains(how) <==> how == Use::Null || (how is Node && (
                        entities@.contains(how->Node_0) || specters@.contains(how->Node_0))) || (
                        how is Op && operations@.contains(how->Op_0)) || (how is Pooled && ((
                        entities@.subrange(0, i as int).contains(how->Pooled_0)
                            && model.ring.entities[how->Pooled_0].body.pool.contains(
                            how->Pooled_1,
                        )) || (how->Pooled_0 == key && ords@.subrange(0, p as int).contains(
                            how->Pooled_1,
                        )))),
                decreases ords@.len() - p,
            {
                let ghost before = uses@;
                uses.push(Use::Pooled(key, ords[p]));
                proof {
                    assert forall|how: Use|
                        uses@.contains(how) <==> how == Use::Null || (how is Node && (
                        entities@.contains(how->Node_0) || specters@.contains(how->Node_0))) || (
                        how is Op && operations@.contains(how->Op_0)) || (how is Pooled && ((
                        entities@.subrange(0, i as int).contains(how->Pooled_0)
                            && model.ring.entities[how->Pooled_0].body.pool.contains(
                            how->Pooled_1,
                        )) || (how->Pooled_0 == key && ords@.subrange(0, p + 1).contains(
                            how->Pooled_1,
                        )))) by {
                        lemma_push_contains(before, Use::Pooled(key, ords@[p as int]), how);
                        if how is Pooled {
                            lemma_prefix_contains(ords@, p as int, how->Pooled_1);
                        }
                    }
                }
                p += 1;
            }
            proof {
                assert(ords@.subrange(0, p as int) =~= ords@);
                assert forall|how: Use|
                    uses@.contains(how) <==> how == Use::Null || (how is Node && (
                    entities@.contains(how->Node_0) || specters@.contains(how->Node_0))) || (
                    how is Op && operations@.contains(how->Op_0)) || (how is Pooled
                        && entities@.subrange(0, i + 1).contains(how->Pooled_0)
                        && model.ring.entities[how->Pooled_0].body.pool.contains(
                        how->Pooled_1,
                    )) by {
                    if how is Pooled {
                        lemma_prefix_contains(entities@, i as int, how->Pooled_0);
                        if how->Pooled_0 == key {
                            assert(ords@.to_set().contains(how->Pooled_1) <==> ords@.contains(
                                how->Pooled_1,
                            ));
                        }
                    }
                }
            }
            i += 1;
        }
        proof {
            assert(entities@.subrange(0, i as int) =~= entities@);
            assert forall|how: Use| self@.in_use(how) <==> uses@.contains(how) by {
                match how {
                    Use::Null => {},
                    Use::Node(m) => {
                        assert(entities@.to_set().contains(m) <==> entities@.contains(m));
                        assert(specters@.to_set().contains(m) <==> specters@.contains(m));
                    },
                    Use::Op(o) => {
                        assert(operations@.to_set().contains(o) <==> operations@.contains(o));
                    },
                    Use::Pooled(e, x) => {
                        assert(entities@.to_set().contains(e) <==> entities@.contains(e));
                    },
                }
            }
        }
        uses
    }

    /// Whether the ordinals of the aggregate are in order.
    pub fn is_disciplined(&self) -> (disciplined: bool)
        ensures
            disciplined == self@.disciplined(),
    {
        let uses = self.uses();
        let mut i: usize = 0;
        while i < uses.len()
            invariant
                i <= uses@.len(),
                forall|how: Use| self@.in_use(how) <==> uses@.contains(how),
                forall|a: int|
                    0 <= a < i ==> self@.alloc.issued().contains(self@.ord_of(#[trigger] uses@[a])),
                forall|a: int, b: int|
                    0 <= a < i && 0 <= b < uses@.len() && self@.ord_of(#[trigger] uses@[a])
                        == self@.ord_of(#[trigger] uses@[b]) ==> uses@[a] == uses@[b],
            decreases uses@.len() - i,
        {
            let one = uses[i];
            assert(uses@.contains(one));
            if !self.alloc.is_issued(self.ord_of(one)) {
                assert(self@.in_use(one));
                return false;
            }
            let mut j: usize = 0;
            while j < uses.len()
                invariant
                    j <= uses@.len(),
                    i < uses@.len(),
                    one == uses@[i as int],
                    forall|how: Use| self@.in_use(how) <==> uses@.contains(how),
                    forall|b: int|
                        0 <= b < j && self@.ord_of(one) == self@.ord_of(#[trigger] uses@[b])
                            ==> one == uses@[b],
                decreases uses@.len() - j,
            {
                let other = uses[j];
                if self.ord_of(one) == self.ord_of(other) && one != other {
                    assert(uses@.contains(other));
                    assert(self@.in_use(one) && self@.in_use(other));
                    return false;
                }
                j += 1;
            }
            i += 1;
        }
        proof {
            assert forall|how: Use| #[trigger] self@.in_use(how) implies self@.alloc.issued().contains(
                self@.ord_of(how),
            ) by {
                let a = choose|a: int| 0 <= a < uses@.len() && uses@[a] == how;
                assert(self@.alloc.issued().contains(self@.ord_of(uses@[a])));
            }
            assert forall|one: Use, other: Use|
                #![trigger self@.in_use(one), self@.in_use(other)]
                self@.in_use(one) && self@.in_use(other) && self@.ord_of(one) == self@.ord_of(
                    other,
                ) implies one == other by {
                let a = choose|a: int| 0 <= a < uses@.len() && uses@[a] == one;
                let b = choose|b: int| 0 <= b < uses@.len() && uses@[b] == other;
                assert(self@.ord_of(uses@[a]) == self@.ord_of(uses@[b]));
            }
        }
        true
    }

    /// Whether every moment of the log is that of a live specter.
    pub fn is_chronicled(&self) -> (chronicled: bool)
        ensures
            chronicled == self@.chronicled(),
    {
        let mut i: usize = 0;
        while i < self.chronology.len()
            invariant
                i <= self.chronology@.len(),
                forall|j: int|
                    0 <= j < i ==> self@.ring.has((#[trigger] self@.chronology[j]).base),
            decreases self.chronology@.len() - i,
        {
            if !self.ring.has(&self.chronology[i].base) {
                assert(!self@.ring.has(self@.chronology[i as int].base));
                return false;
            }
            i += 1;
        }
        true
    }

    /// Whether the aggregate is in order. One that was made fresh and
    /// changed by commands alone is; one that came from elsewhere need not
    /// be.
    pub fn is_in_order(&self) -> (in_order: bool)
        ensures
            in_order == self@.wf(),
    {
        self.alloc.attest();
        self.ring.is_consistent() && self.is_disciplined() && self.is_chronicled()
    }
}

} // verus!
