//! The allocator of ordinals: a ceiling below which every ordinal has been
//! issued at some time, and a hill of those that came back and can be issued
//! again.

use crate::ident::RingId;
use crate::pool::{is_lowest, AllocPool};
use vstd::prelude::*;

verus! {

/// What an allocator is to contracts: its ceiling and its hill.
pub struct AllocView {
    /// The next ordinal to issue when the hill is empty; above every ordinal
    /// issued so far.
    pub ord: usize,
    /// The ordinals that were returned and can be issued again.
    pub hill: Set<usize>,
}

impl AllocView {
    /// The hill is finite and lies below the ceiling.
    pub open spec fn wf(self) -> bool {
        &&& self.hill.finite()
        &&& forall|x: usize| self.hill.contains(x) ==> x < self.ord
    }

    /// The ordinals that are out: below the ceiling and not on the hill.
    pub open spec fn issued(self) -> Set<usize> {
        Set::new(|x: usize| x < self.ord && !self.hill.contains(x))
    }

    /// Whether one more ordinal can be issued.
    pub open spec fn can_issue(self) -> bool {
        !self.hill.is_empty() || self.ord < usize::MAX
    }

    /// How many more ordinals can be issued one after another.
    pub open spec fn room(self) -> int {
        self.hill.len() + (usize::MAX - self.ord)
    }

    /// The ordinal that is issued next: the lowest of the hill, or the
    /// ceiling where the hill is empty.
    pub open spec fn next(self) -> usize {
        if self.hill.is_empty() {
            self.ord
        } else {
            choose|x: usize| is_lowest(self.hill, x)
        }
    }

    /// The allocator after it has issued its next ordinal.
    pub open spec fn issue(self) -> AllocView {
        if self.hill.is_empty() {
            AllocView { ord: (self.ord + 1) as usize, hill: self.hill }
        } else {
            AllocView { ord: self.ord, hill: self.hill.remove(self.next()) }
        }
    }

    /// The allocator after an ordinal has come back.
    pub open spec fn release(self, x: usize) -> AllocView {
        AllocView { ord: self.ord, hill: self.hill.insert(x) }
    }

    /// Whether `after` is this allocator compacted: the ceiling lowered past
    /// the whole run of returned ordinals that lay directly below it, and
    /// that run taken off the hill.
    pub open spec fn compacts_to(self, after: AllocView) -> bool {
        &&& after.ord <= self.ord
        &&& forall|x: usize| after.ord <= x < self.ord ==> self.hill.contains(x)
        &&& after.ord == 0 || !self.hill.contains((after.ord - 1) as usize)
        &&& after.hill == self.hill.filter(|x: usize| x < after.ord)
    }

    /// The ordinals that can still be issued: those of the hill, and those
    /// from the ceiling up to the last one that a machine word holds.
    pub open spec fn available(self) -> Set<usize> {
        Set::new(|x: usize| self.hill.contains(x) || (self.ord <= x < usize::MAX))
    }

    /// Whether `pool` is what a pool of `size` takes from this allocator, and
    /// `after` the allocator that it leaves: the pool holds the lowest
    /// ordinals that can be issued, `size` of them or all where there are
    /// fewer; what it holds of the hill leaves the hill, and the ceiling
    /// rises above what it holds beyond.
    pub open spec fn pools_to(self, size: usize, pool: Set<usize>, after: AllocView) -> bool {
        &&& pool.finite()
        &&& pool.len() == if size <= self.room() {
            size as int
        } else {
            self.room()
        }
        &&& pool.subset_of(self.available())
        &&& forall|x: usize, y: usize|
            pool.contains(x) && self.available().contains(y) && !pool.contains(y) ==> x < y
        &&& after.hill == self.hill.difference(pool)
        &&& after.ord >= self.ord
        &&& forall|x: usize| self.ord <= x < usize::MAX ==> (pool.contains(x) <==> x < after.ord)
    }
}

/// The lowest ordinal of a set that has one is one ordinal.
pub proof fn lemma_lowest_unique(set: Set<usize>, x: usize, y: usize)
    requires
        is_lowest(set, x),
        is_lowest(set, y),
    ensures
        x == y,
{
}

/// A finite set of ordinals that is not empty has a lowest.
pub proof fn lemma_has_lowest(set: Set<usize>)
    requires
        set.finite(),
        !set.is_empty(),
    ensures
        exists|x: usize| is_lowest(set, x),
    decreases set.len(),
{
    let x = set.choose();
    let rest = set.remove(x);
    if rest.is_empty() {
        assert forall|y: usize| set.contains(y) implies x <= y by {
            if y != x {
                assert(rest.contains(y));
            }
        }
        assert(is_lowest(set, x));
    } else {
        lemma_has_lowest(rest);
        let low = choose|low: usize| is_lowest(rest, low);
        let least = if x <= low { x } else { low };
        assert(rest.contains(low));
        assert forall|y: usize| set.contains(y) implies least <= y by {
            if y != x {
                assert(rest.contains(y));
            }
        }
        assert(is_lowest(set, least));
    }
}

impl AllocView {
    /// An allocator with room can issue.
    pub proof fn lemma_room(self)
        requires
            self.wf(),
        ensures
            self.room() >= 0,
            self.can_issue() <==> self.room() >= 1,
    {
        if self.hill.is_empty() {
            assert(self.hill.len() == 0);
        } else {
            assert(self.hill.len() != 0) by {
                if self.hill.len() == 0 {
                    self.hill.lemma_len0_is_empty();
                }
            }
        }
    }

    /// Issuing keeps the allocator well formed, and hands out an ordinal that
    /// was not out.
    pub proof fn lemma_issue(self)
        requires
            self.wf(),
            self.can_issue(),
        ensures
            self.issue().wf(),
            !self.issued().contains(self.next()),
            self.issue().issued() == self.issued().insert(self.next()),
            self.hill.is_empty() ==> self.next() == self.ord && self.issue().ord == self.ord + 1,
            !self.hill.is_empty() ==> is_lowest(self.hill, self.next()) && self.issue().ord
                == self.ord,
            self.issue().room() == self.room() - 1,
    {
        if !self.hill.is_empty() {
            lemma_has_lowest(self.hill);
        }
        assert(self.issue().issued() =~= self.issued().insert(self.next()));
    }

    /// The allocator after each of a sequence of ordinals has come back, one
    /// after another.
    pub open spec fn release_each(self, ords: Seq<usize>) -> AllocView
        decreases ords.len(),
    {
        if ords.len() == 0 {
            self
        } else {
            self.release(ords[0]).release_each(ords.drop_first())
        }
    }

    /// Returning a sequence of ordinals puts them all on the hill and leaves
    /// the ceiling where it was.
    pub proof fn lemma_release_each(self, ords: Seq<usize>)
        ensures
            self.release_each(ords).ord == self.ord,
            self.release_each(ords).hill == self.hill.union(ords.to_set()),
        decreases ords.len(),
    {
        if ords.len() == 0 {
            assert(self.hill =~= self.hill.union(ords.to_set()));
        } else {
            let head = self.release(ords[0]);
            let tail = ords.drop_first();
            head.lemma_release_each(tail);
            assert forall|x: usize| head.hill.union(tail.to_set()).contains(x) implies self.hill.union(
                ords.to_set(),
            ).contains(x) by {
                if tail.to_set().contains(x) {
                    let i = choose|i: int| 0 <= i < tail.len() && tail[i] == x;
                    assert(ords[i + 1] == x);
                } else if x == ords[0] {
                    assert(ords.contains(x));
                }
            }
            assert forall|x: usize| self.hill.union(ords.to_set()).contains(x) implies head.hill.union(
                tail.to_set(),
            ).contains(x) by {
                if ords.to_set().contains(x) {
                    let i = choose|i: int| 0 <= i < ords.len() && ords[i] == x;
                    if i > 0 {
                        assert(tail[i - 1] == x);
                    }
                }
            }
            assert(head.hill.union(tail.to_set()) =~= self.hill.union(ords.to_set()));
        }
    }
}

/// Compaction: where the `count` ordinals directly below the ceiling are out,
/// and so is the one below them, returning those `count` ordinals, in any
/// order, and compacting lowers the ceiling by exactly `count`.
pub proof fn lemma_compaction_lowers_by_count(
    before: AllocView,
    count: usize,
    ords: Seq<usize>,
    after: AllocView,
)
    requires
        before.wf(),
        count <= before.ord,
        ords.to_set() == Set::new(|x: usize| before.ord - count <= x < before.ord),
        ords.to_set().subset_of(before.issued()),
        count == before.ord || before.issued().contains((before.ord - count - 1) as usize),
        before.release_each(ords).compacts_to(after),
    ensures
        after.ord == before.ord - count,
{
    before.lemma_release_each(ords);
    let released = before.release_each(ords);
    let floor = (before.ord - count) as usize;
    if after.ord < floor {
        let below = (floor - 1) as usize;
        assert(released.hill.contains(below));
        assert(!ords.to_set().contains(below));
    } else if after.ord > floor {
        let top = (after.ord - 1) as usize;
        assert(ords.to_set().contains(top));
    }
}

/// Returning an ordinal that is not the one directly below the ceiling, while
/// that one is out, leaves the ceiling where it was, also after compacting.
pub proof fn lemma_inner_release_keeps_ceiling(before: AllocView, ord: usize, after: AllocView)
    requires
        before.wf(),
        before.issued().contains(ord),
        ord + 1 < before.ord,
        before.issued().contains((before.ord - 1) as usize),
        before.release(ord).compacts_to(after),
    ensures
        before.release(ord).ord == before.ord,
        after.ord == before.ord,
        after.hill == before.hill.insert(ord),
{
    let released = before.release(ord);
    if after.ord < before.ord {
        let top = (before.ord - 1) as usize;
        assert(released.hill.contains(top));
    }
    assert(after.hill =~= before.hill.insert(ord));
}

/// One call on an allocator.
pub enum AllocStep {
    /// An ordinal is issued.
    Allocate,
    /// The given ordinal is returned.
    Deallocate(usize),
}

/// The allocator after a sequence of calls, with the ordinals that those
/// calls issued and did not return, in the order of their issue.
pub open spec fn replay(start: AllocView, steps: Seq<AllocStep>) -> (AllocView, Seq<usize>)
    decreases steps.len(),
{
    if steps.len() == 0 {
        (start, Seq::empty())
    } else {
        let (mid, live) = replay(start, steps.drop_last());
        match steps.last() {
            AllocStep::Allocate => (mid.issue(), live.push(mid.next())),
            AllocStep::Deallocate(x) => (mid.release(x), live.remove_value(x)),
        }
    }
}

/// Whether each call of a sequence is one that may be made when its turn
/// comes: an ordinal is issued only while one can be, and returned only
/// while it is live.
pub open spec fn permitted(start: AllocView, steps: Seq<AllocStep>) -> bool
    decreases steps.len(),
{
    steps.len() == 0 || {
        let (mid, live) = replay(start, steps.drop_last());
        &&& permitted(start, steps.drop_last())
        &&& match steps.last() {
            AllocStep::Allocate => mid.can_issue(),
            AllocStep::Deallocate(x) => live.contains(x),
        }
    }
}

/// Uniqueness: after any permitted sequence of calls, no two live identifiers
/// share an ordinal, and every live ordinal is out.
pub proof fn lemma_live_ordinals_unique(start: AllocView, steps: Seq<AllocStep>)
    requires
        start.wf(),
        permitted(start, steps),
    ensures
        replay(start, steps).0.wf(),
        replay(start, steps).1.no_duplicates(),
        replay(start, steps).1.to_set().subset_of(replay(start, steps).0.issued()),
    decreases steps.len(),
{
    if steps.len() > 0 {
        lemma_live_ordinals_unique(start, steps.drop_last());
        let (mid, live) = replay(start, steps.drop_last());
        let (end, left) = replay(start, steps);
        match steps.last() {
            AllocStep::Allocate => {
                mid.lemma_issue();
                let x = mid.next();
                assert(!live.contains(x)) by {
                    if live.contains(x) {
                        assert(live.to_set().contains(x));
                    }
                }
                assert forall|y: usize| left.to_set().contains(y) implies end.issued().contains(
                    y,
                ) by {
                    let i = choose|i: int| 0 <= i < left.len() && left[i] == y;
                    if i < live.len() {
                        assert(live.to_set().contains(live[i]));
                    }
                }
            },
            AllocStep::Deallocate(x) => {
                let at = live.index_of_first(x);
                live.index_of_first_ensures(x);
                let i = at.unwrap();
                assert(left == live.remove(i));
                live.remove_ensures(i);
                assert(live.to_set().contains(x));
                assert forall|a: int, b: int|
                    0 <= a < left.len() && 0 <= b < left.len() && a != b implies left[a]
                    != left[b] by {
                    let a0 = if a < i { a } else { a + 1 };
                    let b0 = if b < i { b } else { b + 1 };
                    assert(live[a0] != live[b0]);
                }
                assert forall|y: usize| left.to_set().contains(y) implies end.issued().contains(
                    y,
                ) by {
                    let a = choose|a: int| 0 <= a < left.len() && left[a] == y;
                    let a0 = if a < i { a } else { a + 1 };
                    assert(live[a0] == y);
                    assert(live.to_set().contains(y));
                    assert(live[a0] != live[i]);
                }
            },
        }
    }
}

/// Allocates ordinals, and takes them back.
#[derive(Debug)]
pub struct Alloc {
    /// The next ordinal to issue, above all that were issued.
    ord: usize,
    /// The ordinals that came back.
    hill: AllocPool,
}

impl View for Alloc {
    type V = AllocView;

    closed spec fn view(&self) -> AllocView {
        AllocView { ord: self.ord, hill: self.hill@ }
    }
}

impl Alloc {
    #[verifier::type_invariant]
    closed spec fn below_ceiling(&self) -> bool {
        forall|x: usize| self.hill@.contains(x) ==> x < self.ord
    }

    /// An allocator that has issued nothing.
    pub fn new() -> (alloc: Alloc)
        ensures
            alloc@.ord == 0,
            alloc@.hill == Set::<usize>::empty(),
            alloc@.wf(),
    {
        Alloc { ord: 0, hill: AllocPool::new() }
    }

    /// An allocator with the given ceiling and hill, where the hill lies
    /// below the ceiling; nothing otherwise.
    pub fn from_parts(ord: usize, hill: AllocPool) -> (alloc: Option<Alloc>)
        ensures
            match alloc {
                Some(a) => a@.ord == ord && a@.hill == hill@ && a@.wf(),
                None => exists|x: usize| hill@.contains(x) && x >= ord,
            },
    {
        proof {
            hill.lemma_finite();
        }
        let ords = hill.ordinals();
        let mut i: usize = 0;
        while i < ords.len()
            invariant
                i <= ords@.len(),
                ords@.to_set() == hill@,
                forall|j: int| 0 <= j < i ==> ords@[j] < ord,
            decreases ords@.len() - i,
        {
            if ords[i] >= ord {
                assert(ords@.to_set().contains(ords@[i as int]));
                return None;
            }
            i += 1;
        }
        assert forall|x: usize| hill@.contains(x) implies x < ord by {
            assert(ords@.to_set().contains(x));
            let j = choose|j: int| 0 <= j < ords@.len() && ords@[j] == x;
            assert(ords@[j] < ord);
        }
        Some(Alloc { ord, hill })
    }

    /// An allocator is well formed at all times. Nothing is done; callers
    /// learn the fact.
    pub fn attest(&self)
        ensures
            self@.wf(),
    {
        proof {
            use_type_invariant(self);
            self.hill.lemma_finite();
        }
    }

    /// The ceiling.
    pub fn ord(&self) -> (ord: usize)
        ensures
            ord == self@.ord,
            self@.wf(),
    {
        proof {
            use_type_invariant(self);
            self.hill.lemma_finite();
        }
        self.ord
    }

    /// The hill.
    pub fn hill(&self) -> (hill: &AllocPool)
        ensures
            hill@ == self@.hill,
            self@.wf(),
    {
        proof {
            use_type_invariant(self);
            self.hill.lemma_finite();
        }
        &self.hill
    }

    /// Whether an ordinal is out: issued and not returned since.
    pub fn is_issued(&self, ord: usize) -> (issued: bool)
        ensures
            issued == self@.issued().contains(ord),
    {
        ord < self.ord && !self.hill.contains(ord)
    }

    /// Whether one more ordinal can be issued.
    pub fn can_allocate(&self) -> (can: bool)
        ensures
            can == self@.can_issue(),
    {
        !self.hill.is_empty() || self.ord < usize::MAX
    }

    /// Whether `count` more ordinals can be issued one after another.
    pub fn has_room(&self, count: usize) -> (room: bool)
        ensures
            self@.wf(),
            room == (count <= self@.room()),
    {
        proof {
            use_type_invariant(self);
            self.hill.lemma_finite();
        }
        let on_hill = self.hill.len();
        if count <= on_hill {
            true
        } else {
            count - on_hill <= usize::MAX - self.ord
        }
    }

    /// Issues the next ordinal: the lowest of the hill, or the ceiling, which
    /// then rises by one.
    pub fn _allocate(&mut self) -> (ord: usize)
        requires
            old(self)@.can_issue(),
        ensures
            ord == old(self)@.next(),
            final(self)@ == old(self)@.issue(),
            final(self)@.wf(),
            !old(self)@.issued().contains(ord),
            final(self)@.issued() == old(self)@.issued().insert(ord),
    {
        proof {
            use_type_invariant(&*self);
            self.hill.lemma_finite();
        }
        let ghost before = self@;
        let mut hill = AllocPool::new();
        core::mem::swap(&mut self.hill, &mut hill);
        let ord = match hill._allocate() {
            Some(ord) => {
                proof {
                    assert(before.hill.contains(ord));
                    lemma_lowest_unique(before.hill, ord, before.next());
                }
                self.hill = hill;
                ord
            },
            None => {
                let ord = self.ord;
                self.hill = hill;
                self.ord = ord + 1;
                ord
            },
        };
        proof {
            self.hill.lemma_finite();
            assert(self@.hill =~= before.issue().hill);
            assert(self@.issued() =~= before.issued().insert(ord));
        }
        ord
    }

    /// Issues the next ordinal as an identifier stamped with the current
    /// time.
    pub fn allocate(&mut self) -> (id: RingId)
        requires
            old(self)@.can_issue(),
        ensures
            id.ord == old(self)@.next(),
            final(self)@ == old(self)@.issue(),
            final(self)@.wf(),
            !old(self)@.issued().contains(id.ord),
            final(self)@.issued() == old(self)@.issued().insert(id.ord),
    {
        RingId::now(self._allocate())
    }

    /// Issues up to `size` ordinals as a pool of their own: the lowest that
    /// can be issued, from the hill first and from the ceiling after. The
    /// pool is short of `size` only where the ordinals of a machine word run
    /// out.
    pub fn allocate_pool(&mut self, size: usize) -> (pool: AllocPool)
        ensures
            final(self)@.wf(),
            old(self)@.pools_to(size, pool@, final(self)@),
            pool@.disjoint(old(self)@.issued()),
            final(self)@.issued() == old(self)@.issued().union(pool@),
    {
        proof {
            use_type_invariant(&*self);
            self.hill.lemma_finite();
        }
        let ghost before = self@;
        let mut hill = AllocPool::new();
        core::mem::swap(&mut self.hill, &mut hill);
        let mut pool = hill.try_allocate_many(size);
        let ghost taken = pool@;
        let start = self.ord;
        let mut current = pool.len();
        let mut ord = self.ord;
        while current < size && ord < usize::MAX
            invariant
                start <= ord <= usize::MAX,
                pool@.finite(),
                taken.finite(),
                current <= size,
                current == pool@.len(),
                current == taken.len() + (ord - start),
                pool@ == taken.union(Set::new(|x: usize| start <= x < ord)),
                forall|x: usize| taken.contains(x) ==> x < start,
            decreases usize::MAX - ord,
        {
            let ghost prior = pool@;
            pool.insert(ord);
            proof {
                assert(!prior.contains(ord));
                assert(pool@ =~= taken.union(Set::new(|x: usize| start <= x < ord + 1)));
            }
            ord += 1;
            current += 1;
        }
        proof {
            assert(hill@ =~= before.hill.difference(pool@));
            assert forall|x: usize| hill@.contains(x) implies x < ord by {
                assert(before.hill.contains(x));
            }
            if taken.len() == before.hill.len() {
                vstd::set_lib::lemma_subset_equality(taken, before.hill);
            } else {
                assert(ord == start);
            }
            assert forall|x: usize, y: usize|
                pool@.contains(x) && before.available().contains(y) && !pool@.contains(
                    y,
                ) implies x < y by {
                if taken.contains(x) {
                    if before.hill.contains(y) {
                        assert(hill@.contains(y));
                    }
                } else {
                    assert(start <= x < ord);
                    assert(taken == before.hill);
                }
            }
        }
        self.hill = hill;
        self.ord = ord;
        proof {
            self.hill.lemma_finite();
            assert(self@.issued() =~= before.issued().union(pool@));
            assert(pool@.disjoint(before.issued()));
        }
        pool
    }

    /// Takes an issued ordinal back onto the hill. The ceiling stays.
    pub fn deallocate(&mut self, id: RingId)
        requires
            old(self)@.issued().contains(id.ord),
        ensures
            final(self)@ == old(self)@.release(id.ord),
            final(self)@.wf(),
            final(self)@.ord == old(self)@.ord,
            final(self)@.issued() == old(self)@.issued().remove(id.ord),
    {
        proof {
            use_type_invariant(&*self);
        }
        let ghost before = self@;
        let mut hill = AllocPool::new();
        core::mem::swap(&mut self.hill, &mut hill);
        hill.insert(id.ord);
        self.hill = hill;
        proof {
            self.hill.lemma_finite();
            assert(self@.issued() =~= before.issued().remove(id.ord));
        }
    }

    /// Lowers the ceiling past the run of returned ordinals that lies
    /// directly below it, and takes that run off the hill. What is out stays
    /// out.
    pub fn garbage_collection(&mut self)
        ensures
            old(self)@.compacts_to(final(self)@),
            final(self)@.wf(),
            final(self)@.issued() == old(self)@.issued(),
    {
        proof {
            use_type_invariant(&*self);
            self.hill.lemma_finite();
        }
        let ghost before = self@;
        let mut hill = AllocPool::new();
        core::mem::swap(&mut self.hill, &mut hill);
        let mut ord = self.ord;
        while ord > 0 && hill.contains(ord - 1)
            invariant
                ord <= before.ord,
                forall|x: usize| ord <= x < before.ord ==> before.hill.contains(x),
                hill@ == before.hill.filter(|x: usize| x < ord),
            decreases ord,
        {
            hill.remove(ord - 1);
            ord = ord - 1;
            assert(hill@ =~= before.hill.filter(|x: usize| x < ord));
        }
        proof {
            if ord > 0 {
                assert(!hill@.contains((ord - 1) as usize));
            }
            assert forall|x: usize| hill@.contains(x) implies x < ord by {}
        }
        self.hill = hill;
        self.ord = ord;
        proof {
            self.hill.lemma_finite();
            assert(self@.issued() =~= before.issued());
        }
    }
}

impl Clone for Alloc {
    fn clone(&self) -> (alloc: Alloc)
        ensures
            alloc@ == self@,
    {
        proof {
            use_type_invariant(self);
        }
        Alloc { ord: self.ord, hill: self.hill.clone() }
    }
}

impl Default for Alloc {
    fn default() -> (alloc: Alloc)
        ensures
            alloc@.ord == 0,
            alloc@.hill == Set::<usize>::empty(),
    {
        Alloc::new()
    }
}

} // verus!
