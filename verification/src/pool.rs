//! A pool of ordinals that hands out its lowest first.

use crate::ident::RingId;
use vstd::prelude::*;

verus! {

/// Whether `x` is the lowest ordinal of a set.
pub open spec fn is_lowest(set: Set<usize>, x: usize) -> bool {
    set.contains(x) && forall|y: usize| set.contains(y) ==> x <= y
}

/// A set of ordinals that are free to be handed out. Contracts speak of it
/// through its view, the set itself.
#[derive(Debug)]
pub struct AllocPool {
    /// The ordinals, lowest first, each once.
    inner: Vec<usize>,
}

/// Whether a sequence of ordinals rises strictly.
pub closed spec fn rising(ords: Seq<usize>) -> bool {
    forall|i: int, j: int| 0 <= i < j < ords.len() ==> ords[i] < ords[j]
}

proof fn lemma_rising_distinct(ords: Seq<usize>)
    requires
        rising(ords),
    ensures
        ords.no_duplicates(),
        ords.to_set().finite(),
        ords.to_set().len() == ords.len(),
{
    assert forall|i: int, j: int| 0 <= i < ords.len() && 0 <= j < ords.len() && i != j implies ords[i]
        != ords[j] by {
        if i < j {
            assert(ords[i] < ords[j]);
        } else {
            assert(ords[j] < ords[i]);
        }
    }
    ords.unique_seq_to_set();
}

impl View for AllocPool {
    type V = Set<usize>;

    closed spec fn view(&self) -> Set<usize> {
        self.inner@.to_set()
    }
}

impl AllocPool {
    #[verifier::type_invariant]
    closed spec fn ordered(&self) -> bool {
        rising(self.inner@)
    }

    /// A pool is a finite set.
    pub proof fn lemma_finite(&self)
        ensures
            self@.finite(),
    {
        vstd::seq_lib::seq_to_set_is_finite(self.inner@);
    }

    /// An empty pool.
    pub fn new() -> (pool: AllocPool)
        ensures
            pool@ == Set::<usize>::empty(),
    {
        let pool = AllocPool { inner: Vec::new() };
        assert(pool@ =~= Set::<usize>::empty());
        pool
    }

    /// The number of ordinals in the pool.
    pub fn len(&self) -> (len: usize)
        ensures
            self@.finite(),
            len == self@.len(),
    {
        proof {
            use_type_invariant(self);
            lemma_rising_distinct(self.inner@);
        }
        self.inner.len()
    }

    /// Whether the pool holds no ordinal.
    pub fn is_empty(&self) -> (empty: bool)
        ensures
            empty == self@.is_empty(),
    {
        proof {
            use_type_invariant(self);
            lemma_rising_distinct(self.inner@);
            if self.inner@.len() > 0 {
                assert(self@.contains(self.inner@[0]));
            }
        }
        self.inner.len() == 0
    }

    /// The place of an ordinal among the pool's: the number of ordinals below
    /// it.
    fn place(&self, ord: usize) -> (at: usize)
        ensures
            at <= self.inner@.len(),
            forall|i: int| 0 <= i < at ==> self.inner@[i] < ord,
            forall|i: int| at <= i < self.inner@.len() ==> ord <= self.inner@[i],
    {
        proof {
            use_type_invariant(self);
        }
        let mut at: usize = 0;
        while at < self.inner.len() && self.inner[at] < ord
            invariant
                at <= self.inner@.len(),
                rising(self.inner@),
                forall|i: int| 0 <= i < at ==> self.inner@[i] < ord,
            decreases self.inner@.len() - at,
        {
            at += 1;
        }
        assert forall|i: int| at <= i < self.inner@.len() implies ord <= self.inner@[i] by {
            if at < i {
                assert(self.inner@[at as int] < self.inner@[i]);
            }
        }
        at
    }

    /// Whether the pool holds an ordinal.
    pub fn contains(&self, ord: usize) -> (found: bool)
        ensures
            found == self@.contains(ord),
    {
        let at = self.place(ord);
        let found = at < self.inner.len() && self.inner[at] == ord;
        proof {
            use_type_invariant(self);
            if found {
                assert(self.inner@[at as int] == ord);
            } else {
                assert forall|i: int| 0 <= i < self.inner@.len() implies self.inner@[i] != ord by {
                    if at < i {
                        assert(self.inner@[at as int] < self.inner@[i]);
                    }
                }
            }
        }
        found
    }

    /// Puts an ordinal into the pool, and says whether it was new to it.
    pub fn insert(&mut self, ord: usize) -> (fresh: bool)
        ensures
            final(self)@ == old(self)@.insert(ord),
            fresh == !old(self)@.contains(ord),
    {
        proof {
            use_type_invariant(&*self);
        }
        let ghost before = self.inner@;
        let at = self.place(ord);
        if at < self.inner.len() && self.inner[at] == ord {
            assert(before[at as int] == ord);
            assert(self@ =~= self@.insert(ord));
            return false;
        }
        let mut inner: Vec<usize> = Vec::new();
        core::mem::swap(&mut self.inner, &mut inner);
        inner.insert(at, ord);
        proof {
            assert(inner@ == before.insert(at as int, ord));
            assert(rising(inner@)) by {
                assert forall|i: int, j: int| 0 <= i < j < inner@.len() implies inner@[i]
                    < inner@[j] by {
                    let a = if i < at { i } else { i - 1 };
                    let b = if j < at { j } else { j - 1 };
                    if i != at && j != at {
                        assert(before[a] < before[b]);
                    }
                }
            }
            assert forall|i: int| 0 <= i < before.len() implies before[i] != ord by {
                if at < i {
                    assert(before[at as int] < before[i]);
                }
            }
            assert(inner@.to_set() =~= before.to_set().insert(ord)) by {
                assert forall|x: usize| inner@.to_set().contains(x) implies before.to_set().insert(
                    ord,
                ).contains(x) by {
                    let i = choose|i: int| 0 <= i < inner@.len() && inner@[i] == x;
                    if i < at {
                        assert(before[i] == x);
                    } else if i > at {
                        assert(before[i - 1] == x);
                    }
                }
                assert forall|x: usize| before.to_set().insert(ord).contains(x) implies inner@.to_set().contains(
                    x,
                ) by {
                    if x == ord {
                        assert(inner@[at as int] == x);
                    } else {
                        let i = choose|i: int| 0 <= i < before.len() && before[i] == x;
                        if i < at {
                            assert(inner@[i] == x);
                        } else {
                            assert(inner@[i + 1] == x);
                        }
                    }
                }
            }
        }
        self.inner = inner;
        true
    }

    /// Takes an ordinal out of the pool, and says whether it was in it.
    pub fn remove(&mut self, ord: usize) -> (found: bool)
        ensures
            final(self)@ == old(self)@.remove(ord),
            found == old(self)@.contains(ord),
    {
        proof {
            use_type_invariant(&*self);
        }
        let ghost before = self.inner@;
        let at = self.place(ord);
        if !(at < self.inner.len() && self.inner[at] == ord) {
            assert forall|i: int| 0 <= i < before.len() implies before[i] != ord by {
                if at < i {
                    assert(before[at as int] < before[i]);
                }
            }
            assert(self@ =~= self@.remove(ord));
            return false;
        }
        let mut inner: Vec<usize> = Vec::new();
        core::mem::swap(&mut self.inner, &mut inner);
        inner.remove(at);
        proof {
            lemma_removed(before, at as int);
        }
        self.inner = inner;
        true
    }

    /// Hands out the lowest ordinal of the pool, if it has any.
    pub fn _allocate(&mut self) -> (ord: Option<usize>)
        ensures
            match ord {
                Some(x) => is_lowest(old(self)@, x) && final(self)@ == old(self)@.remove(x),
                None => old(self)@.is_empty() && final(self)@ == old(self)@,
            },
    {
        proof {
            use_type_invariant(&*self);
        }
        let ghost before = self.inner@;
        if self.inner.len() == 0 {
            assert(self@ =~= Set::<usize>::empty());
            return None;
        }
        let mut inner: Vec<usize> = Vec::new();
        core::mem::swap(&mut self.inner, &mut inner);
        let lowest = inner.remove(0);
        proof {
            lemma_removed(before, 0);
            assert forall|y: usize| before.to_set().contains(y) implies lowest <= y by {
                let i = choose|i: int| 0 <= i < before.len() && before[i] == y;
                if 0 < i {
                    assert(before[0] < before[i]);
                }
            }
            assert(before.to_set().contains(before[0]));
        }
        self.inner = inner;
        Some(lowest)
    }

    /// Hands out the lowest ordinal of the pool, if it has any, as an
    /// identifier stamped with the current time.
    pub fn allocate(&mut self) -> (id: Option<RingId>)
        ensures
            match id {
                Some(id) => is_lowest(old(self)@, id.ord) && final(self)@ == old(self)@.remove(
                    id.ord,
                ),
                None => old(self)@.is_empty() && final(self)@ == old(self)@,
            },
    {
        match self._allocate() {
            Some(ord) => Some(RingId::now(ord)),
            None => None,
        }
    }

    /// Hands out as many of the pool's lowest ordinals as it can, up to
    /// `size`, as a pool of their own.
    pub fn try_allocate_many(&mut self, size: usize) -> (taken: AllocPool)
        ensures
            taken@.finite(),
            old(self)@.finite(),
            taken@.len() == if size <= old(self)@.len() {
                size as nat
            } else {
                old(self)@.len()
            },
            taken@.subset_of(old(self)@),
            final(self)@ == old(self)@.difference(taken@),
            forall|x: usize, y: usize| taken@.contains(x) && final(self)@.contains(y) ==> x < y,
    {
        proof {
            use_type_invariant(&*self);
            lemma_rising_distinct(self.inner@);
        }
        let ghost before = self.inner@;
        let mut rest: Vec<usize> = Vec::new();
        core::mem::swap(&mut self.inner, &mut rest);
        let count = if size <= rest.len() {
            size
        } else {
            rest.len()
        };
        let mut taken: Vec<usize> = Vec::new();
        let mut i: usize = 0;
        while i < count
            invariant
                i <= count <= rest@.len(),
                rest@ == before,
                taken@ == before.subrange(0, i as int),
            decreases count - i,
        {
            taken.push(rest[i]);
            assert(taken@ =~= before.subrange(0, i + 1));
            i += 1;
        }
        let mut kept: Vec<usize> = Vec::new();
        while i < rest.len()
            invariant
                count <= i <= rest@.len(),
                rest@ == before,
                kept@ == before.subrange(count as int, i as int),
            decreases rest@.len() - i,
        {
            kept.push(rest[i]);
            assert(kept@ =~= before.subrange(count as int, i + 1));
            i += 1;
        }
        proof {
            let low = before.subrange(0, count as int);
            let high = before.subrange(count as int, before.len() as int);
            assert(kept@ == high);
            assert(rising(low));
            assert(rising(high));
            lemma_rising_distinct(low);
            lemma_rising_distinct(high);
            assert(low.to_set().subset_of(before.to_set())) by {
                assert forall|x: usize| low.to_set().contains(x) implies before.to_set().contains(
                    x,
                ) by {
                    let k = choose|k: int| 0 <= k < low.len() && low[k] == x;
                    assert(before[k] == x);
                }
            }
            assert forall|x: usize, y: usize|
                low.to_set().contains(x) && high.to_set().contains(y) implies x < y by {
                let k = choose|k: int| 0 <= k < low.len() && low[k] == x;
                let l = choose|l: int| 0 <= l < high.len() && high[l] == y;
                assert(before[k] < before[count + l]);
            }
            assert(high.to_set() =~= before.to_set().difference(low.to_set())) by {
                assert forall|x: usize| high.to_set().contains(x) implies before.to_set().difference(
                    low.to_set(),
                ).contains(x) by {
                    let l = choose|l: int| 0 <= l < high.len() && high[l] == x;
                    assert(before[count + l] == x);
                }
                assert forall|x: usize|
                    before.to_set().difference(low.to_set()).contains(x) implies high.to_set().contains(
                    x,
                ) by {
                    let k = choose|k: int| 0 <= k < before.len() && before[k] == x;
                    if k < count {
                        assert(low[k] == x);
                    } else {
                        assert(high[k - count] == x);
                    }
                }
            }
        }
        self.inner = kept;
        AllocPool { inner: taken }
    }

    /// The ordinals of the pool, lowest first.
    pub fn ordinals(&self) -> (ords: Vec<usize>)
        ensures
            ords@.to_set() == self@,
            ords@.no_duplicates(),
            forall|i: int, j: int| 0 <= i < j < ords@.len() ==> ords@[i] < ords@[j],
    {
        proof {
            use_type_invariant(self);
            lemma_rising_distinct(self.inner@);
        }
        self.listed()
    }

    fn listed(&self) -> (ords: Vec<usize>)
        ensures
            ords@ == self.inner@,
    {
        let mut ords: Vec<usize> = Vec::new();
        let mut i: usize = 0;
        while i < self.inner.len()
            invariant
                i <= self.inner@.len(),
                ords@ == self.inner@.subrange(0, i as int),
            decreases self.inner@.len() - i,
        {
            ords.push(self.inner[i]);
            assert(ords@ =~= self.inner@.subrange(0, i + 1));
            i += 1;
        }
        assert(ords@ =~= self.inner@);
        ords
    }
}

impl Clone for AllocPool {
    fn clone(&self) -> (pool: AllocPool)
        ensures
            pool@ == self@,
    {
        proof {
            use_type_invariant(self);
        }
        AllocPool { inner: self.listed() }
    }
}

impl Default for AllocPool {
    fn default() -> (pool: AllocPool)
        ensures
            pool@ == Set::<usize>::empty(),
    {
        AllocPool::new()
    }
}

proof fn lemma_removed(ords: Seq<usize>, at: int)
    requires
        rising(ords),
        0 <= at < ords.len(),
    ensures
        rising(ords.remove(at)),
        ords.remove(at).to_set() == ords.to_set().remove(ords[at]),
{
    let rest = ords.remove(at);
    assert forall|i: int, j: int| 0 <= i < j < rest.len() implies rest[i] < rest[j] by {
        let a = if i < at { i } else { i + 1 };
        let b = if j < at { j } else { j + 1 };
        assert(ords[a] < ords[b]);
    }
    assert forall|x: usize| rest.to_set().contains(x) implies ords.to_set().remove(ords[at]).contains(
        x,
    ) by {
        let i = choose|i: int| 0 <= i < rest.len() && rest[i] == x;
        let a = if i < at { i } else { i + 1 };
        assert(ords[a] == x);
        if a < at {
            assert(ords[a] < ords[at]);
        } else {
            assert(ords[at] < ords[a]);
        }
    }
    assert forall|x: usize| ords.to_set().remove(ords[at]).contains(x) implies rest.to_set().contains(
        x,
    ) by {
        let a = choose|a: int| 0 <= a < ords.len() && ords[a] == x;
        let i = if a < at { a } else { a - 1 };
        assert(rest[i] == x);
    }
    assert(rest.to_set() =~= ords.to_set().remove(ords[at]));
}

} // verus!
