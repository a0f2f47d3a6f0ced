//! Lists of identifiers: copying, searching, and adding without repetition.

use crate::table::Identifier;
use vstd::prelude::*;

verus! {

/// A copy of a vector of plain values.
pub fn copied<T: Copy>(items: &Vec<T>) -> (copy: Vec<T>)
    ensures
        copy@ == items@,
{
    let mut copy: Vec<T> = Vec::new();
    let mut i: usize = 0;
    while i < items.len()
        invariant
            i <= items@.len(),
            copy@ == items@.subrange(0, i as int),
        decreases items@.len() - i,
    {
        copy.push(items[i]);
        assert(copy@ =~= items@.subrange(0, i + 1));
        i += 1;
    }
    assert(copy@ =~= items@);
    copy
}

/// Whether a sequence of identifiers holds one, found by scanning.
pub fn holds<T: Identifier>(items: &Vec<T>, item: &T) -> (found: bool)
    ensures
        found == items@.contains(*item),
{
    let mut i: usize = 0;
    while i < items.len()
        invariant
            i <= items@.len(),
            forall|j: int| 0 <= j < i ==> items@[j] != *item,
        decreases items@.len() - i,
    {
        if items[i].same(item) {
            return true;
        }
        i += 1;
    }
    false
}

/// Whether an item stands among the first `end` of a list.
pub fn holds_before<T: Identifier>(items: &Vec<T>, end: usize, item: &T) -> (found: bool)
    requires
        end <= items@.len(),
    ensures
        found == items@.subrange(0, end as int).contains(*item),
{
    let ghost head = items@.subrange(0, end as int);
    let mut i: usize = 0;
    while i < end
        invariant
            i <= end <= items@.len(),
            head == items@.subrange(0, end as int),
            forall|j: int| 0 <= j < i ==> head[j] != *item,
        decreases end - i,
    {
        if items[i].same(item) {
            assert(head[i as int] == *item);
            return true;
        }
        i += 1;
    }
    false
}

/// Appends to a list each of the given items that the list does not hold
/// yet, once, in their order.
pub fn add_all<T: Identifier>(list: &mut Vec<T>, items: &Vec<T>)
    requires
        old(list)@.no_duplicates(),
    ensures
        final(list)@.no_duplicates(),
        old(list)@.len() <= final(list)@.len(),
        final(list)@.subrange(0, old(list)@.len() as int) == old(list)@,
        forall|x: T| final(list)@.contains(x) <==> old(list)@.contains(x) || items@.contains(x),
{
    let ghost before = list@;
    let mut i: usize = 0;
    while i < items.len()
        invariant
            i <= items@.len(),
            list@.no_duplicates(),
            before.len() <= list@.len(),
            list@.subrange(0, before.len() as int) == before,
            forall|x: T| #[trigger] list@.contains(x) ==> before.contains(x) || items@.contains(x),
            forall|k: int| 0 <= k < i ==> list@.contains(#[trigger] items@[k]),
        decreases items@.len() - i,
    {
        let item = items[i];
        let ghost prior = list@;
        let found = holds(list, &item);
        if !found {
            list.push(item);
            proof {
                assert(list@ == prior.push(item));
                assert(list@.subrange(0, before.len() as int) =~= prior.subrange(
                    0,
                    before.len() as int,
                ));
                assert forall|x: T| #[trigger] list@.contains(x) implies before.contains(x)
                    || items@.contains(x) by {
                    let k = choose|k: int| 0 <= k < list@.len() && list@[k] == x;
                    if k < prior.len() {
                        assert(prior[k] == x);
                        assert(prior.contains(x));
                    } else {
                        assert(items@[i as int] == x);
                    }
                }
                assert forall|k: int| 0 <= k < i + 1 implies list@.contains(
                    #[trigger] items@[k],
                ) by {
                    if k < i {
                        assert(prior.contains(items@[k]));
                        let l = choose|l: int| 0 <= l < prior.len() && prior[l] == items@[k];
                        assert(list@[l] == items@[k]);
                    } else {
                        assert(list@[prior.len() as int] == item);
                    }
                }
            }
        }
        i += 1;
    }
    proof {
        assert forall|x: T| before.contains(x) implies list@.contains(x) by {
            let k = choose|k: int| 0 <= k < before.len() && before[k] == x;
            assert(list@.subrange(0, before.len() as int)[k] == x);
            assert(list@[k] == x);
        }
        assert forall|x: T| items@.contains(x) implies list@.contains(x) by {
            let k = choose|k: int| 0 <= k < items@.len() && items@[k] == x;
            assert(list@.contains(items@[k]));
        }
    }
}

/// A list without repetition whose items all lie in a finite set is no
/// longer than the set is large.
pub proof fn lemma_listing_bounded<T>(list: Seq<T>, set: Set<T>)
    requires
        list.no_duplicates(),
        set.finite(),
        forall|k: int| 0 <= k < list.len() ==> set.contains(list[k]),
    ensures
        list.len() <= set.len(),
{
    list.unique_seq_to_set();
    assert(list.to_set().subset_of(set)) by {
        assert forall|x: T| list.to_set().contains(x) implies set.contains(x) by {
            let k = choose|k: int| 0 <= k < list.len() && list[k] == x;
        }
    }
    vstd::set_lib::lemma_len_subset(list.to_set(), set);
}

/// The items of a list up to and with the one at a position are those before
/// it and that one.
pub proof fn lemma_prefix_set<T>(list: Seq<T>, at: int)
    requires
        0 <= at < list.len(),
    ensures
        list.subrange(0, at + 1).to_set() == list.subrange(0, at).to_set().insert(list[at]),
{
    let short = list.subrange(0, at);
    let long = list.subrange(0, at + 1);
    assert forall|x: T| long.to_set().contains(x) implies short.to_set().insert(list[at]).contains(
        x,
    ) by {
        let k = choose|k: int| 0 <= k < long.len() && long[k] == x;
        if k < at {
            assert(short[k] == x);
        }
    }
    assert forall|x: T| short.to_set().insert(list[at]).contains(x) implies long.to_set().contains(
        x,
    ) by {
        if x == list[at] {
            assert(long[at] == x);
        } else {
            let k = choose|k: int| 0 <= k < short.len() && short[k] == x;
            assert(long[k] == x);
        }
    }
    assert(long.to_set() =~= short.to_set().insert(list[at]));
}

/// A list with one more item holds what the list held, and that item.
pub proof fn lemma_push_contains<T>(list: Seq<T>, item: T, x: T)
    ensures
        list.push(item).contains(x) <==> list.contains(x) || x == item,
{
    let longer = list.push(item);
    if longer.contains(x) {
        let k = choose|k: int| 0 <= k < longer.len() && longer[k] == x;
        if k < list.len() {
            assert(list[k] == x);
        }
    }
    if list.contains(x) {
        let k = choose|k: int| 0 <= k < list.len() && list[k] == x;
        assert(longer[k] == x);
    }
    if x == item {
        assert(longer[list.len() as int] == x);
    }
}

/// The items of a list up to and with the one at a position are those before
/// it and that one.
pub proof fn lemma_prefix_contains<T>(list: Seq<T>, at: int, x: T)
    requires
        0 <= at < list.len(),
    ensures
        list.subrange(0, at + 1).contains(x) <==> list.subrange(0, at).contains(x) || x
            == list[at],
{
    assert(list.subrange(0, at + 1) =~= list.subrange(0, at).push(list[at]));
    lemma_push_contains(list.subrange(0, at), list[at], x);
}

} // verus!
