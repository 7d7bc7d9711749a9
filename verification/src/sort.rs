//! Stable sorting by key, and removal of neighbouring duplicates.
use vstd::prelude::*;
use crate::text;

verus! {

/// `s` with `x` put behind the last element that may stand before it.
pub open spec fn inserted<A>(s: Seq<A>, x: A, le: spec_fn(A, A) -> bool) -> Seq<A>
    decreases s.len(),
{
    if s.len() == 0 || le(s.last(), x) {
        s.push(x)
    } else {
        inserted(s.drop_last(), x, le).push(s.last())
    }
}

/// `s` in the order `le`; elements that `le` does not tell apart keep their order.
pub open spec fn sorted<A>(s: Seq<A>, le: spec_fn(A, A) -> bool) -> Seq<A>
    decreases s.len(),
{
    if s.len() == 0 {
        s
    } else {
        inserted(sorted(s.drop_last(), le), s.last(), le)
    }
}

/// `s` without each element that is the `same` as the one kept before it.
pub open spec fn deduped<A>(s: Seq<A>, same: spec_fn(A, A) -> bool) -> Seq<A>
    decreases s.len(),
{
    if s.len() == 0 {
        s
    } else {
        let kept = deduped(s.drop_last(), same);
        if kept.len() > 0 && same(kept.last(), s.last()) {
            kept
        } else {
            kept.push(s.last())
        }
    }
}

/// A key by which items are sorted.
pub trait SortKey: Sized {
    /// The order of the keys.
    spec fn key_leq(a: Self, b: Self) -> bool;

    /// Whether this key may stand before the other.
    fn may_precede(&self, other: &Self) -> (r: bool)
        ensures
            r == Self::key_leq(*self, *other),
    ;
}

impl SortKey for i64 {
    open spec fn key_leq(a: i64, b: i64) -> bool {
        a <= b
    }

    fn may_precede(&self, other: &i64) -> (r: bool) {
        *self <= *other
    }
}

impl SortKey for String {
    open spec fn key_leq(a: String, b: String) -> bool {
        text::leq(a@, b@)
    }

    fn may_precede(&self, other: &String) -> (r: bool) {
        text::text_leq(self.as_str(), other.as_str())
    }
}

/// The order of items by their keys.
pub open spec fn by_key<K: SortKey, T>() -> spec_fn((K, T), (K, T)) -> bool {
    |a: (K, T), b: (K, T)| K::key_leq(a.0, b.0)
}

proof fn lemma_inserted_len<A>(s: Seq<A>, x: A, le: spec_fn(A, A) -> bool)
    ensures
        inserted(s, x, le).len() == s.len() + 1,
    decreases s.len(),
{
    if s.len() > 0 && !le(s.last(), x) {
        lemma_inserted_len(s.drop_last(), x, le);
    }
}

/// Where an element lands: behind `pos` elements, when the rest may not stand before it.
proof fn lemma_inserted_at<A>(s: Seq<A>, x: A, le: spec_fn(A, A) -> bool, pos: int)
    requires
        0 <= pos <= s.len(),
        pos == 0 || le(s[pos - 1], x),
        forall|j: int| pos <= j < s.len() ==> !le(#[trigger] s[j], x),
    ensures
        inserted(s, x, le) == s.insert(pos, x),
    decreases s.len(),
{
    if pos == s.len() {
        assert(s.insert(pos, x) =~= s.push(x));
    } else {
        assert(!le(s.last(), x));
        let front = s.drop_last();
        assert forall|j: int| pos <= j < front.len() implies !le(#[trigger] front[j], x) by {
            assert(front[j] == s[j]);
        }
        lemma_inserted_at(front, x, le, pos);
        assert(front.insert(pos, x).push(s.last()) =~= s.insert(pos, x));
    }
}

/// Puts an item into a sorted list.
fn insert_item<K: SortKey, T>(list: &mut Vec<(K, T)>, item: (K, T))
    ensures
        final(list)@ == inserted(old(list)@, item, by_key::<K, T>()),
{
    let ghost before = list@;
    let mut pos: usize = list.len();
    while pos > 0 && !list[pos - 1].0.may_precede(&item.0)
        invariant
            list@ == before,
            pos <= before.len(),
            forall|j: int| pos <= j < before.len() ==> !K::key_leq((#[trigger] before[j]).0, item.0),
        decreases pos,
    {
        pos -= 1;
    }
    proof {
        lemma_inserted_at(before, item, by_key::<K, T>(), pos as int);
    }
    list.insert(pos, item);
}

/// Sorts items by their keys; items of equal keys keep their order.
pub fn sort_by_key<K: SortKey, T>(items: Vec<(K, T)>) -> (r: Vec<(K, T)>)
    ensures
        r@ == sorted(items@, by_key::<K, T>()),
{
    let ghost all = items@;
    let mut out: Vec<(K, T)> = Vec::new();
    assert(all.take(0) =~= Seq::empty());
    for item in it: items
        invariant
            it.seq() == all,
            out@ == sorted(all.take(it.index()), by_key::<K, T>()),
    {
        assert(all.take(it.index() + 1).drop_last() =~= all.take(it.index()));
        insert_item(&mut out, item);
    }
    assert(all.take(all.len() as int) =~= all);
    out
}

proof fn lemma_inserted_map<A, B>(
    s: Seq<A>,
    x: A,
    f: spec_fn(A) -> B,
    le: spec_fn(A, A) -> bool,
    le2: spec_fn(B, B) -> bool,
    ok: spec_fn(A) -> bool,
)
    requires
        forall|a: A, b: A| ok(a) && ok(b) ==> #[trigger] le(a, b) == le2(f(a), f(b)),
        forall|i: int| 0 <= i < s.len() ==> ok(#[trigger] s[i]),
        ok(x),
    ensures
        inserted(s, x, le).map_values(f) == inserted(s.map_values(f), f(x), le2),
        forall|i: int| 0 <= i < inserted(s, x, le).len() ==> ok(#[trigger] inserted(s, x, le)[i]),
    decreases s.len(),
{
    if s.len() == 0 || le(s.last(), x) {
        if s.len() > 0 {
            assert(ok(s[s.len() - 1]));
            assert(s.map_values(f).last() == f(s.last()));
        }
        assert(s.push(x).map_values(f) =~= s.map_values(f).push(f(x)));
    } else {
        assert(ok(s[s.len() - 1]));
        assert(le(s.last(), x) == le2(f(s.last()), f(x)));
        assert(s.map_values(f).last() == f(s.last()));
        assert forall|i: int| 0 <= i < s.drop_last().len() implies ok(#[trigger] s.drop_last()[i]) by {
            assert(s.drop_last()[i] == s[i]);
        }
        lemma_inserted_map(s.drop_last(), x, f, le, le2, ok);
        assert(s.drop_last().map_values(f) =~= s.map_values(f).drop_last());
        assert(inserted(s, x, le).map_values(f) =~= inserted(s.drop_last(), x, le).map_values(f).push(f(s.last())));
    }
}

/// Sorting commutes with a map that keeps the order of the elements, all of which are `ok`.
pub proof fn lemma_sorted_map<A, B>(
    s: Seq<A>,
    f: spec_fn(A) -> B,
    le: spec_fn(A, A) -> bool,
    le2: spec_fn(B, B) -> bool,
    ok: spec_fn(A) -> bool,
)
    requires
        forall|a: A, b: A| ok(a) && ok(b) ==> #[trigger] le(a, b) == le2(f(a), f(b)),
        forall|i: int| 0 <= i < s.len() ==> ok(#[trigger] s[i]),
    ensures
        sorted(s, le).map_values(f) == sorted(s.map_values(f), le2),
        forall|i: int| 0 <= i < sorted(s, le).len() ==> ok(#[trigger] sorted(s, le)[i]),
    decreases s.len(),
{
    if s.len() == 0 {
        assert(s.map_values(f) =~= Seq::empty());
        assert(sorted(s, le).map_values(f) =~= sorted(s.map_values(f), le2));
    } else {
        assert(ok(s[s.len() - 1]));
        assert forall|i: int| 0 <= i < s.drop_last().len() implies ok(#[trigger] s.drop_last()[i]) by {
            assert(s.drop_last()[i] == s[i]);
        }
        lemma_sorted_map(s.drop_last(), f, le, le2, ok);
        assert(s.drop_last().map_values(f) =~= s.map_values(f).drop_last());
        lemma_inserted_map(sorted(s.drop_last(), le), s.last(), f, le, le2, ok);
    }
}

/// Removing neighbouring duplicates commutes with a map that keeps which elements are the same.
pub proof fn lemma_deduped_map<A, B>(
    s: Seq<A>,
    f: spec_fn(A) -> B,
    same: spec_fn(A, A) -> bool,
    same2: spec_fn(B, B) -> bool,
)
    requires
        forall|a: A, b: A| #[trigger] same(a, b) == same2(f(a), f(b)),
    ensures
        deduped(s, same).map_values(f) == deduped(s.map_values(f), same2),
    decreases s.len(),
{
    if s.len() == 0 {
        assert(deduped(s, same).map_values(f) =~= deduped(s.map_values(f), same2));
    } else {
        lemma_deduped_map(s.drop_last(), f, same, same2);
        assert(s.drop_last().map_values(f) =~= s.map_values(f).drop_last());
        let kept = deduped(s.drop_last(), same);
        if kept.len() > 0 {
            assert(kept.map_values(f).last() == f(kept.last()));
            assert(same(kept.last(), s.last()) == same2(f(kept.last()), f(s.last())));
        }
        assert(kept.push(s.last()).map_values(f) =~= kept.map_values(f).push(f(s.last())));
    }
}

/// Removing neighbouring duplicates from a list in a total order leaves each of its elements
/// once, still in that order.
pub proof fn lemma_deduped_strict<A>(s: Seq<A>, le: spec_fn(A, A) -> bool, same: spec_fn(A, A) -> bool)
    requires
        vstd::relations::total_ordering(le),
        vstd::relations::sorted_by(s, le),
        forall|a: A, b: A| #[trigger] same(a, b) <==> a == b,
    ensures
        vstd::relations::sorted_by(deduped(s, same), le),
        deduped(s, same).no_duplicates(),
        deduped(s, same).to_set() == s.to_set(),
        s.len() > 0 ==> deduped(s, same).len() > 0 && deduped(s, same).last() == s.last(),
    decreases s.len(),
{
    let r = deduped(s, same);
    if s.len() == 0 {
        assert(r.to_set() =~= s.to_set());
    } else {
        let front = s.drop_last();
        assert forall|i: int, j: int| 0 <= i < j < front.len() implies #[trigger] le(front[i], front[j]) by {
            assert(le(s[i], s[j]));
        }
        lemma_deduped_strict(front, le, same);
        let kept = deduped(front, same);
        assert(s =~= front.push(s.last()));
        assert forall|x: A| s.to_set().contains(x) <==> (front.to_set().contains(x) || x == s.last()) by {
            if s.contains(x) {
                let k = choose|k: int| 0 <= k < s.len() && s[k] == x;
                if k < front.len() {
                    assert(front[k] == x);
                }
            }
            if front.contains(x) {
                let k = choose|k: int| 0 <= k < front.len() && front[k] == x;
                assert(s[k] == x);
            }
            assert(s[s.len() - 1] == s.last());
        }
        if front.len() > 0 && same(kept.last(), s.last()) {
            assert(kept.last() == front[front.len() - 1]);
            assert(front.contains(s.last()));
            assert(r.to_set() =~= s.to_set());
        } else {
            if front.len() == 0 {
                assert(kept.len() == 0);
            }
            assert(r == kept.push(s.last()));
            assert forall|i: int| 0 <= i < kept.len() implies kept[i] != s.last() && le(
                #[trigger] kept[i],
                s.last(),
            ) by {
                assert(kept.to_set().contains(kept[i]));
                assert(front.contains(kept[i]));
                let k = choose|k: int| 0 <= k < front.len() && front[k] == kept[i];
                assert(le(s[k], s[s.len() - 1]));
                if kept[i] == s.last() {
                    let m = kept[kept.len() - 1];
                    assert(m == front[front.len() - 1]);
                    assert(le(s[front.len() - 1], s[s.len() - 1]));
                    if i < kept.len() - 1 {
                        assert(le(kept[i], kept[kept.len() - 1]));
                    }
                    assert(le(m, s.last()) && le(s.last(), m));
                    assert(m == s.last());
                }
            }
            assert forall|i: int, j: int| 0 <= i < j < r.len() implies #[trigger] le(r[i], r[j]) by {
                if j < kept.len() {
                    assert(le(kept[i], kept[j]));
                }
            }
            assert forall|x: A| r.to_set().contains(x) <==> (kept.to_set().contains(x) || x == s.last()) by {
                if r.contains(x) {
                    let k = choose|k: int| 0 <= k < r.len() && r[k] == x;
                    if k < kept.len() {
                        assert(kept[k] == x);
                    }
                }
                if kept.contains(x) {
                    let k = choose|k: int| 0 <= k < kept.len() && kept[k] == x;
                    assert(r[k] == x);
                }
                assert(r[r.len() - 1] == s.last());
            }
            assert(r.to_set() =~= s.to_set());
        }
    }
}

/// Neither the order of the elements nor how often each of them came changes the sorted list
/// without duplicates.
pub proof fn lemma_sorted_deduped_ignores_order<A>(
    s: Seq<A>,
    t: Seq<A>,
    le: spec_fn(A, A) -> bool,
    same: spec_fn(A, A) -> bool,
)
    requires
        vstd::relations::total_ordering(le),
        forall|a: A, b: A| #[trigger] same(a, b) <==> a == b,
        s.to_set() == t.to_set(),
    ensures
        deduped(sorted(s, le), same) == deduped(sorted(t, le), same),
{
    broadcast use vstd::seq_lib::group_to_multiset_ensures;

    let (a, b) = (deduped(sorted(s, le), same), deduped(sorted(t, le), same));
    lemma_sorted_is_sorted(s, le);
    lemma_sorted_is_sorted(t, le);
    lemma_sorted_multiset(s, le);
    lemma_sorted_multiset(t, le);
    lemma_deduped_strict(sorted(s, le), le, same);
    lemma_deduped_strict(sorted(t, le), le, same);
    assert forall|x: A| a.to_set().contains(x) <==> b.to_set().contains(x) by {
        assert(sorted(s, le).contains(x) <==> s.contains(x)) by {
            assert(sorted(s, le).to_multiset().count(x) == s.to_multiset().count(x));
        }
        assert(sorted(t, le).contains(x) <==> t.contains(x)) by {
            assert(sorted(t, le).to_multiset().count(x) == t.to_multiset().count(x));
        }
        assert(s.contains(x) <==> s.to_set().contains(x));
        assert(t.contains(x) <==> t.to_set().contains(x));
    }
    assert(a.to_multiset() =~= b.to_multiset()) by {
        assert forall|x: A| a.to_multiset().count(x) == b.to_multiset().count(x) by {
            a.lemma_multiset_has_no_duplicates();
            b.lemma_multiset_has_no_duplicates();
            assert(a.to_multiset().contains(x) <==> a.contains(x));
            assert(b.to_multiset().contains(x) <==> b.contains(x));
            assert(a.contains(x) <==> a.to_set().contains(x));
            assert(b.contains(x) <==> b.to_set().contains(x));
        }
    }
    vstd::seq_lib::lemma_sorted_unique(a, b, le);
}

/// Sorting leaves each element with the number of occurrences that it had.
pub proof fn lemma_sorted_multiset<A>(s: Seq<A>, le: spec_fn(A, A) -> bool)
    ensures
        sorted(s, le).to_multiset() == s.to_multiset(),
    decreases s.len(),
{
    broadcast use vstd::seq_lib::group_to_multiset_ensures;

    if s.len() > 0 {
        lemma_sorted_multiset(s.drop_last(), le);
        lemma_inserted_multiset(sorted(s.drop_last(), le), s.last(), le);
        assert(s =~= s.drop_last().push(s.last()));
    }
}

proof fn lemma_inserted_multiset<A>(s: Seq<A>, x: A, le: spec_fn(A, A) -> bool)
    ensures
        inserted(s, x, le).to_multiset() == s.to_multiset().insert(x),
    decreases s.len(),
{
    broadcast use vstd::seq_lib::group_to_multiset_ensures;

    if s.len() > 0 && !le(s.last(), x) {
        lemma_inserted_multiset(s.drop_last(), x, le);
        assert(s =~= s.drop_last().push(s.last()));
        assert(inserted(s, x, le).to_multiset() =~= s.to_multiset().insert(x));
    }
}

proof fn lemma_inserted_sorted<A>(s: Seq<A>, x: A, le: spec_fn(A, A) -> bool)
    requires
        vstd::relations::total_ordering(le),
        vstd::relations::sorted_by(s, le),
    ensures
        vstd::relations::sorted_by(inserted(s, x, le), le),
    decreases s.len(),
{
    if s.len() == 0 || le(s.last(), x) {
        let r = s.push(x);
        assert forall|i: int, j: int| 0 <= i < j < r.len() implies #[trigger] le(r[i], r[j]) by {
            if j < s.len() {
                assert(le(s[i], s[j]));
            } else if i < s.len() - 1 {
                assert(le(s[i], s[s.len() - 1]));
            }
        }
    } else {
        let front = s.drop_last();
        assert forall|i: int, j: int| 0 <= i < j < front.len() implies #[trigger] le(front[i], front[j]) by {
            assert(le(s[i], s[j]));
        }
        lemma_inserted_sorted(front, x, le);
        let mid = inserted(front, x, le);
        lemma_inserted_multiset(front, x, le);
        lemma_inserted_len(front, x, le);
        let r = mid.push(s.last());
        assert(le(x, s.last()));
        assert forall|i: int, j: int| 0 <= i < j < r.len() implies #[trigger] le(r[i], r[j]) by {
            if j < mid.len() {
                assert(le(mid[i], mid[j]));
            } else {
                broadcast use vstd::seq_lib::group_to_multiset_ensures;
                assert(mid.to_multiset().contains(mid[i]));
                if mid[i] != x {
                    assert(front.to_multiset().contains(mid[i]));
                    assert(front.contains(mid[i]));
                    let k = choose|k: int| 0 <= k < front.len() && front[k] == mid[i];
                    assert(le(s[k], s[s.len() - 1]));
                }
            }
        }
    }
}

/// Sorting by a total order leaves the elements in that order.
pub proof fn lemma_sorted_is_sorted<A>(s: Seq<A>, le: spec_fn(A, A) -> bool)
    requires
        vstd::relations::total_ordering(le),
    ensures
        vstd::relations::sorted_by(sorted(s, le), le),
    decreases s.len(),
{
    if s.len() > 0 {
        lemma_sorted_is_sorted(s.drop_last(), le);
        lemma_inserted_sorted(sorted(s.drop_last(), le), s.last(), le);
    }
}

/// The order in which the elements came does not change the sorted list.
pub proof fn lemma_sorted_ignores_order<A>(s: Seq<A>, t: Seq<A>, le: spec_fn(A, A) -> bool)
    requires
        vstd::relations::total_ordering(le),
        s.to_multiset() == t.to_multiset(),
    ensures
        sorted(s, le) == sorted(t, le),
{
    lemma_sorted_is_sorted(s, le);
    lemma_sorted_is_sorted(t, le);
    lemma_sorted_multiset(s, le);
    lemma_sorted_multiset(t, le);
    vstd::seq_lib::lemma_sorted_unique(sorted(s, le), sorted(t, le), le);
}

/// Whether each element may stand before the next.
pub open spec fn in_steps<A>(s: Seq<A>, le: spec_fn(A, A) -> bool) -> bool {
    forall|i: int| 0 <= i < s.len() - 1 ==> #[trigger] le(s[i], s[i + 1])
}

proof fn lemma_inserted_in_steps<A>(s: Seq<A>, x: A, le: spec_fn(A, A) -> bool)
    requires
        forall|a: A, b: A| #[trigger] le(a, b) || le(b, a),
        in_steps(s, le),
    ensures
        in_steps(inserted(s, x, le), le),
        inserted(s, x, le).len() == s.len() + 1,
        inserted(s, x, le).last() == x || (s.len() > 0 && inserted(s, x, le).last() == s.last()),
    decreases s.len(),
{
    let r = inserted(s, x, le);
    if s.len() == 0 || le(s.last(), x) {
        assert forall|i: int| 0 <= i < r.len() - 1 implies #[trigger] le(r[i], r[i + 1]) by {
            if i < s.len() - 1 {
                assert(le(s[i], s[i + 1]));
            }
        }
    } else {
        let front = s.drop_last();
        assert forall|i: int| 0 <= i < front.len() - 1 implies #[trigger] le(front[i], front[i + 1]) by {
            assert(le(s[i], s[i + 1]));
        }
        lemma_inserted_in_steps(front, x, le);
        let mid = inserted(front, x, le);
        assert(le(mid.last(), s.last())) by {
            if mid.last() != x {
                assert(le(s[s.len() - 2], s[s.len() - 2 + 1]));
            }
        }
        assert forall|i: int| 0 <= i < r.len() - 1 implies #[trigger] le(r[i], r[i + 1]) by {
            if i < mid.len() - 1 {
                assert(le(mid[i], mid[i + 1]));
            }
        }
    }
}

/// Sorting leaves each element where it may stand before the next.
pub proof fn lemma_sorted_in_steps<A>(s: Seq<A>, le: spec_fn(A, A) -> bool)
    requires
        forall|a: A, b: A| #[trigger] le(a, b) || le(b, a),
    ensures
        in_steps(sorted(s, le), le),
    decreases s.len(),
{
    if s.len() > 0 {
        lemma_sorted_in_steps(s.drop_last(), le);
        lemma_inserted_in_steps(sorted(s.drop_last(), le), s.last(), le);
    }
}

/// Sorting a list whose elements may each stand before the next leaves it as it is.
pub proof fn lemma_sorting_again<A>(s: Seq<A>, le: spec_fn(A, A) -> bool)
    requires
        in_steps(s, le),
    ensures
        sorted(s, le) == s,
    decreases s.len(),
{
    if s.len() > 0 {
        let front = s.drop_last();
        assert forall|i: int| 0 <= i < front.len() - 1 implies #[trigger] le(front[i], front[i + 1]) by {
            assert(le(s[i], s[i + 1]));
        }
        lemma_sorting_again(front, le);
        if front.len() > 0 {
            assert(le(s[s.len() - 2], s[s.len() - 2 + 1]));
        }
        assert(front.push(s.last()) =~= s);
    }
}

/// Removing neighbouring duplicates keeps the order and leaves no two neighbours the same.
pub proof fn lemma_deduped_in_steps<A>(s: Seq<A>, le: spec_fn(A, A) -> bool, same: spec_fn(A, A) -> bool)
    requires
        in_steps(s, le),
        forall|a: A| #[trigger] same(a, a),
        forall|a: A, b: A, c: A| #[trigger] same(a, b) && #[trigger] le(b, c) ==> le(a, c),
    ensures
        in_steps(deduped(s, same), le),
        forall|i: int| 0 <= i < deduped(s, same).len() - 1 ==> !#[trigger] same(
            deduped(s, same)[i],
            deduped(s, same)[i + 1],
        ),
        s.len() > 0 ==> deduped(s, same).len() > 0 && same(deduped(s, same).last(), s.last()),
    decreases s.len(),
{
    if s.len() > 0 {
        let front = s.drop_last();
        assert forall|i: int| 0 <= i < front.len() - 1 implies #[trigger] le(front[i], front[i + 1]) by {
            assert(le(s[i], s[i + 1]));
        }
        lemma_deduped_in_steps(front, le, same);
        let kept = deduped(front, same);
        let r = deduped(s, same);
        if !(kept.len() > 0 && same(kept.last(), s.last())) {
            if kept.len() > 0 {
                if front.len() == 0 {
                    assert(kept.len() == 0);
                }
                assert(le(s[s.len() - 2], s[s.len() - 2 + 1]));
                assert(same(kept.last(), front.last()));
                assert(le(kept.last(), s.last()));
            }
            assert forall|i: int| 0 <= i < r.len() - 1 implies #[trigger] le(r[i], r[i + 1]) by {
                if i < kept.len() - 1 {
                    assert(le(kept[i], kept[i + 1]));
                }
            }
            assert forall|i: int| 0 <= i < r.len() - 1 implies !#[trigger] same(r[i], r[i + 1]) by {
                if i < kept.len() - 1 {
                    assert(!same(kept[i], kept[i + 1]));
                }
            }
        }
    }
}

/// Removing duplicates from a list without two neighbours that are the same leaves it as it is.
pub proof fn lemma_deduping_again<A>(s: Seq<A>, same: spec_fn(A, A) -> bool)
    requires
        forall|i: int| 0 <= i < s.len() - 1 ==> !#[trigger] same(s[i], s[i + 1]),
    ensures
        deduped(s, same) == s,
    decreases s.len(),
{
    if s.len() > 0 {
        let front = s.drop_last();
        assert forall|i: int| 0 <= i < front.len() - 1 implies !#[trigger] same(front[i], front[i + 1]) by {
            assert(!same(s[i], s[i + 1]));
        }
        lemma_deduping_again(front, same);
        if front.len() > 0 {
            assert(!same(s[s.len() - 2], s[s.len() - 2 + 1]));
        }
        assert(front.push(s.last()) =~= s);
    }
}

/// Lists with the same elements in any order have images with the same elements in any order.
pub proof fn lemma_map_ignores_order<A, B>(s: Seq<A>, t: Seq<A>, f: spec_fn(A) -> B)
    requires
        s.to_multiset() == t.to_multiset(),
    ensures
        s.map_values(f).to_multiset() == t.map_values(f).to_multiset(),
    decreases s.len(),
{
    broadcast use vstd::seq_lib::group_to_multiset_ensures;

    s.to_multiset_ensures();
    t.to_multiset_ensures();
    if s.len() == 0 {
        assert(s.map_values(f) =~= t.map_values(f));
    } else {
        let x = s.last();
        let front = s.drop_last();
        assert(s =~= front.push(x));
        assert(s.contains(x));
        assert(t.to_multiset().count(x) > 0);
        let k = choose|k: int| 0 <= k < t.len() && t[k] == x;
        let rest = t.remove(k);
        assert(front =~= s.remove(s.len() - 1));
        lemma_map_ignores_order(front, rest, f);
        assert(s.map_values(f) =~= front.map_values(f).push(f(x)));
        assert(rest.map_values(f) =~= t.map_values(f).remove(k));
        assert(t.map_values(f)[k] == f(x));
        assert(t.map_values(f).to_multiset() =~= t.map_values(f).to_multiset().remove(f(x)).insert(f(x)));
    }
}

proof fn lemma_inserted_stable<A>(s: Seq<A>, x: A, le: spec_fn(A, A) -> bool, class: spec_fn(A) -> bool)
    requires
        forall|a: A, b: A| #[trigger] class(a) && #[trigger] class(b) ==> le(a, b),
    ensures
        inserted(s, x, le).filter(class) == s.push(x).filter(class),
    decreases s.len(),
{
    reveal(Seq::filter);
    if s.len() > 0 && !le(s.last(), x) {
        let front = s.drop_last();
        lemma_inserted_stable(front, x, le, class);
        let r = inserted(s, x, le);
        assert(r.drop_last() =~= inserted(front, x, le));
        assert(s.push(x).drop_last() =~= s);
        assert(front.push(x).drop_last() =~= front);
        let (f, last) = (front.filter(class), s.last());
        assert(s.filter(class) == (if class(last) {
            f.push(last)
        } else {
            f
        }));
        assert(front.push(x).filter(class) == (if class(x) {
            f.push(x)
        } else {
            f
        }));
        assert(s.push(x).filter(class) == (if class(x) {
            s.filter(class).push(x)
        } else {
            s.filter(class)
        }));
        assert(r.last() == last);
        assert(r.filter(class) == (if class(last) {
            inserted(front, x, le).filter(class).push(last)
        } else {
            inserted(front, x, le).filter(class)
        }));
        assert(!(class(last) && class(x)));
    }
}

/// Sorting is a matter of order alone: the result has the same elements, no element stands behind
/// one that it has to stand before, and elements that the order does not tell apart stay in their
/// order.
pub proof fn law_sorting_is_stable<A>(s: Seq<A>, le: spec_fn(A, A) -> bool, class: spec_fn(A) -> bool)
    requires
        forall|a: A, b: A| #[trigger] le(a, b) || le(b, a),
        forall|a: A, b: A, c: A| #[trigger] le(a, b) && #[trigger] le(b, c) ==> le(a, c),
        forall|a: A, b: A| #[trigger] class(a) && #[trigger] class(b) ==> le(a, b),
    ensures
        sorted(s, le).to_multiset() == s.to_multiset(),
        forall|i: int, j: int| 0 <= i < j < s.len() ==> le(#[trigger] sorted(s, le)[i], #[trigger] sorted(s, le)[j]),
        sorted(s, le).len() == s.len(),
        sorted(s, le).filter(class) == s.filter(class),
    decreases s.len(),
{
    lemma_sorted_multiset(s, le);
    lemma_sorted_in_steps(s, le);
    let r = sorted(s, le);
    s.to_multiset_ensures();
    r.to_multiset_ensures();
    assert(r.len() == s.len());
    assert forall|i: int, j: int| 0 <= i < j < s.len() implies le(#[trigger] r[i], #[trigger] r[j]) by {
        lemma_steps_reach(r, le, i, j);
    }
    if s.len() > 0 {
        let front = s.drop_last();
        law_sorting_is_stable(front, le, class);
        lemma_inserted_stable(sorted(front, le), s.last(), le, class);
        reveal(Seq::filter);
        let f = sorted(front, le);
        assert(f.push(s.last()).drop_last() =~= f);
    }
}

proof fn lemma_steps_reach<A>(s: Seq<A>, le: spec_fn(A, A) -> bool, i: int, j: int)
    requires
        in_steps(s, le),
        forall|a: A, b: A, c: A| #[trigger] le(a, b) && #[trigger] le(b, c) ==> le(a, c),
        0 <= i < j < s.len(),
    ensures
        le(s[i], s[j]),
    decreases j - i,
{
    assert(le(s[j - 1], s[j - 1 + 1]));
    if i < j - 1 {
        lemma_steps_reach(s, le, i, j - 1);
    }
}

/// What is left without neighbouring duplicates are some of the elements, and every element is the
/// same as one that is left.
pub proof fn lemma_deduped_members<A>(s: Seq<A>, same: spec_fn(A, A) -> bool)
    requires
        forall|a: A| #[trigger] same(a, a),
    ensures
        forall|i: int| 0 <= i < deduped(s, same).len() ==> s.contains(#[trigger] deduped(s, same)[i]),
        forall|i: int|
            0 <= i < s.len() ==> exists|j: int|
                0 <= j < deduped(s, same).len() && same(#[trigger] deduped(s, same)[j], #[trigger] s[i]),
    decreases s.len(),
{
    if s.len() > 0 {
        let front = s.drop_last();
        lemma_deduped_members(front, same);
        let kept = deduped(front, same);
        let all = deduped(s, same);
        assert forall|i: int| 0 <= i < all.len() implies s.contains(#[trigger] all[i]) by {
            if i < kept.len() {
                assert(all[i] == kept[i]);
                assert(front.contains(kept[i]));
                let k = choose|k: int| 0 <= k < front.len() && front[k] == kept[i];
                assert(s[k] == kept[i]);
            } else {
                assert(s[s.len() - 1] == all[i]);
            }
        }
        assert forall|i: int| 0 <= i < s.len() implies exists|j: int|
            0 <= j < all.len() && same(#[trigger] all[j], #[trigger] s[i]) by {
            if i < front.len() {
                assert(front[i] == s[i]);
                let j = choose|j: int| 0 <= j < kept.len() && same(#[trigger] kept[j], front[i]);
                assert(all[j] == kept[j]);
            } else {
                let j = all.len() - 1;
                assert(s[i] == s.last());
                assert(same(all[j], s.last()));
            }
        }
    }
}

} // verus!
