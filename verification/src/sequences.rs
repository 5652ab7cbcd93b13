//! Facts about sequences that the hierarchy's contracts lean on.

use vstd::prelude::*;

verus! {

/// The items of `s` whose flag in `keep` is set, in their order.
pub open spec fn filter_mask<A>(s: Seq<A>, keep: Seq<bool>) -> Seq<A>
    decreases s.len(),
{
    if s.len() == 0 || keep.len() != s.len() {
        Seq::empty()
    } else if keep.last() {
        filter_mask(s.drop_last(), keep.drop_last()).push(s.last())
    } else {
        filter_mask(s.drop_last(), keep.drop_last())
    }
}

/// Whether `f` may be called on every item of `s`.
pub open spec fn callable_on<A, F: Fn(&A) -> bool>(f: F, s: Seq<A>) -> bool {
    forall|i: int| 0 <= i < s.len() ==> call_requires(f, (&#[trigger] s[i],))
}

/// Whether `after` is what is left of `before` when `f` is asked once for
/// each position and the items it accepts are kept, in their order.
pub open spec fn retained_by<A, F: Fn(&A) -> bool>(f: F, before: Seq<A>, after: Seq<A>) -> bool {
    exists|keep: Seq<bool>|
        {
            &&& keep.len() == before.len()
            &&& forall|i: int|
                0 <= i < keep.len() ==> call_ensures(f, (&before[i],), #[trigger] keep[i])
            &&& after == filter_mask(before, keep)
        }
}

/// Where `f` answers as `pred` does, what it retains is `pred`'s filter.
pub proof fn lemma_retained_is_filter<A, F: Fn(&A) -> bool>(
    f: F,
    before: Seq<A>,
    after: Seq<A>,
    pred: spec_fn(A) -> bool,
)
    requires
        retained_by(f, before, after),
        forall|x: A, b: bool| call_ensures(f, (&x,), b) ==> b == pred(x),
    ensures
        after == before.filter(pred),
{
    let keep = choose|keep: Seq<bool>|
        {
            &&& keep.len() == before.len()
            &&& forall|i: int|
                0 <= i < keep.len() ==> call_ensures(f, (&before[i],), #[trigger] keep[i])
            &&& after == filter_mask(before, keep)
        };
    assert forall|i: int| 0 <= i < before.len() implies keep[i] == pred(before[i]) by {
        assert(call_ensures(f, (&before[i],), keep[i]));
    }
    lemma_mask_is_filter(before, keep, pred);
}

/// A mask that agrees with a predicate on every item selects what the
/// predicate's filter selects.
pub proof fn lemma_mask_is_filter<A>(s: Seq<A>, keep: Seq<bool>, pred: spec_fn(A) -> bool)
    requires
        keep.len() == s.len(),
        forall|i: int| 0 <= i < s.len() ==> keep[i] == pred(s[i]),
    ensures
        filter_mask(s, keep) == s.filter(pred),
    decreases s.len(),
{
    reveal(Seq::filter);
    if s.len() > 0 {
        lemma_mask_is_filter(s.drop_last(), keep.drop_last(), pred);
    }
}

/// The set of a sequence with one more item is the sequence's set with that
/// item.
pub proof fn lemma_push_to_set<A>(s: Seq<A>, x: A)
    ensures
        s.push(x).to_set() == s.to_set().insert(x),
{
    let more = s.push(x);
    assert forall|y: A| more.to_set().contains(y) == s.to_set().insert(x).contains(y) by {
        if more.contains(y) {
            let k = choose|k: int| 0 <= k < more.len() && more[k] == y;
            if k < s.len() {
                assert(s[k] == y);
            }
        }
        if s.contains(y) {
            let k = choose|k: int| 0 <= k < s.len() && s[k] == y;
            assert(more[k] == y);
        }
        if y == x {
            assert(more[s.len() as int] == y);
        }
    }
}

/// What a filter keeps: an item is in the result exactly when it is in the
/// source and meets the predicate.
pub proof fn lemma_filter_contains_iff<A>(s: Seq<A>, pred: spec_fn(A) -> bool, x: A)
    ensures
        s.filter(pred).contains(x) <==> s.contains(x) && pred(x),
    decreases s.len(),
{
    reveal(Seq::filter);
    if s.len() > 0 {
        let rest = s.drop_last();
        lemma_filter_contains_iff(rest, pred, x);
        let sub = rest.filter(pred);
        if s.filter(pred).contains(x) {
            let j = choose|j: int| 0 <= j < s.filter(pred).len() && s.filter(pred)[j] == x;
            if pred(s.last()) && j == sub.len() {
                assert(s[s.len() - 1] == x);
            } else {
                assert(sub[j] == x);
                let k = choose|k: int| 0 <= k < rest.len() && rest[k] == x;
                assert(s[k] == x);
            }
        }
        if s.contains(x) && pred(x) {
            let k = choose|k: int| 0 <= k < s.len() && s[k] == x;
            if k == s.len() - 1 {
                assert(s.filter(pred)[sub.len() as int] == x);
            } else {
                assert(rest[k] == x);
                let j = choose|j: int| 0 <= j < sub.len() && sub[j] == x;
                assert(s.filter(pred)[j] == x);
            }
        }
    }
}

/// A filter of a sequence without repeats has no repeats.
pub proof fn lemma_filter_no_duplicates<A>(s: Seq<A>, pred: spec_fn(A) -> bool)
    requires
        s.no_duplicates(),
    ensures
        s.filter(pred).no_duplicates(),
    decreases s.len(),
{
    reveal(Seq::filter);
    if s.len() > 0 {
        let rest = s.drop_last();
        lemma_filter_no_duplicates(rest, pred);
        let sub = rest.filter(pred);
        if pred(s.last()) {
            lemma_filter_contains_iff(rest, pred, s.last());
            if rest.contains(s.last()) {
                let k = choose|k: int| 0 <= k < rest.len() && rest[k] == s.last();
                assert(s[k] == s[s.len() - 1]);
            }
            assert forall|i: int, j: int|
                0 <= i < sub.len() + 1 && 0 <= j < sub.len() + 1 && i != j implies sub.push(
                s.last(),
            )[i] != sub.push(s.last())[j] by {
                if i == sub.len() {
                    assert(sub.contains(sub[j]));
                } else if j == sub.len() {
                    assert(sub.contains(sub[i]));
                }
            }
        }
    }
}

/// Removing the first occurrence of `x` from a sequence without repeats
/// leaves every other item, once, and no `x`.
pub proof fn lemma_remove_value_no_duplicates<A>(s: Seq<A>, x: A)
    requires
        s.no_duplicates(),
    ensures
        s.remove_value(x).no_duplicates(),
        forall|y: A| #[trigger] s.remove_value(x).contains(y) <==> s.contains(y) && y != x,
        s.contains(x) ==> s.remove_value(x).len() == s.len() - 1,
        !s.contains(x) ==> s.remove_value(x) == s,
{
    s.index_of_first_ensures(x);
    let r = s.remove_value(x);
    match s.index_of_first(x) {
        Some(i) => {
            assert forall|y: A| #[trigger] r.contains(y) <==> s.contains(y) && y != x by {
                if r.contains(y) {
                    let j = choose|j: int| 0 <= j < r.len() && r[j] == y;
                    if j < i {
                        assert(s[j] == y);
                    } else {
                        assert(s[j + 1] == y);
                    }
                }
                if s.contains(y) && y != x {
                    let k = choose|k: int| 0 <= k < s.len() && s[k] == y;
                    if k < i {
                        assert(r[k] == y);
                    } else {
                        assert(r[k - 1] == y);
                    }
                }
            }
        },
        None => {},
    }
}

/// Putting `mid` in at `index` among the items of `s` that `mid` does not
/// hold: the result holds what either holds, and nothing twice where neither
/// holds anything twice.
pub proof fn lemma_inserted_no_duplicates<A>(
    s: Seq<A>,
    mid: Seq<A>,
    apart: spec_fn(A) -> bool,
    index: int,
)
    requires
        s.no_duplicates(),
        mid.no_duplicates(),
        forall|x: A| #[trigger] apart(x) == !mid.contains(x),
        0 <= index <= s.filter(apart).len(),
    ensures
        ({
            let stay = s.filter(apart);
            let all = stay.subrange(0, index) + mid + stay.subrange(index, stay.len() as int);
            &&& all.no_duplicates()
            &&& all.len() == stay.len() + mid.len()
            &&& forall|x: A| #[trigger] all.contains(x) <==> s.contains(x) || mid.contains(x)
        }),
{
    let stay = s.filter(apart);
    let head = stay.subrange(0, index);
    let tail = stay.subrange(index, stay.len() as int);
    let all = head + mid + tail;
    lemma_filter_no_duplicates(s, apart);
    assert forall|k: int| 0 <= k < stay.len() implies !mid.contains(#[trigger] stay[k]) by {
        lemma_filter_contains_iff(s, apart, stay[k]);
        assert(stay.contains(stay[k]));
    }
    assert forall|i: int, j: int| 0 <= i < all.len() && 0 <= j < all.len() && i != j implies all[i]
        != all[j] by {
        let a = all[i];
        let b = all[j];
        if i < index {
            assert(a == stay[i]);
        } else if i < index + mid.len() {
            assert(a == mid[i - index]);
        } else {
            assert(a == stay[i - mid.len()]);
        }
        if j < index {
            assert(b == stay[j]);
        } else if j < index + mid.len() {
            assert(b == mid[j - index]);
        } else {
            assert(b == stay[j - mid.len()]);
        }
    }
    assert forall|x: A| #[trigger] all.contains(x) <==> s.contains(x) || mid.contains(x) by {
        lemma_filter_contains_iff(s, apart, x);
        if all.contains(x) {
            let i = choose|i: int| 0 <= i < all.len() && all[i] == x;
            if i < index {
                assert(stay[i] == x);
            } else if i < index + mid.len() {
                assert(mid[i - index] == x);
            } else {
                assert(stay[i - mid.len()] == x);
            }
        }
        if mid.contains(x) {
            let k = choose|k: int| 0 <= k < mid.len() && mid[k] == x;
            assert(all[index + k] == x);
        } else if s.contains(x) {
            let k = choose|k: int| 0 <= k < stay.len() && stay[k] == x;
            if k < index {
                assert(all[k] == x);
            } else {
                assert(all[k + mid.len()] == x);
            }
        }
    }
}

/// Filtering one item out of a sequence without repeats that holds it
/// shortens the sequence by one.
pub proof fn lemma_filter_out_one<A>(s: Seq<A>, x: A)
    requires
        s.no_duplicates(),
        s.contains(x),
    ensures
        s.filter(|y: A| y != x).len() == s.len() - 1,
    decreases s.len(),
{
    reveal(Seq::filter);
    let pred = |y: A| y != x;
    let rest = s.drop_last();
    if s.last() == x {
        assert forall|i: int| 0 <= i < rest.len() implies pred(rest[i]) by {
            assert(rest[i] == s[i]);
        }
        lemma_filter_all(rest, pred);
    } else {
        let k = choose|k: int| 0 <= k < s.len() && s[k] == x;
        assert(rest[k] == x);
        lemma_filter_out_one(rest, x);
    }
}

/// A filter that every item passes changes nothing.
pub proof fn lemma_filter_all<A>(s: Seq<A>, pred: spec_fn(A) -> bool)
    requires
        forall|i: int| 0 <= i < s.len() ==> pred(#[trigger] s[i]),
    ensures
        s.filter(pred) == s,
    decreases s.len(),
{
    reveal(Seq::filter);
    if s.len() > 0 {
        let rest = s.drop_last();
        assert forall|i: int| 0 <= i < rest.len() implies pred(#[trigger] rest[i]) by {
            assert(rest[i] == s[i]);
        }
        lemma_filter_all(rest, pred);
        assert(rest.push(s.last()) == s);
    }
}

/// The items of `s`, each once, in the order in which they first occur.
pub open spec fn distinct<A>(s: Seq<A>) -> Seq<A>
    decreases s.len(),
{
    if s.len() == 0 {
        Seq::empty()
    } else {
        let front = distinct(s.drop_last());
        if front.contains(s.last()) {
            front
        } else {
            front.push(s.last())
        }
    }
}

/// What `distinct` keeps: every item, once; and everything as it is where
/// nothing occurs twice.
pub proof fn lemma_distinct<A>(s: Seq<A>)
    ensures
        distinct(s).no_duplicates(),
        forall|x: A| #[trigger] distinct(s).contains(x) <==> s.contains(x),
        distinct(s).len() <= s.len(),
        s.no_duplicates() ==> distinct(s) == s,
    decreases s.len(),
{
    if s.len() > 0 {
        let rest = s.drop_last();
        let front = distinct(rest);
        lemma_distinct(rest);
        let all = distinct(s);
        assert forall|x: A| #[trigger] all.contains(x) <==> s.contains(x) by {
            assert(front.contains(x) <==> rest.contains(x));
            if all.contains(x) {
                let k = choose|k: int| 0 <= k < all.len() && all[k] == x;
                if k < front.len() {
                    assert(front[k] == x);
                    let r = choose|r: int| 0 <= r < rest.len() && rest[r] == x;
                    assert(s[r] == x);
                } else {
                    assert(s[s.len() - 1] == x);
                }
            }
            if s.contains(x) {
                let k = choose|k: int| 0 <= k < s.len() && s[k] == x;
                if k < rest.len() {
                    assert(rest[k] == x);
                    let f = choose|f: int| 0 <= f < front.len() && front[f] == x;
                    assert(all[f] == x);
                } else if front.contains(x) {
                } else {
                    assert(all[front.len() as int] == x);
                }
            }
        }
        if !front.contains(s.last()) {
            assert forall|i: int, j: int|
                0 <= i < all.len() && 0 <= j < all.len() && i != j implies all[i] != all[j] by {
                if i == front.len() {
                    assert(front.contains(front[j]));
                }
                if j == front.len() {
                    assert(front.contains(front[i]));
                }
            }
        }
        if s.no_duplicates() {
            assert(rest.no_duplicates()) by {
                assert forall|i: int, j: int|
                    0 <= i < rest.len() && 0 <= j < rest.len() && i != j implies rest[i]
                    != rest[j] by {
                    assert(rest[i] == s[i] && rest[j] == s[j]);
                }
            }
            if rest.contains(s.last()) {
                let r = choose|r: int| 0 <= r < rest.len() && rest[r] == s.last();
                assert(s[r] == s[s.len() - 1]);
            }
            assert(rest.push(s.last()) == s);
        }
    }
}

} // verus!
