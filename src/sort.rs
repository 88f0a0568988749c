//! Recursive partition sort: the first element is the pivot, the remaining elements
//! are split into those below it and those at or above it, both parts are sorted in
//! turn, and the results are joined around the pivot.
use vstd::prelude::*;
use vstd::seq_lib::*;

use crate::float_bits::{float_ge, float_lt, is_nan, rank, spec_ge, spec_le, spec_lt};

verus! {

broadcast use group_seq_lib_default, group_to_multiset_ensures, lemma_multiset_commutative;

/// The elements of `s` below the pivot `p`, in their order.
pub open spec fn below(s: Seq<u64>, p: u64) -> Seq<u64> {
    s.filter(|x: u64| spec_lt(x, p))
}

/// The elements of `s` at or above the pivot `p`, in their order.
pub open spec fn at_or_above(s: Seq<u64>, p: u64) -> Seq<u64> {
    s.filter(|x: u64| spec_ge(x, p))
}

/// No element of `s` is NaN.
pub open spec fn no_nan(s: Seq<u64>) -> bool {
    forall|i: int| 0 <= i < s.len() ==> !is_nan(#[trigger] s[i])
}

/// Every element of `s` is at most each element after it.
pub open spec fn is_ordered(s: Seq<u64>) -> bool {
    forall|i: int, j: int| 0 <= i < j < s.len() ==> rank(#[trigger] s[i]) <= rank(#[trigger] s[j])
}

/// The elements of `s` that compare equal to a value of rank `v`, in their order.
pub open spec fn value_class(s: Seq<u64>, v: int) -> Seq<u64> {
    s.filter(|x: u64| rank(x) == v)
}

/// `r` is `xs` in non-decreasing order: the same elements with the same multiplicities,
/// and elements that compare equal keep their relative order.
pub open spec fn is_sorting_of(xs: Seq<u64>, r: Seq<u64>) -> bool {
    &&& r.to_multiset() == xs.to_multiset()
    &&& is_ordered(r)
    &&& forall|v: int| #[trigger] value_class(r, v) == value_class(xs, v)
}

/// Without NaN, every element lands on exactly one side of the pivot, and each class of
/// equal values lands whole on the side its rank puts it.
proof fn lemma_partition(s: Seq<u64>, p: u64)
    requires
        no_nan(s),
        !is_nan(p),
    ensures
        s.to_multiset() == below(s, p).to_multiset().add(at_or_above(s, p).to_multiset()),
        forall|v: int|
            v < rank(p) ==> #[trigger] value_class(below(s, p), v) == value_class(s, v)
                && value_class(at_or_above(s, p), v) == Seq::<u64>::empty(),
        forall|v: int|
            v >= rank(p) ==> #[trigger] value_class(at_or_above(s, p), v) == value_class(s, v)
                && value_class(below(s, p), v) == Seq::<u64>::empty(),
    decreases s.len(),
{
    reveal(Seq::filter);
    if s.len() > 0 {
        let d = s.drop_last();
        let x = s.last();
        assert(d.push(x) == s);
        lemma_partition(d, p);
        assert forall|v: int| #[trigger] value_class(below(s, p), v) == (if spec_lt(x, p) && rank(x) == v {
            value_class(below(d, p), v).push(x)
        } else {
            value_class(below(d, p), v)
        }) by {
            if spec_lt(x, p) {
                below(d, p).lemma_filter_push(x, |y: u64| rank(y) == v);
            }
        }
        assert forall|v: int| #[trigger] value_class(at_or_above(s, p), v) == (if spec_ge(x, p) && rank(x) == v {
            value_class(at_or_above(d, p), v).push(x)
        } else {
            value_class(at_or_above(d, p), v)
        }) by {
            if spec_ge(x, p) {
                at_or_above(d, p).lemma_filter_push(x, |y: u64| rank(y) == v);
            }
        }
        assert forall|v: int| #[trigger] value_class(s, v) == (if rank(x) == v {
            value_class(d, v).push(x)
        } else {
            value_class(d, v)
        }) by {
            d.lemma_filter_push(x, |y: u64| rank(y) == v);
        }
        assert forall|v: int| v < rank(p) implies #[trigger] value_class(below(s, p), v) == value_class(s, v)
            && value_class(at_or_above(s, p), v) == Seq::<u64>::empty() by {
            assert(value_class(below(d, p), v) == value_class(d, v));
            assert(value_class(at_or_above(d, p), v) == Seq::<u64>::empty());
            if spec_lt(x, p) {
                assert(!spec_ge(x, p));
            } else {
                assert(rank(x) != v);
            }
        }
        assert forall|v: int| v >= rank(p) implies #[trigger] value_class(at_or_above(s, p), v) == value_class(s, v)
            && value_class(below(s, p), v) == Seq::<u64>::empty() by {
            assert(value_class(at_or_above(d, p), v) == value_class(d, v));
            assert(value_class(below(d, p), v) == Seq::<u64>::empty());
            if spec_lt(x, p) {
                assert(rank(x) != v);
            } else {
                assert(spec_ge(x, p));
            }
        }
    }
}

/// No element lands on both sides of a pivot.
proof fn lemma_partition_len(s: Seq<u64>, p: u64)
    ensures
        below(s, p).len() + at_or_above(s, p).len() <= s.len(),
    decreases s.len(),
{
    reveal(Seq::filter);
    if s.len() > 0 {
        lemma_partition_len(s.drop_last(), p);
    }
}

/// Joining sorted partitions around the pivot sorts the whole.
proof fn lemma_join_sorted(xs: Seq<u64>, low: Seq<u64>, high: Seq<u64>)
    requires
        xs.len() > 0,
        no_nan(xs),
        is_sorting_of(below(xs.drop_first(), xs[0]), low),
        is_sorting_of(at_or_above(xs.drop_first(), xs[0]), high),
    ensures
        is_sorting_of(xs, low + seq![xs[0]] + high),
{
    let p = xs[0];
    let rest = xs.drop_first();
    let r = low + seq![p] + high;
    assert(xs == seq![p] + rest);
    assert(no_nan(rest));
    lemma_partition(rest, p);
    assert(r.to_multiset() =~= xs.to_multiset());
    assert forall|x: u64| low.contains(x) implies spec_lt(x, p) by {
        assert(low.to_multiset().count(x) > 0);
        assert(below(rest, p).contains(x));
    }
    assert forall|x: u64| high.contains(x) implies spec_ge(x, p) by {
        assert(high.to_multiset().count(x) > 0);
        assert(at_or_above(rest, p).contains(x));
    }
    assert forall|i: int, j: int| 0 <= i < j < r.len() implies rank(#[trigger] r[i]) <= rank(#[trigger] r[j]) by {
        if i < low.len() {
            assert(low.contains(r[i]));
        }
        if j > low.len() {
            assert(high.contains(r[j]));
        }
    }
    assert forall|v: int| #[trigger] value_class(r, v) == value_class(xs, v) by {
        let f = |y: u64| rank(y) == v;
        Seq::filter_distributes_over_add(low + seq![p], high, f);
        Seq::filter_distributes_over_add(low, seq![p], f);
        Seq::filter_distributes_over_add(seq![p], rest, f);
        reveal_with_fuel(Seq::filter, 2);
        assert(seq![p].drop_last() =~= Seq::<u64>::empty());
        assert(value_class(low, v) == value_class(below(rest, p), v));
        assert(value_class(high, v) == value_class(at_or_above(rest, p), v));
        if v < rank(p) {
            assert(value_class(seq![p], v) =~= Seq::<u64>::empty());
        } else {
            assert(value_class(below(rest, p), v) =~= Seq::<u64>::empty());
        }
    }
}

/// Two ordered sequences in which every class of equal values appears in the same
/// order are the same sequence.
proof fn lemma_ordered_classes_unique(a: Seq<u64>, b: Seq<u64>)
    requires
        is_ordered(a),
        is_ordered(b),
        forall|v: int| #[trigger] value_class(a, v) == value_class(b, v),
    ensures
        a == b,
    decreases a.len() + b.len(),
{
    reveal(Seq::filter);
    if a.len() == 0 && b.len() == 0 {
        assert(a =~= b);
    } else if a.len() == 0 {
        assert(value_class(b, rank(b.last())).len() > 0);
        assert(value_class(a, rank(b.last())) == value_class(b, rank(b.last())));
    } else if b.len() == 0 {
        assert(value_class(a, rank(a.last())).len() > 0);
        assert(value_class(a, rank(a.last())) == value_class(b, rank(a.last())));
    } else {
        let x = a.last();
        let y = b.last();
        let a1 = a.drop_last();
        let b1 = b.drop_last();
        assert(value_class(a, rank(x)) == value_class(b, rank(x)));
        assert(value_class(a, rank(y)) == value_class(b, rank(y)));
        assert(value_class(a, rank(x)).last() == x);
        assert(value_class(b, rank(y)).last() == y);
        b.lemma_filter_contains_rev(|z: u64| rank(z) == rank(x), x);
        a.lemma_filter_contains_rev(|z: u64| rank(z) == rank(y), y);
        let k = choose|k: int| 0 <= k < b.len() && b[k] == x;
        let m = choose|m: int| 0 <= m < a.len() && a[m] == y;
        assert(rank(b[k]) <= rank(b[b.len() - 1]));
        assert(rank(a[m]) <= rank(a[a.len() - 1]));
        assert(x == y);
        assert forall|v: int| #[trigger] value_class(a1, v) == value_class(b1, v) by {
            assert(value_class(a, v) == value_class(b, v));
            if v == rank(x) {
                assert(value_class(a1, v) == value_class(a, v).drop_last());
                assert(value_class(b1, v) == value_class(b, v).drop_last());
            } else {
                assert(value_class(a1, v) == value_class(a, v));
            }
        }
        assert(is_ordered(a1));
        assert(is_ordered(b1));
        lemma_ordered_classes_unique(a1, b1);
        assert(a =~= a1.push(x));
        assert(b =~= b1.push(y));
    }
}

/// A sorted arrangement is unique: any two sortings of the same sequence are equal.
pub proof fn law_sorting_unique(xs: Seq<u64>, r1: Seq<u64>, r2: Seq<u64>)
    requires
        is_sorting_of(xs, r1),
        is_sorting_of(xs, r2),
    ensures
        r1 == r2,
{
    assert forall|v: int| #[trigger] value_class(r1, v) == value_class(r2, v) by {
        assert(value_class(r1, v) == value_class(xs, v));
        assert(value_class(r2, v) == value_class(xs, v));
    }
    lemma_ordered_classes_unique(r1, r2);
}

/// In the sorting of a sequence without NaN, each element is at most (floating-point
/// `<=`) the one after it.
pub proof fn law_adjacent_in_order(xs: Seq<u64>, r: Seq<u64>)
    requires
        no_nan(xs),
        is_sorting_of(xs, r),
    ensures
        forall|i: int| 0 <= i < r.len() - 1 ==> #[trigger] spec_le(r[i], r[i + 1]),
{
    lemma_sorting_keeps_no_nan(xs, r);
    assert forall|i: int| 0 <= i < r.len() - 1 implies #[trigger] spec_le(r[i], r[i + 1]) by {
        assert(!is_nan(r[i]) && !is_nan(r[i + 1]));
        assert(rank(r[i]) <= rank(r[i + 1]));
    }
}

/// Sorting a sequence without NaN yields one without NaN.
proof fn lemma_sorting_keeps_no_nan(xs: Seq<u64>, r: Seq<u64>)
    requires
        no_nan(xs),
        is_sorting_of(xs, r),
    ensures
        no_nan(r),
{
    assert forall|i: int| 0 <= i < r.len() implies !is_nan(#[trigger] r[i]) by {
        assert(r.to_multiset().count(r[i]) > 0);
        assert(xs.contains(r[i]));
    }
}

/// Sorting is idempotent: sorting the sorting of a sequence without NaN gives it back.
/// The sorting has no NaN either, so it is itself a valid input.
pub proof fn law_sorted_idempotent(xs: Seq<u64>, r: Seq<u64>, r2: Seq<u64>)
    requires
        no_nan(xs),
        is_sorting_of(xs, r),
    ensures
        no_nan(r),
        is_sorting_of(r, r2) ==> r2 == r,
{
    lemma_sorting_keeps_no_nan(xs, r);
    if is_sorting_of(r, r2) {
        lemma_ordered_classes_unique(r2, r);
    }
}

/// Sorts `xs` into non-decreasing order of value, as the floating-point `<` orders it.
///
/// The first element is the pivot; the other elements below it and those at or above
/// it are sorted recursively and placed before and after it, so values that compare
/// equal keep their input order. Recursion depth can reach the length of `xs` (for
/// input that is already sorted, either way round).
///
/// NaN compares neither below nor at or above any pivot: where `xs` holds NaN, what
/// comes back is only known to be no longer than `xs`.
pub fn sorted(xs: Vec<u64>) -> (r: Vec<u64>)
    ensures
        no_nan(xs@) ==> is_sorting_of(xs@, r@),
        r@.len() <= xs@.len(),
    decreases xs@.len(),
{
    if xs.len() == 0 {
        assert(xs@ =~= Seq::<u64>::empty());
        return Vec::new();
    }
    let pivot = xs[0];
    let mut start: Vec<u64> = Vec::new();
    let mut end: Vec<u64> = Vec::new();
    let mut i: usize = 1;
    while i < xs.len()
        invariant
            1 <= i <= xs@.len(),
            start@ == below(xs@.subrange(1, i as int), pivot),
            end@ == at_or_above(xs@.subrange(1, i as int), pivot),
        decreases xs@.len() - i,
    {
        let x = xs[i];
        proof {
            assert(xs@.subrange(1, i + 1) == xs@.subrange(1, i as int).push(x));
            xs@.subrange(1, i as int).lemma_filter_push(x, |y: u64| spec_lt(y, pivot));
            xs@.subrange(1, i as int).lemma_filter_push(x, |y: u64| spec_ge(y, pivot));
        }
        if float_lt(x, pivot) {
            start.push(x);
        }
        if float_ge(x, pivot) {
            end.push(x);
        }
        i += 1;
    }
    let ghost rest = xs@.drop_first();
    assert(xs@.subrange(1, xs@.len() as int) == rest);
    proof {
        lemma_partition_len(rest, pivot);
        if no_nan(xs@) {
            assert(no_nan(start@)) by {
                assert forall|k: int| 0 <= k < start@.len() implies !is_nan(#[trigger] start@[k]) by {
                    assert(spec_lt(start@[k], pivot));
                }
            }
            assert(no_nan(end@)) by {
                assert forall|k: int| 0 <= k < end@.len() implies !is_nan(#[trigger] end@[k]) by {
                    assert(spec_ge(end@[k], pivot));
                }
            }
        }
    }
    let mut r = sorted(start);
    let mut high = sorted(end);
    let ghost low = r@;
    let ghost high_sorted = high@;
    r.push(pivot);
    r.append(&mut high);
    proof {
        assert(r@ =~= low + seq![pivot] + high_sorted);
        if no_nan(xs@) {
            lemma_join_sorted(xs@, low, high_sorted);
        }
    }
    r
}

} // verus!
