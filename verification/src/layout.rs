//! Facts about how the parts of a record lie one after the other.
use vstd::prelude::*;
use crate::expr::Expr;
use crate::shape::{
    extend, gather, gather_guarded, guarded, join, join_pattern, repeat, sort_in, span, Shape,
    Step,
};
use crate::sort::Sort;

verus! {

/// The first `k + 1` parts take the leaves of the first `k` and those of
/// part `k`, and no more than all parts together.
pub proof fn lemma_span_take(entries: Seq<(int, Shape)>, extra: nat, k: int)
    requires
        0 <= k < entries.len(),
    ensures
        span(entries.take(k + 1), extra) == span(entries.take(k), extra) + extra
            + entries[k].1.leaves(),
        span(entries.take(k + 1), extra) <= span(entries, extra),
    decreases entries.len(),
{
    assert(entries.take(k + 1).drop_last() =~= entries.take(k));
    assert(entries.take(k + 1).last() == entries[k]);
    if k + 1 == entries.len() {
        assert(entries.take(k + 1) =~= entries);
    } else {
        lemma_span_take(entries.drop_last(), extra, k);
        assert(entries.drop_last().take(k + 1) =~= entries.take(k + 1));
    }
}

/// No parts take no leaves, and all parts are the whole.
pub proof fn lemma_span_ends(entries: Seq<(int, Shape)>, extra: nat)
    ensures
        span(entries.take(0), extra) == 0,
        entries.take(entries.len() as int) == entries,
{
    assert(entries.take(entries.len() as int) =~= entries);
}

/// The leaves that part `k` takes are its selectors and then its own.
pub proof fn lemma_sort_in_part(entries: Seq<(int, Shape)>, extra: nat, k: int, i: int)
    requires
        0 <= k < entries.len(),
        span(entries.take(k), extra) <= i < span(entries.take(k + 1), extra),
    ensures
        sort_in(entries, extra, i) == if i < span(entries.take(k), extra) + extra {
            Sort::Bool
        } else {
            entries[k].1.sort_at(i - span(entries.take(k), extra) - extra)
        },
    decreases entries.len(),
{
    lemma_span_take(entries, extra, k);
    if k + 1 == entries.len() {
        assert(entries.drop_last() =~= entries.take(k));
    } else {
        lemma_span_take(entries.drop_last(), extra, k);
        assert(entries.drop_last().take(k + 1) =~= entries.take(k + 1));
        assert(entries.drop_last().take(k) =~= entries.take(k));
        lemma_sort_in_part(entries.drop_last(), extra, k, i);
    }
}

/// The constraints of the first `k + 1` parts are those of the first `k`
/// and then those of part `k`.
pub proof fn lemma_gather_take(
    entries: Seq<(int, Shape)>,
    from: nat,
    leaf: spec_fn(nat) -> Expr,
    k: int,
)
    requires
        0 <= k < entries.len(),
    ensures
        gather(entries.take(k + 1), from, leaf) == gather(entries.take(k), from, leaf)
            + entries[k].1.constraints(from + span(entries.take(k), 0), leaf),
        gather_guarded(entries.take(k + 1), from, leaf) == gather_guarded(
            entries.take(k),
            from,
            leaf,
        ) + guarded(
            leaf(from + span(entries.take(k), 1)),
            entries[k].1.constraints(from + span(entries.take(k), 1) + 1, leaf),
        ),
{
    assert(entries.take(k + 1).drop_last() =~= entries.take(k));
    assert(entries.take(k + 1).last() == entries[k]);
}

/// Putting entries in front of a rest one after the other is putting them
/// in front together.
pub proof fn lemma_extend_twice(
    first: Seq<(int, Shape)>,
    second: Seq<(int, Shape)>,
    rest: Option<Seq<(int, Shape)>>,
)
    ensures
        extend(first, extend(second, rest)) == extend(first + second, rest),
{
    match rest {
        Some(rest) => {
            assert(first + (second + rest) =~= (first + second) + rest);
        },
        None => {},
    }
}

/// Every part of `entries` is bounded.
pub open spec fn parts_bounded(entries: Seq<(int, Shape)>) -> bool {
    forall|k: int| 0 <= k < entries.len() ==> (#[trigger] entries[k]).1.bounded()
}

/// The record of one part.
pub open spec fn one(part: Shape) -> Seq<(int, Shape)> {
    seq![(0int, part)]
}

/// The record of two parts.
pub open spec fn two(first: Shape, second: Shape) -> Seq<(int, Shape)> {
    seq![(0int, first), (1int, second)]
}

/// The layout of a record of no part.
pub proof fn lemma_none(from: nat, leaf: spec_fn(nat) -> Expr)
    ensures
        span(Seq::empty(), 0) == 0,
        gather(Seq::empty(), from, leaf) == Seq::<Expr>::empty(),
        join(Seq::empty(), Seq::empty(), 0, 0) == Some(Seq::<(int, Shape)>::empty()),
        join_pattern(Seq::empty(), Seq::empty(), 0, 0, 0) == Seq::<Step>::empty(),
{
}

/// The layout of a record of one part.
pub proof fn lemma_one(part: Shape, from: nat, leaf: spec_fn(nat) -> Expr)
    ensures
        span(one(part), 0) == part.leaves(),
        forall|i: int|
            0 <= i < part.leaves() ==> #[trigger] sort_in(one(part), 0, i) == part.sort_at(i),
        gather(one(part), from, leaf) == part.constraints(from, leaf),
{
    let entries = one(part);
    assert(entries.drop_last() =~= Seq::empty());
    assert(span(entries.drop_last(), 0) == 0);
    assert(gather(entries.drop_last(), from, leaf) =~= Seq::empty());
    assert(gather(entries, from, leaf) =~= part.constraints(from, leaf));
    assert forall|i: int| 0 <= i < part.leaves() implies #[trigger] sort_in(entries, 0, i)
        == part.sort_at(i) by {
    }
}

/// The layout of a record of two parts.
pub proof fn lemma_two(first: Shape, second: Shape, from: nat, leaf: spec_fn(nat) -> Expr)
    ensures
        span(two(first, second), 0) == first.leaves() + second.leaves(),
        forall|i: int|
            0 <= i < first.leaves() + second.leaves() ==> #[trigger] sort_in(
                two(first, second),
                0,
                i,
            ) == if i < first.leaves() {
                first.sort_at(i)
            } else {
                second.sort_at(i - first.leaves())
            },
        gather(two(first, second), from, leaf) == first.constraints(from, leaf)
            + second.constraints(from + first.leaves(), leaf),
{
    let entries = two(first, second);
    assert(entries.drop_last() =~= one(first));
    lemma_one(first, from, leaf);
    assert forall|i: int| 0 <= i < first.leaves() + second.leaves() implies #[trigger] sort_in(
        entries,
        0,
        i,
    ) == if i < first.leaves() {
        first.sort_at(i)
    } else {
        second.sort_at(i - first.leaves())
    } by {
        if i < first.leaves() {
            assert(sort_in(entries, 0, i) == sort_in(one(first), 0, i));
        }
    }
}

/// Merging a record of one part with a record of no part, either way.
pub proof fn lemma_join_one_none(part: Shape)
    ensures
        join(one(part), Seq::empty(), 0, 0) == Some(one(part)),
        join(Seq::empty(), one(part), 0, 0) == Some(one(part)),
        join_pattern(one(part), Seq::empty(), 0, 0, 0) == repeat(Step::Left, part.leaves()),
        join_pattern(Seq::empty(), one(part), 0, 0, 0) == repeat(Step::Right, part.leaves()),
{
    let entries = one(part);
    let none = Seq::<(int, Shape)>::empty();
    assert(join(entries, none, 1, 0) == Some(none));
    assert(join(none, entries, 0, 1) == Some(none));
    assert(seq![entries[0]] + none =~= entries);
    assert(join_pattern(entries, none, 0, 1, 0) =~= Seq::<Step>::empty());
    assert(join_pattern(none, entries, 0, 0, 1) =~= Seq::<Step>::empty());
    assert(repeat(Step::Left, part.leaves()) + Seq::<Step>::empty() =~= repeat(
        Step::Left,
        part.leaves(),
    ));
    assert(repeat(Step::Right, part.leaves()) + Seq::<Step>::empty() =~= repeat(
        Step::Right,
        part.leaves(),
    ));
}

/// Merging two records of one part each.
pub proof fn lemma_join_one(left: Shape, right: Shape)
    ensures
        join(one(left), one(right), 0, 0) == match left.merge(right) {
            Some(merged) => Some(one(merged)),
            None => None,
        },
        join_pattern(one(left), one(right), 0, 0, 0) == left.pattern(right),
{
    let a = one(left);
    let b = one(right);
    assert(join(a, b, 1, 1) == Some(Seq::<(int, Shape)>::empty()));
    assert(join_pattern(a, b, 0, 1, 1) =~= Seq::<Step>::empty());
    assert(repeat(Step::Both, 0) =~= Seq::<Step>::empty());
    assert(repeat(Step::Both, 0) + left.pattern(right) + Seq::<Step>::empty() =~= left.pattern(
        right,
    ));
    match left.merge(right) {
        Some(merged) => {
            assert(seq![(a[0].0, merged)] + Seq::<(int, Shape)>::empty() =~= one(merged));
        },
        None => {},
    }
}

/// Merging two records of two parts each.
pub proof fn lemma_join_two(a: Shape, b: Shape, c: Shape, d: Shape)
    ensures
        join(two(a, b), two(c, d), 0, 0) == match (a.merge(c), b.merge(d)) {
            (Some(first), Some(second)) => Some(two(first, second)),
            _ => None,
        },
        join_pattern(two(a, b), two(c, d), 0, 0, 0) == a.pattern(c) + b.pattern(d),
{
    let left = two(a, b);
    let right = two(c, d);
    let none = Seq::<(int, Shape)>::empty();
    assert(join(left, right, 2, 2) == Some(none));
    assert(join_pattern(left, right, 0, 2, 2) =~= Seq::<Step>::empty());
    assert(repeat(Step::Both, 0) =~= Seq::<Step>::empty());
    assert(join_pattern(left, right, 0, 1, 1) =~= b.pattern(d)) by {
        assert(repeat(Step::Both, 0) + b.pattern(d) + Seq::<Step>::empty() =~= b.pattern(d));
    }
    assert(join_pattern(left, right, 0, 0, 0) =~= a.pattern(c) + b.pattern(d)) by {
        assert(repeat(Step::Both, 0) + a.pattern(c) + b.pattern(d) =~= a.pattern(c) + b.pattern(d));
    }
    match b.merge(d) {
        Some(second) => {
            assert(seq![(1int, second)] + none =~= seq![(1int, second)]);
            assert(join(left, right, 1, 1) == Some(seq![(1int, second)]));
            match a.merge(c) {
                Some(first) => {
                    assert(seq![(0int, first)] + seq![(1int, second)] =~= two(first, second));
                },
                None => {},
            }
        },
        None => {
            assert(join(left, right, 1, 1) is None);
        },
    }
}

} // verus!
