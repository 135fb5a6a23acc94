//! What holds of every shape.
use vstd::prelude::*;
use crate::expr::Expr;
use crate::fold::{lefts, lemma_counts_add, lemma_counts_repeat, rights};
use crate::shape::{
    at_least_one, at_most_one, gather_guarded, join, join_pattern, repeat, rising, selectors,
    sort_in, span, Shape, Step,
};
use crate::sort::Sort;

verus! {

/// The leaves of two runs of parts, one behind the other, add up.
pub proof fn lemma_span_add(first: Seq<(int, Shape)>, second: Seq<(int, Shape)>, extra: nat)
    ensures
        span(first + second, extra) == span(first, extra) + span(second, extra),
    decreases second.len(),
{
    if second.len() == 0 {
        assert(first + second =~= first);
    } else {
        lemma_span_add(first, second.drop_last(), extra);
        assert((first + second).drop_last() =~= first + second.drop_last());
    }
}

/// The leaves of one part.
pub proof fn lemma_span_single(entry: (int, Shape), extra: nat)
    ensures
        span(seq![entry], extra) == extra + entry.1.leaves(),
{
    assert(seq![entry].drop_last() =~= Seq::empty());
    assert(span(seq![entry].drop_last(), extra) == 0);
}

/// The leaves of the parts from `k` on are those of part `k` and those of
/// the parts behind it.
pub proof fn lemma_span_skip(entries: Seq<(int, Shape)>, extra: nat, k: int)
    requires
        0 <= k < entries.len(),
    ensures
        span(entries.skip(k), extra) == extra + entries[k].1.leaves() + span(
            entries.skip(k + 1),
            extra,
        ),
{
    lemma_span_single(entries[k], extra);
    lemma_span_add(seq![entries[k]], entries.skip(k + 1), extra);
    assert(seq![entries[k]] + entries.skip(k + 1) =~= entries.skip(k));
}

/// Merging the parts of a record from `i` on with themselves gives these
/// parts.
pub proof fn lemma_join_self(entries: Seq<(int, Shape)>, i: int)
    requires
        0 <= i <= entries.len(),
    ensures
        join(entries, entries, i, i) == Some(entries.skip(i)),
    decreases entries, entries.len() - i,
{
    if i >= entries.len() {
        assert(entries.skip(i) =~= Seq::empty());
    } else {
        lemma_merge_self(entries[i].1);
        lemma_join_self(entries, i + 1);
        assert(seq![(entries[i].0, entries[i].1)] + entries.skip(i + 1) =~= entries.skip(i));
    }
}

/// Merging a value with itself succeeds and gives its own shape.
pub proof fn lemma_merge_self(shape: Shape)
    ensures
        shape.merge(shape) == Some(shape),
    decreases shape, 0nat,
{
    match shape {
        Shape::Scalar(_) => {},
        Shape::Record(entries) => {
            lemma_join_self(entries, 0);
            assert(entries.skip(0) =~= entries);
        },
        Shape::Choice(alternatives) => {
            lemma_join_self(alternatives, 0);
            assert(alternatives.skip(0) =~= alternatives);
        },
        Shape::Array(index, element) => {
            lemma_merge_self(*element);
        },
    }
}

/// The walk over the parts of `left` from `i` on and those of `right` from
/// `j` on takes every leaf of these parts once.
pub proof fn lemma_join_sides(
    left: Seq<(int, Shape)>,
    right: Seq<(int, Shape)>,
    extra: nat,
    i: int,
    j: int,
)
    requires
        0 <= i <= left.len(),
        0 <= j <= right.len(),
    ensures
        lefts(join_pattern(left, right, extra, i, j)) == span(left.skip(i), extra),
        rights(join_pattern(left, right, extra, i, j)) == span(right.skip(j), extra),
    decreases left, right, left.len() - i + right.len() - j,
{
    if i >= left.len() && j >= right.len() {
        assert(left.skip(i) =~= Seq::empty());
        assert(right.skip(j) =~= Seq::empty());
    } else if j >= right.len() || (i < left.len() && left[i].0 < right[j].0) {
        let run = repeat(Step::Left, extra + left[i].1.leaves());
        let next = join_pattern(left, right, extra, i + 1, j);
        lemma_join_sides(left, right, extra, i + 1, j);
        lemma_counts_repeat(Step::Left, extra + left[i].1.leaves());
        lemma_counts_add(run, next);
        lemma_span_skip(left, extra, i);
    } else if i >= left.len() || right[j].0 < left[i].0 {
        let run = repeat(Step::Right, extra + right[j].1.leaves());
        let next = join_pattern(left, right, extra, i, j + 1);
        lemma_join_sides(left, right, extra, i, j + 1);
        lemma_counts_repeat(Step::Right, extra + right[j].1.leaves());
        lemma_counts_add(run, next);
        lemma_span_skip(right, extra, j);
    } else {
        let selector = repeat(Step::Both, extra);
        let inner = left[i].1.pattern(right[j].1);
        let next = join_pattern(left, right, extra, i + 1, j + 1);
        lemma_pattern_sides(left[i].1, right[j].1);
        lemma_join_sides(left, right, extra, i + 1, j + 1);
        lemma_counts_repeat(Step::Both, extra);
        lemma_counts_add(selector, inner);
        lemma_counts_add(selector + inner, next);
        lemma_span_skip(left, extra, i);
        lemma_span_skip(right, extra, j);
    }
}

/// The walk over the leaves of two values takes every leaf of either value
/// once: it has as many steps on the left as the left value has leaves, and
/// as many on the right as the right value has.
pub proof fn lemma_pattern_sides(left: Shape, right: Shape)
    ensures
        lefts(left.pattern(right)) == left.leaves(),
        rights(left.pattern(right)) == right.leaves(),
        left.pattern(right).len() <= left.leaves() + right.leaves(),
    decreases left, right, 0nat,
{
    lemma_counts_total(left.pattern(right));
    match (left, right) {
        (Shape::Scalar(_), Shape::Scalar(_)) => {
            lemma_counts_repeat(Step::Both, 1);
            assert(left.pattern(right) =~= repeat(Step::Both, 1));
        },
        (Shape::Record(a), Shape::Record(b)) => {
            lemma_join_sides(a, b, 0, 0, 0);
            assert(a.skip(0) =~= a);
            assert(b.skip(0) =~= b);
        },
        (Shape::Choice(a), Shape::Choice(b)) => {
            lemma_join_sides(a, b, 1, 0, 0);
            assert(a.skip(0) =~= a);
            assert(b.skip(0) =~= b);
        },
        (Shape::Array(_, element), Shape::Array(_, other_element)) => {
            lemma_pattern_sides(*element, *other_element);
        },
        _ => {
            lemma_counts_repeat(Step::Left, left.leaves());
            lemma_counts_repeat(Step::Right, right.leaves());
            lemma_counts_add(repeat(Step::Left, left.leaves()), repeat(Step::Right, right.leaves()));
        },
    }
}

/// No walk has more steps than it takes leaves from both sides together.
pub proof fn lemma_counts_total(steps: Seq<Step>)
    ensures
        steps.len() <= lefts(steps) + rights(steps),
    decreases steps.len(),
{
    if steps.len() > 0 {
        lemma_counts_total(steps.drop_last());
    }
}

/// Where the parts of `left` from `i` on and those of `right` from `j` on
/// can be merged, the walk over them has as many steps as the merged parts
/// have leaves.
pub proof fn lemma_join_counts(
    left: Seq<(int, Shape)>,
    right: Seq<(int, Shape)>,
    extra: nat,
    i: int,
    j: int,
)
    requires
        0 <= i <= left.len(),
        0 <= j <= right.len(),
        join(left, right, i, j) is Some,
    ensures
        join_pattern(left, right, extra, i, j).len() == span(join(left, right, i, j).unwrap(), extra),
    decreases left, right, left.len() - i + right.len() - j,
{
    if i >= left.len() && j >= right.len() {
    } else if j >= right.len() || (i < left.len() && left[i].0 < right[j].0) {
        let rest = join(left, right, i + 1, j).unwrap();
        lemma_join_counts(left, right, extra, i + 1, j);
        lemma_counts_repeat(Step::Left, extra + left[i].1.leaves());
        lemma_span_single(left[i], extra);
        lemma_span_add(seq![left[i]], rest, extra);
    } else if i >= left.len() || right[j].0 < left[i].0 {
        let rest = join(left, right, i, j + 1).unwrap();
        lemma_join_counts(left, right, extra, i, j + 1);
        lemma_counts_repeat(Step::Right, extra + right[j].1.leaves());
        lemma_span_single(right[j], extra);
        lemma_span_add(seq![right[j]], rest, extra);
    } else {
        let merged = left[i].1.merge(right[j].1).unwrap();
        let rest = join(left, right, i + 1, j + 1).unwrap();
        lemma_merge_counts(left[i].1, right[j].1);
        lemma_join_counts(left, right, extra, i + 1, j + 1);
        lemma_counts_repeat(Step::Both, extra);
        lemma_span_single((left[i].0, merged), extra);
        lemma_span_add(seq![(left[i].0, merged)], rest, extra);
    }
}

/// Where two values can be merged, the walk over their leaves makes one
/// step for each leaf of the merged value: no leaf of the merge is left out
/// and none is counted twice.
pub proof fn lemma_merge_counts(left: Shape, right: Shape)
    requires
        left.merge(right) is Some,
    ensures
        left.pattern(right).len() == left.merge(right).unwrap().leaves(),
    decreases left, right, 0nat,
{
    match (left, right) {
        (Shape::Scalar(_), Shape::Scalar(_)) => {},
        (Shape::Record(a), Shape::Record(b)) => {
            lemma_join_counts(a, b, 0, 0, 0);
        },
        (Shape::Choice(a), Shape::Choice(b)) => {
            lemma_join_counts(a, b, 1, 0, 0);
        },
        (Shape::Array(_, element), Shape::Array(_, other_element)) => {
            lemma_merge_counts(*element, *other_element);
        },
        _ => {},
    }
}

/// The number of constraints that the alternatives of a tagged union have
/// of their own.
pub open spec fn own_constraints(
    alternatives: Seq<(int, Shape)>,
    from: nat,
    leaf: spec_fn(nat) -> Expr,
) -> nat
    decreases alternatives.len(),
{
    if alternatives.len() == 0 {
        0
    } else {
        own_constraints(alternatives.drop_last(), from, leaf) + alternatives.last().1.constraints(
            from + span(alternatives.drop_last(), 1) + 1,
            leaf,
        ).len()
    }
}

/// A tagged union has the constraints of its alternatives, each under the
/// selector of its alternative, and two more behind them: that at most one
/// and that at least one of its selectors is true. Both speak of one
/// selector for each alternative.
pub proof fn lemma_choice_constraints(
    alternatives: Seq<(int, Shape)>,
    from: nat,
    leaf: spec_fn(nat) -> Expr,
)
    ensures
        gather_guarded(alternatives, from, leaf).len() == own_constraints(alternatives, from, leaf),
        Shape::Choice(alternatives).constraints(from, leaf).len() == own_constraints(
            alternatives,
            from,
            leaf,
        ) + 2,
        Shape::Choice(alternatives).constraints(from, leaf)[own_constraints(
            alternatives,
            from,
            leaf,
        ) as int] == at_most_one(selectors(alternatives, from, leaf)),
        Shape::Choice(alternatives).constraints(from, leaf)[(own_constraints(
            alternatives,
            from,
            leaf,
        ) + 1) as int] == at_least_one(selectors(alternatives, from, leaf)),
        selectors(alternatives, from, leaf).len() == alternatives.len(),
    decreases alternatives.len(),
{
    if alternatives.len() > 0 {
        lemma_choice_constraints(alternatives.drop_last(), from, leaf);
    }
}

/// Every key of `entries` from `from` on is at least `bound`.
pub open spec fn keys_from(entries: Seq<(int, Shape)>, bound: int) -> bool {
    forall|k: int| 0 <= k < entries.len() ==> bound <= (#[trigger] entries[k]).0
}

/// Merging parts whose keys rise gives parts whose keys rise, and no key
/// that is smaller than the keys that went in.
pub proof fn lemma_join_rising(
    left: Seq<(int, Shape)>,
    right: Seq<(int, Shape)>,
    i: int,
    j: int,
    bound: int,
)
    requires
        0 <= i <= left.len(),
        0 <= j <= right.len(),
        rising(left),
        rising(right),
        join(left, right, i, j) is Some,
        i < left.len() ==> bound <= left[i].0,
        j < right.len() ==> bound <= right[j].0,
    ensures
        rising(join(left, right, i, j).unwrap()),
        keys_from(join(left, right, i, j).unwrap(), bound),
    decreases left.len() - i + right.len() - j,
{
    if i >= left.len() && j >= right.len() {
    } else if j >= right.len() || (i < left.len() && left[i].0 < right[j].0) {
        let rest = join(left, right, i + 1, j).unwrap();
        lemma_join_rising(left, right, i + 1, j, left[i].0 + 1);
        lemma_front_rising(left[i], rest);
    } else if i >= left.len() || right[j].0 < left[i].0 {
        let rest = join(left, right, i, j + 1).unwrap();
        lemma_join_rising(left, right, i, j + 1, right[j].0 + 1);
        lemma_front_rising(right[j], rest);
    } else {
        let merged = left[i].1.merge(right[j].1).unwrap();
        let rest = join(left, right, i + 1, j + 1).unwrap();
        lemma_join_rising(left, right, i + 1, j + 1, left[i].0 + 1);
        lemma_front_rising((left[i].0, merged), rest);
    }
}

/// An entry in front of entries with greater, rising keys.
pub proof fn lemma_front_rising(entry: (int, Shape), rest: Seq<(int, Shape)>)
    requires
        rising(rest),
        keys_from(rest, entry.0 + 1),
    ensures
        rising(seq![entry] + rest),
        keys_from(seq![entry] + rest, entry.0),
{
    let whole = seq![entry] + rest;
    assert forall|a: int, b: int| 0 <= a < b < whole.len() implies whole[a].0 < whole[b].0 by {
        assert(whole[b] == rest[b - 1]);
        if a > 0 {
            assert(whole[a] == rest[a - 1]);
        }
    }
    assert forall|k: int| 0 <= k < whole.len() implies entry.0 <= (#[trigger] whole[k]).0 by {
        if k > 0 {
            assert(whole[k] == rest[k - 1]);
        }
    }
}

/// Where the keys of `left` and of `right` rise and no key stands in both,
/// their merge succeeds and holds every entry of either, as it is, and no
/// other, under rising keys.
pub proof fn lemma_join_disjoint(left: Seq<(int, Shape)>, right: Seq<(int, Shape)>, i: int, j: int)
    requires
        0 <= i <= left.len(),
        0 <= j <= right.len(),
        rising(left),
        rising(right),
        forall|a: int, b: int| 0 <= a < left.len() && 0 <= b < right.len() ==> left[a].0 != right[b].0,
    ensures
        join(left, right, i, j) is Some,
        rising(join(left, right, i, j).unwrap()),
        join(left, right, i, j).unwrap().to_set() == left.skip(i).to_set().union(
            right.skip(j).to_set(),
        ),
    decreases left.len() - i + right.len() - j,
{
    if i >= left.len() && j >= right.len() {
        assert(left.skip(i) =~= Seq::empty());
        assert(right.skip(j) =~= Seq::empty());
        assert(Seq::<(int, Shape)>::empty().to_set() =~= Seq::<(int, Shape)>::empty().to_set().union(
            Seq::<(int, Shape)>::empty().to_set(),
        ));
    } else if j >= right.len() || (i < left.len() && left[i].0 < right[j].0) {
        lemma_join_disjoint(left, right, i + 1, j);
        let rest = join(left, right, i + 1, j).unwrap();
        lemma_join_rising(left, right, i, j, left[i].0);
        lemma_front_set(left[i], rest);
        lemma_skip_set(left, i);
        assert((seq![left[i]] + rest).to_set() =~= left.skip(i).to_set().union(
            right.skip(j).to_set(),
        ));
    } else if i >= left.len() || right[j].0 < left[i].0 {
        lemma_join_disjoint(left, right, i, j + 1);
        let rest = join(left, right, i, j + 1).unwrap();
        lemma_join_rising(left, right, i, j, right[j].0);
        lemma_front_set(right[j], rest);
        lemma_skip_set(right, j);
        assert((seq![right[j]] + rest).to_set() =~= left.skip(i).to_set().union(
            right.skip(j).to_set(),
        ));
    } else {
        assert(left[i].0 == right[j].0);
    }
}

/// Every part of `entries` is sorted.
pub open spec fn parts_sorted(entries: Seq<(int, Shape)>) -> bool {
    forall|k: int| 0 <= k < entries.len() ==> (#[trigger] entries[k]).1.sorted()
}

/// Merging parts that are sorted gives parts that are sorted.
pub proof fn lemma_join_sorted(left: Seq<(int, Shape)>, right: Seq<(int, Shape)>, i: int, j: int)
    requires
        0 <= i <= left.len(),
        0 <= j <= right.len(),
        parts_sorted(left),
        parts_sorted(right),
        join(left, right, i, j) is Some,
    ensures
        parts_sorted(join(left, right, i, j).unwrap()),
    decreases left, right, left.len() - i + right.len() - j,
{
    if i >= left.len() && j >= right.len() {
    } else if j >= right.len() || (i < left.len() && left[i].0 < right[j].0) {
        let rest = join(left, right, i + 1, j).unwrap();
        lemma_join_sorted(left, right, i + 1, j);
        lemma_front_sorted(left[i], rest);
    } else if i >= left.len() || right[j].0 < left[i].0 {
        let rest = join(left, right, i, j + 1).unwrap();
        lemma_join_sorted(left, right, i, j + 1);
        lemma_front_sorted(right[j], rest);
    } else {
        let merged = left[i].1.merge(right[j].1).unwrap();
        let rest = join(left, right, i + 1, j + 1).unwrap();
        lemma_merge_sorted(left[i].1, right[j].1);
        lemma_join_sorted(left, right, i + 1, j + 1);
        lemma_front_sorted((left[i].0, merged), rest);
    }
}

/// A sorted part in front of sorted parts.
pub proof fn lemma_front_sorted(entry: (int, Shape), rest: Seq<(int, Shape)>)
    requires
        entry.1.sorted(),
        parts_sorted(rest),
    ensures
        parts_sorted(seq![entry] + rest),
{
    let whole = seq![entry] + rest;
    assert forall|k: int| 0 <= k < whole.len() implies (#[trigger] whole[k]).1.sorted() by {
        if k > 0 {
            assert(whole[k] == rest[k - 1]);
        }
    }
}

/// The merge of two values in which all keys rise is a value in which all
/// keys rise.
pub proof fn lemma_merge_sorted(left: Shape, right: Shape)
    requires
        left.sorted(),
        right.sorted(),
        left.merge(right) is Some,
    ensures
        left.merge(right).unwrap().sorted(),
    decreases left, right, 0nat,
{
    match (left, right) {
        (Shape::Record(a), Shape::Record(b)) => {
            lemma_join_sorted(a, b, 0, 0);
            if a.len() > 0 && b.len() > 0 {
                lemma_join_rising(a, b, 0, 0, if a[0].0 <= b[0].0 {
                    a[0].0
                } else {
                    b[0].0
                });
            } else {
                lemma_join_rising(a, b, 0, 0, if a.len() > 0 {
                    a[0].0
                } else if b.len() > 0 {
                    b[0].0
                } else {
                    0
                });
            }
        },
        (Shape::Choice(a), Shape::Choice(b)) => {
            lemma_join_sorted(a, b, 0, 0);
            if a.len() > 0 && b.len() > 0 {
                lemma_join_rising(a, b, 0, 0, if a[0].0 <= b[0].0 {
                    a[0].0
                } else {
                    b[0].0
                });
            } else {
                lemma_join_rising(a, b, 0, 0, if a.len() > 0 {
                    a[0].0
                } else if b.len() > 0 {
                    b[0].0
                } else {
                    0
                });
            }
        },
        (Shape::Array(_, element), Shape::Array(_, other_element)) => {
            lemma_merge_sorted(*element, *other_element);
        },
        _ => {},
    }
}

/// Every leaf of parts that lie one after the other belongs to one part:
/// it is one of the selectors of that part, which are boolean, or a leaf of
/// the part itself, whose sort it has.
pub proof fn lemma_leaf_owner(entries: Seq<(int, Shape)>, extra: nat, i: int) -> (k: int)
    requires
        0 <= i < span(entries, extra),
    ensures
        0 <= k < entries.len(),
        span(entries.take(k), extra) <= i < span(entries.take(k + 1), extra),
        span(entries.take(k + 1), extra) == span(entries.take(k), extra) + extra
            + entries[k].1.leaves(),
        sort_in(entries, extra, i) == if i < span(entries.take(k), extra) + extra {
            Sort::Bool
        } else {
            entries[k].1.sort_at(i - span(entries.take(k), extra) - extra)
        },
    decreases entries.len(),
{
    let last = entries.len() - 1;
    assert(entries.take(last) =~= entries.drop_last());
    assert(entries.take(last + 1) =~= entries);
    if i < span(entries.drop_last(), extra) {
        let k = lemma_leaf_owner(entries.drop_last(), extra, i);
        assert(entries.drop_last().take(k) =~= entries.take(k));
        assert(entries.drop_last().take(k + 1) =~= entries.take(k + 1));
        k
    } else {
        last
    }
}

/// The items of an item in front of others.
pub proof fn lemma_front_set(entry: (int, Shape), rest: Seq<(int, Shape)>)
    ensures
        (seq![entry] + rest).to_set() == rest.to_set().insert(entry),
{
    let whole = seq![entry] + rest;
    assert forall|x: (int, Shape)| whole.to_set().contains(x) <==> rest.to_set().insert(
        entry,
    ).contains(x) by {
        if whole.to_set().contains(x) {
            let k = choose|k: int| 0 <= k < whole.len() && whole[k] == x;
            if k > 0 {
                assert(rest[k - 1] == x);
            }
        }
        if rest.to_set().contains(x) {
            let k = choose|k: int| 0 <= k < rest.len() && rest[k] == x;
            assert(whole[k + 1] == x);
        }
        if x == entry {
            assert(whole[0] == x);
        }
    }
    assert(whole.to_set() =~= rest.to_set().insert(entry));
}

/// The items from `k` on are item `k` and the items behind it.
pub proof fn lemma_skip_set(entries: Seq<(int, Shape)>, k: int)
    requires
        0 <= k < entries.len(),
    ensures
        entries.skip(k).to_set() == entries.skip(k + 1).to_set().insert(entries[k]),
{
    lemma_front_set(entries[k], entries.skip(k + 1));
    assert(seq![entries[k]] + entries.skip(k + 1) =~= entries.skip(k));
}

/// Two tagged unions whose keys rise and that share no key merge into the
/// union that holds the alternatives of both, as they are, in the order of
/// their keys.
pub proof fn lemma_merge_disjoint(left: Seq<(int, Shape)>, right: Seq<(int, Shape)>)
    requires
        rising(left),
        rising(right),
        forall|a: int, b: int| 0 <= a < left.len() && 0 <= b < right.len() ==> left[a].0 != right[b].0,
    ensures
        Shape::Choice(left).merge(Shape::Choice(right)) matches Some(Shape::Choice(merged))
            && rising(merged) && merged.to_set() == left.to_set().union(right.to_set()),
{
    lemma_join_disjoint(left, right, 0, 0);
    assert(left.skip(0) =~= left);
    assert(right.skip(0) =~= right);
}

} // verus!
