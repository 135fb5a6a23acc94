//! The mathematical model of structured values.
//!
//! A `Shape` says how a value is laid out over leaf slots and nothing about
//! what the slots hold. Every operation on structured values is specified by
//! a function of this module.
use vstd::prelude::*;
use crate::expr::{Expr, Function};
use crate::list::List;
use crate::sort::Sort;

verus! {

/// The layout of a structured value.
pub enum Shape {
    /// One leaf of the given sort.
    Scalar(Sort),
    /// Parts laid out one after the other, each under a key. The items of an
    /// ordered sequence and the components of a tuple have their positions
    /// as keys; an optional value is a sequence of at most one item; the
    /// values of a mapping stand in the order of their keys.
    Record(Seq<(int, Shape)>),
    /// The alternatives of a tagged union, each under its key and behind one
    /// boolean selector leaf.
    Choice(Seq<(int, Shape)>),
    /// An array from values of the first shape to values of the second. Only
    /// the second is laid out.
    Array(Box<Shape>, Box<Shape>),
}

/// How one leaf of a merged value comes about.
#[derive(Debug, Clone, Copy, PartialEq, Eq)]
pub enum Step {
    /// From a leaf of the left value and a leaf of the right value.
    Both,
    /// From a leaf of the left value alone.
    Left,
    /// From a leaf of the right value alone.
    Right,
}

/// The number of leaves of the parts of `entries`, each behind `extra`
/// leaves of its own.
pub open spec fn span(entries: Seq<(int, Shape)>, extra: nat) -> nat
    decreases entries, 0nat,
{
    if entries.len() == 0 {
        0
    } else {
        span(entries.drop_last(), extra) + extra + entries.last().1.leaves()
    }
}

/// The sort of leaf `i` of the parts of `entries` laid out one after the
/// other, each behind `extra` boolean leaves.
pub open spec fn sort_in(entries: Seq<(int, Shape)>, extra: nat, i: int) -> Sort
    decreases entries, 0nat,
{
    if entries.len() == 0 {
        Sort::Bool
    } else {
        let before = span(entries.drop_last(), extra);
        if i < before {
            sort_in(entries.drop_last(), extra, i)
        } else if i < before + extra {
            Sort::Bool
        } else {
            entries.last().1.sort_at(i - before - extra)
        }
    }
}

/// The sorts of all leaves of `shape`, in order.
pub open spec fn sorts(shape: Shape) -> Seq<Sort>
    decreases shape, 2nat,
{
    Seq::new(shape.leaves(), |k: int| shape.sort_at(k))
}

/// `entries` in front of `rest`, where there is a rest.
pub open spec fn extend(entries: Seq<(int, Shape)>, rest: Option<Seq<(int, Shape)>>) -> Option<
    Seq<(int, Shape)>,
> {
    match rest {
        Some(rest) => Some(entries + rest),
        None => None,
    }
}

/// The merge of the entries of `left` from `i` on with those of `right` from
/// `j` on, both walked in the order in which they stand: entries with equal
/// keys are merged, and of two entries with different keys the one with the
/// smaller key is taken as it is.
pub open spec fn join(left: Seq<(int, Shape)>, right: Seq<(int, Shape)>, i: int, j: int) -> Option<
    Seq<(int, Shape)>,
>
    decreases left, right, left.len() - i + right.len() - j,
{
    if i < 0 || j < 0 || i > left.len() || j > right.len() {
        None
    } else if i >= left.len() && j >= right.len() {
        Some(Seq::empty())
    } else if j >= right.len() || (i < left.len() && left[i].0 < right[j].0) {
        extend(seq![left[i]], join(left, right, i + 1, j))
    } else if i >= left.len() || right[j].0 < left[i].0 {
        extend(seq![right[j]], join(left, right, i, j + 1))
    } else {
        match left[i].1.merge(right[j].1) {
            Some(merged) => extend(seq![(left[i].0, merged)], join(left, right, i + 1, j + 1)),
            None => None,
        }
    }
}

/// `count` times `step`.
pub open spec fn repeat(step: Step, count: nat) -> Seq<Step> {
    Seq::new(count, |k: int| step)
}

/// The steps that merge the entries of `left` from `i` on with those of
/// `right` from `j` on, each entry behind `extra` leaves of its own.
pub open spec fn join_pattern(
    left: Seq<(int, Shape)>,
    right: Seq<(int, Shape)>,
    extra: nat,
    i: int,
    j: int,
) -> Seq<Step>
    decreases left, right, left.len() - i + right.len() - j,
{
    if i < 0 || j < 0 || i > left.len() || j > right.len() {
        Seq::empty()
    } else if i >= left.len() && j >= right.len() {
        Seq::empty()
    } else if j >= right.len() || (i < left.len() && left[i].0 < right[j].0) {
        repeat(Step::Left, extra + left[i].1.leaves()) + join_pattern(left, right, extra, i + 1, j)
    } else if i >= left.len() || right[j].0 < left[i].0 {
        repeat(Step::Right, extra + right[j].1.leaves()) + join_pattern(
            left,
            right,
            extra,
            i,
            j + 1,
        )
    } else {
        repeat(Step::Both, extra) + left[i].1.pattern(right[j].1) + join_pattern(
            left,
            right,
            extra,
            i + 1,
            j + 1,
        )
    }
}

/// `guard` implies `body`.
pub open spec fn implication(guard: Expr, body: Expr) -> Expr {
    Expr::App(
        Function::Implies,
        Box::new(List::Cons(guard, Box::new(List::Cons(body, Box::new(List::Nil))))),
    )
}

/// Each of `bodies` under `guard`.
pub open spec fn guarded(guard: Expr, bodies: Seq<Expr>) -> Seq<Expr> {
    Seq::new(bodies.len(), |k: int| implication(guard, bodies[k]))
}

/// The constraints of the parts of `entries` laid out one after the other
/// from slot `from` on.
pub open spec fn gather(entries: Seq<(int, Shape)>, from: nat, leaf: spec_fn(nat) -> Expr) -> Seq<
    Expr,
>
    decreases entries, 0nat,
{
    if entries.len() == 0 {
        Seq::empty()
    } else {
        gather(entries.drop_last(), from, leaf) + entries.last().1.constraints(
            from + span(entries.drop_last(), 0),
            leaf,
        )
    }
}

/// The selectors of `alternatives` laid out from slot `from` on.
pub open spec fn selectors(
    alternatives: Seq<(int, Shape)>,
    from: nat,
    leaf: spec_fn(nat) -> Expr,
) -> Seq<Expr> {
    Seq::new(alternatives.len(), |k: int| leaf(from + span(alternatives.take(k), 1)))
}

/// The constraints of `alternatives` laid out from slot `from` on, each
/// under the selector of its alternative.
pub open spec fn gather_guarded(
    alternatives: Seq<(int, Shape)>,
    from: nat,
    leaf: spec_fn(nat) -> Expr,
) -> Seq<Expr>
    decreases alternatives, 0nat,
{
    if alternatives.len() == 0 {
        Seq::empty()
    } else {
        let slot = from + span(alternatives.drop_last(), 1);
        gather_guarded(alternatives.drop_last(), from, leaf) + guarded(
            leaf(slot),
            alternatives.last().1.constraints(slot + 1, leaf),
        )
    }
}

/// At most one of `chosen` is true.
pub open spec fn at_most_one(chosen: Seq<Expr>) -> Expr {
    Expr::App(Function::AtMost(1), Box::new(List::of(chosen)))
}

/// At least one of `chosen` is true.
pub open spec fn at_least_one(chosen: Seq<Expr>) -> Expr {
    Expr::App(Function::AtLeast(1), Box::new(List::of(chosen)))
}

/// The keys of `entries` rise strictly.
pub open spec fn rising(entries: Seq<(int, Shape)>) -> bool {
    forall|a: int, b: int| 0 <= a < b < entries.len() ==> entries[a].0 < entries[b].0
}

impl Shape {
    /// The number of leaf slots.
    pub open spec fn leaves(self) -> nat
        decreases self, 1nat,
    {
        match self {
            Shape::Scalar(_) => 1,
            Shape::Record(entries) => span(entries, 0),
            Shape::Choice(alternatives) => span(alternatives, 1),
            Shape::Array(_, element) => element.leaves(),
        }
    }

    /// The sort of leaf `i`, for `0 <= i < self.leaves()`.
    pub open spec fn sort_at(self, i: int) -> Sort
        decreases self, 1nat,
    {
        match self {
            Shape::Scalar(sort) => sort,
            Shape::Record(entries) => sort_in(entries, 0, i),
            Shape::Choice(alternatives) => sort_in(alternatives, 1, i),
            Shape::Array(index, element) => Sort::Array(
                Box::new(List::of(sorts(*index))),
                Box::new(element.sort_at(i)),
            ),
        }
    }

    /// Every count of leaves in this shape, those of the index shapes of
    /// arrays too, fits a machine word.
    pub open spec fn bounded(self) -> bool
        decreases self,
    {
        &&& self.leaves() <= usize::MAX
        &&& match self {
            Shape::Scalar(_) => true,
            Shape::Record(entries) => forall|k: int|
                0 <= k < entries.len() ==> (#[trigger] entries[k]).1.bounded(),
            Shape::Choice(alternatives) => forall|k: int|
                0 <= k < alternatives.len() ==> (#[trigger] alternatives[k]).1.bounded(),
            Shape::Array(index, element) => index.bounded() && element.bounded(),
        }
    }

    /// The keys rise strictly, here and in every part.
    pub open spec fn sorted(self) -> bool
        decreases self,
    {
        match self {
            Shape::Scalar(_) => true,
            Shape::Record(entries) => {
                &&& rising(entries)
                &&& forall|k: int| 0 <= k < entries.len() ==> (#[trigger] entries[k]).1.sorted()
            },
            Shape::Choice(alternatives) => {
                &&& rising(alternatives)
                &&& forall|k: int|
                    0 <= k < alternatives.len() ==> (#[trigger] alternatives[k]).1.sorted()
            },
            Shape::Array(index, element) => index.sorted() && element.sorted(),
        }
    }

    /// The shape of the merge of a value of this shape with one of shape
    /// `other`, or `None` where the two cannot be merged.
    pub open spec fn merge(self, other: Shape) -> Option<Shape>
        decreases self, other, 0nat,
    {
        match (self, other) {
            (Shape::Scalar(left), Shape::Scalar(right)) => if left == right {
                Some(Shape::Scalar(left))
            } else {
                None
            },
            (Shape::Record(left), Shape::Record(right)) => match join(left, right, 0, 0) {
                Some(entries) => Some(Shape::Record(entries)),
                None => None,
            },
            (Shape::Choice(left), Shape::Choice(right)) => match join(left, right, 0, 0) {
                Some(alternatives) => Some(Shape::Choice(alternatives)),
                None => None,
            },
            (Shape::Array(index, element), Shape::Array(other_index, other_element)) => if index
                == other_index {
                match element.merge(*other_element) {
                    Some(merged) => Some(Shape::Array(index, Box::new(merged))),
                    None => None,
                }
            } else {
                None
            },
            _ => None,
        }
    }

    /// The steps, in order, of the walk over the leaves of a value of this
    /// shape and of one of shape `other`: where the two can be merged, the
    /// steps that make the leaves of the merge. Values of different kinds
    /// are walked one after the other.
    pub open spec fn pattern(self, other: Shape) -> Seq<Step>
        decreases self, other, 0nat,
    {
        match (self, other) {
            (Shape::Scalar(_), Shape::Scalar(_)) => seq![Step::Both],
            (Shape::Record(left), Shape::Record(right)) => join_pattern(left, right, 0, 0, 0),
            (Shape::Choice(left), Shape::Choice(right)) => join_pattern(left, right, 1, 0, 0),
            (Shape::Array(_, element), Shape::Array(_, other_element)) => element.pattern(
                *other_element,
            ),
            _ => repeat(Step::Left, self.leaves()) + repeat(Step::Right, other.leaves()),
        }
    }

    /// The constraints that every encoding of a value of this shape obeys,
    /// where the value is laid out from slot `from` on and `leaf` gives the
    /// expression in each slot.
    pub open spec fn constraints(self, from: nat, leaf: spec_fn(nat) -> Expr) -> Seq<Expr>
        decreases self, 1nat,
    {
        match self {
            Shape::Scalar(_) => Seq::empty(),
            Shape::Record(entries) => gather(entries, from, leaf),
            Shape::Choice(alternatives) => gather_guarded(alternatives, from, leaf) + seq![
                at_most_one(selectors(alternatives, from, leaf)),
                at_least_one(selectors(alternatives, from, leaf)),
            ],
            Shape::Array(_, _) => Seq::empty(),
        }
    }
}

} // verus!
