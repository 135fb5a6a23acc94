//! Structured values and their flat layout.
use vstd::prelude::*;
use crate::expr::Expr;
use crate::fold::{
    folds_to, lemma_counts_add, lemma_counts_repeat, lemma_folds_join, lemma_folds_none,
    lemma_runs_head, lemma_runs_rest, runs, take_both, take_left, take_right,
};
use crate::getter::{leaf_of, GetElem};
use crate::laws::{lemma_merge_sorted, lemma_pattern_sides};
use crate::layout::{
    lemma_join_one, lemma_join_one_none, lemma_join_two, lemma_none, lemma_one, lemma_two, one,
    two,
};
use crate::shape::{sort_in, Shape, Step};
use crate::sort::Sort;

verus! {

/// A value that is laid out over an ordered, finite run of leaf slots.
pub trait Composite: Sized + 'static {
    /// The layout of this value.
    spec fn shape(&self) -> Shape;

    /// The number of leaf slots.
    fn num_elem(&self) -> (count: usize)
        requires
            self.shape().bounded(),
        ensures
            count == self.shape().leaves(),
    ;

    /// The sort of leaf `n`.
    fn elem_sort(&self, n: usize) -> (sort: Sort)
        requires
            self.shape().bounded(),
            n < self.shape().leaves(),
        ensures
            sort == self.shape().sort_at(n as int),
    ;

    /// The merge of this value with `other`, or `None` where their shapes
    /// cannot be merged. Where the keys rise in both values, they rise in
    /// the merge.
    fn combine(&self, other: &Self) -> (merged: Option<Self>)
        ensures
            match merged {
                Some(value) => {
                    &&& self.shape().merge(other.shape()) == Some(value.shape())
                    &&& self.shape().sorted() && other.shape().sorted() ==> value.shape().sorted()
                },
                None => self.shape().merge(other.shape()) is None,
            },
    ;

    /// Walks the leaves of this value and of `other` in the order in which
    /// their merge lays them out. For each leaf of the merge it makes one
    /// call: `comb` where the leaf comes from both values, `onlyl` or `onlyr`
    /// where it comes from one. Each call gets the accumulator and the
    /// cursors of the sides it takes a leaf from, and `offn`; these cursors
    /// then move on by one. So `offl` moves past the leaves of this value,
    /// `offr` past those of `other`, and `offn` past those of the merge.
    fn combine_elem<FComb, FL, FR, Acc>(
        &self,
        other: &Self,
        comb: &FComb,
        onlyl: &FL,
        onlyr: &FR,
        acc: Acc,
        offl: &mut usize,
        offr: &mut usize,
        offn: &mut usize,
    ) -> (res: Acc) where
        FComb: Fn(Acc, usize, usize, usize) -> Acc,
        FL: Fn(Acc, usize, usize) -> Acc,
        FR: Fn(Acc, usize, usize) -> Acc,

        requires
            self.shape().bounded(),
            other.shape().bounded(),
            *old(offl) + self.shape().leaves() <= usize::MAX,
            *old(offr) + other.shape().leaves() <= usize::MAX,
            *old(offn) + self.shape().pattern(other.shape()).len() <= usize::MAX,
            runs(
                comb,
                onlyl,
                onlyr,
                self.shape().pattern(other.shape()),
                *old(offl) as int,
                *old(offr) as int,
                *old(offn) as int,
                acc,
            ),
        ensures
            *final(offl) == *old(offl) + self.shape().leaves(),
            *final(offr) == *old(offr) + other.shape().leaves(),
            *final(offn) == *old(offn) + self.shape().pattern(other.shape()).len(),
            folds_to(
                comb,
                onlyl,
                onlyr,
                self.shape().pattern(other.shape()),
                *old(offl) as int,
                *old(offr) as int,
                *old(offn) as int,
                acc,
                res,
            ),
    ;

    /// Appends to `out` the constraints that every encoding of this value
    /// obeys, where the value is laid out from slot `off` on and `leaf` has
    /// the expression in each slot, and moves `off` past the value.
    fn invariants<G: GetElem>(&self, leaf: &G, off: &mut usize, out: &mut Vec<Expr>)
        requires
            self.shape().bounded(),
            *old(off) + self.shape().leaves() <= usize::MAX,
            forall|n: usize|
                *old(off) <= n < *old(off) + self.shape().leaves() ==> #[trigger] leaf.covers(n),
        ensures
            *final(off) == *old(off) + self.shape().leaves(),
            final(out)@ == old(out)@ + self.shape().constraints(*old(off) as nat, leaf_of(leaf)),
    ;

    /// A copy of this value.
    fn duplicate(&self) -> (copy: Self)
        ensures
            copy.shape() == self.shape(),
    ;

    /// Whether this value and `other` have the same shape.
    fn same_shape(&self, other: &Self) -> (same: bool)
        ensures
            same == (self.shape() == other.shape()),
    ;
}

/// An expression over the leaves of a value of type `C`: its variables are
/// the numbers of the leaf slots of such a value.
pub struct CompExpr<C: Composite> {
    pub expr: Box<Expr>,
    pub phantom: core::marker::PhantomData<C>,
}

/// A single leaf of a given sort.
#[derive(Debug)]
pub struct Singleton(pub Sort);

impl Composite for Singleton {
    open spec fn shape(&self) -> Shape {
        Shape::Scalar(self.0)
    }

    fn num_elem(&self) -> (count: usize) {
        1
    }

    fn elem_sort(&self, n: usize) -> (sort: Sort) {
        self.0.duplicate()
    }

    fn combine(&self, other: &Self) -> (merged: Option<Self>) {
        if self.0.same(&other.0) {
            Some(Singleton(self.0.duplicate()))
        } else {
            None
        }
    }

    fn combine_elem<FComb, FL, FR, Acc>(
        &self,
        other: &Self,
        comb: &FComb,
        onlyl: &FL,
        onlyr: &FR,
        acc: Acc,
        offl: &mut usize,
        offr: &mut usize,
        offn: &mut usize,
    ) -> (res: Acc) where
        FComb: Fn(Acc, usize, usize, usize) -> Acc,
        FL: Fn(Acc, usize, usize) -> Acc,
        FR: Fn(Acc, usize, usize) -> Acc,
     {
        proof {
            lemma_pattern_sides(self.shape(), other.shape());
            assert(self.shape().pattern(other.shape()) =~= seq![Step::Both]);
        }
        take_both(comb, onlyl, onlyr, acc, offl, offr, offn)
    }

    fn invariants<G: GetElem>(&self, leaf: &G, off: &mut usize, out: &mut Vec<Expr>) {
        *off = *off + 1;
        assert(out@ + Seq::<Expr>::empty() =~= out@);
    }

    fn duplicate(&self) -> (copy: Self) {
        Singleton(self.0.duplicate())
    }

    fn same_shape(&self, other: &Self) -> (same: bool) {
        self.0.same(&other.0)
    }
}

/// A single boolean leaf.
#[derive(Debug)]
pub struct SingletonBool {}

impl Composite for SingletonBool {
    open spec fn shape(&self) -> Shape {
        Shape::Scalar(Sort::Bool)
    }

    fn num_elem(&self) -> (count: usize) {
        1
    }

    fn elem_sort(&self, n: usize) -> (sort: Sort) {
        Sort::Bool
    }

    fn combine(&self, other: &Self) -> (merged: Option<Self>) {
        Some(SingletonBool {  })
    }

    fn combine_elem<FComb, FL, FR, Acc>(
        &self,
        other: &Self,
        comb: &FComb,
        onlyl: &FL,
        onlyr: &FR,
        acc: Acc,
        offl: &mut usize,
        offr: &mut usize,
        offn: &mut usize,
    ) -> (res: Acc) where
        FComb: Fn(Acc, usize, usize, usize) -> Acc,
        FL: Fn(Acc, usize, usize) -> Acc,
        FR: Fn(Acc, usize, usize) -> Acc,
     {
        proof {
            lemma_pattern_sides(self.shape(), other.shape());
            assert(self.shape().pattern(other.shape()) =~= seq![Step::Both]);
        }
        take_both(comb, onlyl, onlyr, acc, offl, offr, offn)
    }

    fn invariants<G: GetElem>(&self, leaf: &G, off: &mut usize, out: &mut Vec<Expr>) {
        *off = *off + 1;
        assert(out@ + Seq::<Expr>::empty() =~= out@);
    }

    fn duplicate(&self) -> (copy: Self) {
        SingletonBool {  }
    }

    fn same_shape(&self, other: &Self) -> (same: bool) {
        true
    }
}

/// The value without leaves.
impl Composite for () {
    open spec fn shape(&self) -> Shape {
        Shape::Record(Seq::empty())
    }

    fn num_elem(&self) -> (count: usize) {
        proof {
            lemma_none(0, |n: nat| Expr::Var(0));
        }
        0
    }

    fn elem_sort(&self, n: usize) -> (sort: Sort) {
        proof {
            lemma_none(0, |n: nat| Expr::Var(0));
        }
        Sort::Bool
    }

    fn combine(&self, other: &Self) -> (merged: Option<Self>) {
        proof {
            lemma_none(0, |n: nat| Expr::Var(0));
            lemma_merge_sorted(self.shape(), other.shape());
        }
        Some(())
    }

    fn combine_elem<FComb, FL, FR, Acc>(
        &self,
        other: &Self,
        comb: &FComb,
        onlyl: &FL,
        onlyr: &FR,
        acc: Acc,
        offl: &mut usize,
        offr: &mut usize,
        offn: &mut usize,
    ) -> (res: Acc) where
        FComb: Fn(Acc, usize, usize, usize) -> Acc,
        FL: Fn(Acc, usize, usize) -> Acc,
        FR: Fn(Acc, usize, usize) -> Acc,
     {
        proof {
            lemma_none(0, |n: nat| Expr::Var(0));
            lemma_pattern_sides(self.shape(), other.shape());
            lemma_folds_none(comb, onlyl, onlyr, *offl as int, *offr as int, *offn as int, acc);
        }
        acc
    }

    fn invariants<G: GetElem>(&self, leaf: &G, off: &mut usize, out: &mut Vec<Expr>) {
        proof {
            lemma_none(*off as nat, leaf_of(leaf));
            assert(out@ + Seq::<Expr>::empty() =~= out@);
        }
    }

    fn duplicate(&self) -> (copy: Self) {
        ()
    }

    fn same_shape(&self, other: &Self) -> (same: bool) {
        true
    }
}

/// A pair lays out its first component and then its second.
impl<A: Composite, B: Composite> Composite for (A, B) {
    open spec fn shape(&self) -> Shape {
        Shape::Record(two(self.0.shape(), self.1.shape()))
    }

    fn num_elem(&self) -> (count: usize) {
        proof {
            lemma_two(self.0.shape(), self.1.shape(), 0, |n: nat| Expr::Var(0));
            assert(two(self.0.shape(), self.1.shape())[0].1.bounded());
            assert(two(self.0.shape(), self.1.shape())[1].1.bounded());
        }
        self.0.num_elem() + self.1.num_elem()
    }

    fn elem_sort(&self, n: usize) -> (sort: Sort) {
        proof {
            lemma_two(self.0.shape(), self.1.shape(), 0, |n: nat| Expr::Var(0));
            assert(two(self.0.shape(), self.1.shape())[0].1.bounded());
            assert(two(self.0.shape(), self.1.shape())[1].1.bounded());
        }
        let first = self.0.num_elem();
        assert(sort_in(two(self.0.shape(), self.1.shape()), 0, n as int) == if n < first {
            self.0.shape().sort_at(n as int)
        } else {
            self.1.shape().sort_at(n - first)
        });
        if n >= first {
            self.1.elem_sort(n - first)
        } else {
            self.0.elem_sort(n)
        }
    }

    fn combine(&self, other: &Self) -> (merged: Option<Self>) {
        proof {
            lemma_join_two(self.0.shape(), self.1.shape(), other.0.shape(), other.1.shape());
            if self.shape().sorted() && other.shape().sorted() && self.shape().merge(
                other.shape(),
            ) is Some {
                lemma_merge_sorted(self.shape(), other.shape());
            }
        }
        match self.0.combine(&other.0) {
            None => None,
            Some(first) => match self.1.combine(&other.1) {
                None => None,
                Some(second) => Some((first, second)),
            },
        }
    }

    fn combine_elem<FComb, FL, FR, Acc>(
        &self,
        other: &Self,
        comb: &FComb,
        onlyl: &FL,
        onlyr: &FR,
        acc: Acc,
        offl: &mut usize,
        offr: &mut usize,
        offn: &mut usize,
    ) -> (res: Acc) where
        FComb: Fn(Acc, usize, usize, usize) -> Acc,
        FL: Fn(Acc, usize, usize) -> Acc,
        FR: Fn(Acc, usize, usize) -> Acc,
     {
        let ghost first = self.0.shape().pattern(other.0.shape());
        let ghost second = self.1.shape().pattern(other.1.shape());
        let ghost l0 = *offl as int;
        let ghost r0 = *offr as int;
        let ghost n0 = *offn as int;
        proof {
            lemma_join_two(self.0.shape(), self.1.shape(), other.0.shape(), other.1.shape());
            lemma_pattern_sides(self.shape(), other.shape());
            lemma_pattern_sides(self.0.shape(), other.0.shape());
            lemma_pattern_sides(self.1.shape(), other.1.shape());
            lemma_counts_add(first, second);
            assert(two(self.0.shape(), self.1.shape())[0].1.bounded());
            assert(two(self.0.shape(), self.1.shape())[1].1.bounded());
            assert(two(other.0.shape(), other.1.shape())[0].1.bounded());
            assert(two(other.0.shape(), other.1.shape())[1].1.bounded());
            lemma_runs_head(comb, onlyl, onlyr, first, second, l0, r0, n0, acc);
        }
        let mid = self.0.combine_elem(&other.0, comb, onlyl, onlyr, acc, offl, offr, offn);
        proof {
            lemma_runs_rest(comb, onlyl, onlyr, first, second, l0, r0, n0, acc, mid);
        }
        let res = self.1.combine_elem(&other.1, comb, onlyl, onlyr, mid, offl, offr, offn);
        proof {
            lemma_folds_join(comb, onlyl, onlyr, first, second, l0, r0, n0, acc, mid, res);
        }
        res
    }

    fn invariants<G: GetElem>(&self, leaf: &G, off: &mut usize, out: &mut Vec<Expr>) {
        let ghost from = *off as nat;
        let ghost before = out@;
        proof {
            lemma_two(self.0.shape(), self.1.shape(), from, leaf_of(leaf));
            assert(two(self.0.shape(), self.1.shape())[0].1.bounded());
            assert(two(self.0.shape(), self.1.shape())[1].1.bounded());
        }
        self.0.invariants(leaf, off, out);
        self.1.invariants(leaf, off, out);
        proof {
            assert(out@ =~= before + self.shape().constraints(from, leaf_of(leaf)));
        }
    }

    fn duplicate(&self) -> (copy: Self) {
        (self.0.duplicate(), self.1.duplicate())
    }

    fn same_shape(&self, other: &Self) -> (same: bool) {
        proof {
            let a = two(self.0.shape(), self.1.shape());
            let b = two(other.0.shape(), other.1.shape());
            assert(a == b ==> a[0] == b[0] && a[1] == b[1]);
        }
        self.0.same_shape(&other.0) && self.1.same_shape(&other.1)
    }
}

/// An optional value lays out what it holds, if anything.
impl<T: Composite> Composite for Option<T> {
    open spec fn shape(&self) -> Shape {
        match self {
            Some(value) => Shape::Record(one(value.shape())),
            None => Shape::Record(Seq::empty()),
        }
    }

    fn num_elem(&self) -> (count: usize) {
        match self {
            None => {
                proof {
                    lemma_none(0, |n: nat| Expr::Var(0));
                }
                0
            },
            Some(value) => {
                proof {
                    lemma_one(value.shape(), 0, |n: nat| Expr::Var(0));
                    assert(one(value.shape())[0].1.bounded());
                }
                value.num_elem()
            },
        }
    }

    fn elem_sort(&self, n: usize) -> (sort: Sort) {
        match self {
            None => {
                proof {
                    lemma_none(0, |n: nat| Expr::Var(0));
                    assert(self.shape().leaves() == 0);
                }
                Sort::Bool
            },
            Some(value) => {
                proof {
                    lemma_one(value.shape(), 0, |n: nat| Expr::Var(0));
                    assert(one(value.shape())[0].1.bounded());
                    assert(sort_in(one(value.shape()), 0, n as int) == value.shape().sort_at(
                        n as int,
                    ));
                }
                value.elem_sort(n)
            },
        }
    }

    fn combine(&self, other: &Self) -> (merged: Option<Self>) {
        proof {
            match (self, other) {
                (None, None) => {
                    lemma_none(0, |n: nat| Expr::Var(0));
                },
                (None, Some(right)) => {
                    lemma_join_one_none(right.shape());
                },
                (Some(left), None) => {
                    lemma_join_one_none(left.shape());
                },
                (Some(left), Some(right)) => {
                    lemma_join_one(left.shape(), right.shape());
                },
            }
            if self.shape().sorted() && other.shape().sorted() && self.shape().merge(
                other.shape(),
            ) is Some {
                lemma_merge_sorted(self.shape(), other.shape());
            }
        }
        match self {
            None => match other {
                None => {
                    proof {
                        lemma_none(0, |n: nat| Expr::Var(0));
                    }
                    Some(None)
                },
                Some(right) => {
                    proof {
                        lemma_join_one_none(right.shape());
                    }
                    Some(Some(right.duplicate()))
                },
            },
            Some(left) => match other {
                None => {
                    proof {
                        lemma_join_one_none(left.shape());
                    }
                    Some(Some(left.duplicate()))
                },
                Some(right) => {
                    proof {
                        lemma_join_one(left.shape(), right.shape());
                    }
                    match left.combine(right) {
                        None => None,
                        Some(value) => Some(Some(value)),
                    }
                },
            },
        }
    }

    fn combine_elem<FComb, FL, FR, Acc>(
        &self,
        other: &Self,
        comb: &FComb,
        onlyl: &FL,
        onlyr: &FR,
        acc: Acc,
        offl: &mut usize,
        offr: &mut usize,
        offn: &mut usize,
    ) -> (res: Acc) where
        FComb: Fn(Acc, usize, usize, usize) -> Acc,
        FL: Fn(Acc, usize, usize) -> Acc,
        FR: Fn(Acc, usize, usize) -> Acc,
     {
        match self {
            None => match other {
                None => {
                    proof {
                        lemma_none(0, |n: nat| Expr::Var(0));
                        lemma_pattern_sides(self.shape(), other.shape());
                        lemma_folds_none(
                            comb,
                            onlyl,
                            onlyr,
                            *offl as int,
                            *offr as int,
                            *offn as int,
                            acc,
                        );
                    }
                    acc
                },
                Some(right) => {
                    proof {
                        lemma_join_one_none(right.shape());
                        lemma_pattern_sides(self.shape(), other.shape());
                        lemma_one(right.shape(), 0, |n: nat| Expr::Var(0));
                        lemma_counts_repeat(Step::Right, right.shape().leaves());
                        assert(one(right.shape())[0].1.bounded());
                    }
                    take_right(right.num_elem(), comb, onlyl, onlyr, acc, offl, offr, offn)
                },
            },
            Some(left) => match other {
                None => {
                    proof {
                        lemma_join_one_none(left.shape());
                        lemma_pattern_sides(self.shape(), other.shape());
                        lemma_one(left.shape(), 0, |n: nat| Expr::Var(0));
                        lemma_counts_repeat(Step::Left, left.shape().leaves());
                        assert(one(left.shape())[0].1.bounded());
                    }
                    take_left(left.num_elem(), comb, onlyl, onlyr, acc, offl, offr, offn)
                },
                Some(right) => {
                    proof {
                        lemma_join_one(left.shape(), right.shape());
                        lemma_pattern_sides(self.shape(), other.shape());
                        lemma_pattern_sides(left.shape(), right.shape());
                        assert(one(left.shape())[0].1.bounded());
                        assert(one(right.shape())[0].1.bounded());
                    }
                    left.combine_elem(right, comb, onlyl, onlyr, acc, offl, offr, offn)
                },
            },
        }
    }

    fn invariants<G: GetElem>(&self, leaf: &G, off: &mut usize, out: &mut Vec<Expr>) {
        match self {
            None => {
                proof {
                    lemma_none(*off as nat, leaf_of(leaf));
                    assert(out@ + Seq::<Expr>::empty() =~= out@);
                }
            },
            Some(value) => {
                proof {
                    lemma_one(value.shape(), *off as nat, leaf_of(leaf));
                    assert(one(value.shape())[0].1.bounded());
                }
                value.invariants(leaf, off, out)
            },
        }
    }

    fn duplicate(&self) -> (copy: Self) {
        match self {
            None => None,
            Some(value) => Some(value.duplicate()),
        }
    }

    fn same_shape(&self, other: &Self) -> (same: bool) {
        match self {
            None => match other {
                None => true,
                Some(right) => {
                    assert(one(right.shape()).len() == 1);
                    false
                },
            },
            Some(left) => match other {
                None => {
                    assert(one(left.shape()).len() == 1);
                    false
                },
                Some(right) => {
                    proof {
                        let a = one(left.shape());
                        let b = one(right.shape());
                        assert(a == b ==> a[0] == b[0]);
                    }
                    left.same_shape(right)
                },
            },
        }
    }
}

} // verus!
