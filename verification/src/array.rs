//! Arrays from an index shape to an element shape.
use vstd::prelude::*;
use crate::composite::Composite;
use crate::expr::Expr;
use crate::getter::GetElem;
use crate::laws::{lemma_merge_sorted, lemma_pattern_sides};
use crate::list::List;
use crate::shape::{sorts, Shape};
use crate::sort::Sort;

verus! {

/// An array that maps every value of the shape of `index` to a value of the
/// shape of `element`. Only the element is laid out: each of its leaves is
/// an array from the sorts of the index leaves to the sort of the element
/// leaf.
#[derive(Debug)]
pub struct Array<Idx, T> {
    pub index: Idx,
    pub element: T,
}

impl<Idx: Composite, T: Composite> Composite for Array<Idx, T> {
    open spec fn shape(&self) -> Shape {
        Shape::Array(Box::new(self.index.shape()), Box::new(self.element.shape()))
    }

    fn num_elem(&self) -> (count: usize) {
        self.element.num_elem()
    }

    fn elem_sort(&self, n: usize) -> (sort: Sort) {
        let element = self.element.elem_sort(n);
        let count = self.index.num_elem();
        let mut index: Vec<Sort> = Vec::new();
        let mut k: usize = 0;
        while k < count
            invariant
                k <= count,
                count == self.index.shape().leaves(),
                self.index.shape().bounded(),
                index@.len() == k,
                forall|m: int| 0 <= m < k ==> index@[m] == self.index.shape().sort_at(m),
            decreases count - k,
        {
            index.push(self.index.elem_sort(k));
            k = k + 1;
        }
        proof {
            assert(index@ =~= sorts(self.index.shape()));
        }
        Sort::Array(Box::new(List::from_vec(index)), Box::new(element))
    }

    fn combine(&self, other: &Self) -> (merged: Option<Self>) {
        proof {
            if self.shape().sorted() && other.shape().sorted() && self.shape().merge(
                other.shape(),
            ) is Some {
                lemma_merge_sorted(self.shape(), other.shape());
            }
        }
        if !self.index.same_shape(&other.index) {
            return None;
        }
        match self.element.combine(&other.element) {
            None => None,
            Some(element) => Some(Array { index: self.index.duplicate(), element }),
        }
    }

    fn combine_elem<FComb, FL, FR, Acc>(
        &self,
        other: &Self,
        comb: &FComb,
        onlyl: &FL,
        onlyr: &FR,
        acc: Acc,
        offl: &mut usize,
        offr: &mut usize,
        offn: &mut usize,
    ) -> (res: Acc) where
        FComb: Fn(Acc, usize, usize, usize) -> Acc,
        FL: Fn(Acc, usize, usize) -> Acc,
        FR: Fn(Acc, usize, usize) -> Acc,
     {
        proof {
            lemma_pattern_sides(self.shape(), other.shape());
            lemma_pattern_sides(self.element.shape(), other.element.shape());
        }
        self.element.combine_elem(&other.element, comb, onlyl, onlyr, acc, offl, offr, offn)
    }

    fn invariants<G: GetElem>(&self, leaf: &G, off: &mut usize, out: &mut Vec<Expr>) {
        *off = *off + self.element.num_elem();
        proof {
            assert(out@ + Seq::<Expr>::empty() =~= out@);
        }
    }

    fn duplicate(&self) -> (copy: Self) {
        Array { index: self.index.duplicate(), element: self.element.duplicate() }
    }

    fn same_shape(&self, other: &Self) -> (same: bool) {
        self.index.same_shape(&other.index) && self.element.same_shape(&other.element)
    }
}

} // verus!
