//! Ordered sequences.
use vstd::prelude::*;
use crate::composite::Composite;
use crate::expr::Expr;
use crate::getter::GetElem;
use crate::keyed::{
    keyed_combine_elem, keyed_elem_sort, keyed_invariants, keyed_num_elem, keyed_same, Parts,
};
use crate::laws::{lemma_merge_sorted, lemma_pattern_sides};
use crate::layout::lemma_extend_twice;
use crate::shape::{extend, join, Shape};
use crate::sort::Sort;

verus! {

/// The positions and shapes of `items`.
pub open spec fn listed<T: Composite>(items: Seq<T>) -> Seq<(int, Shape)> {
    Seq::new(items.len(), |k: int| (k, items[k].shape()))
}

/// The smaller of `a` and `b`.
pub open spec fn least(a: int, b: int) -> int {
    if a <= b {
        a
    } else {
        b
    }
}

/// The items of a sequence stand under their positions.
impl<T: Composite> Parts<T> for Vec<T> {
    open spec fn parts(&self) -> Seq<(int, Shape)> {
        listed(self@)
    }

    fn count(&self) -> (count: usize) {
        self.len()
    }

    fn key(&self, k: usize) -> (key: u64) {
        k as u64
    }

    fn part(&self, k: usize) -> (part: &T) {
        &self[k]
    }
}

/// A sequence lays out its items one after the other. Two sequences are
/// merged item by item as far as the shorter one goes, and the rest of the
/// longer one is taken as it is.
impl<T: Composite> Composite for Vec<T> {
    open spec fn shape(&self) -> Shape {
        Shape::Record(listed(self@))
    }

    fn num_elem(&self) -> (count: usize) {
        keyed_num_elem::<T, Vec<T>>(self, 0)
    }

    fn elem_sort(&self, n: usize) -> (sort: Sort) {
        keyed_elem_sort::<T, Vec<T>>(self, 0, n)
    }

    fn combine(&self, other: &Self) -> (merged: Option<Self>) {
        let ghost a = listed(self@);
        let ghost b = listed(other@);
        proof {
            if self.shape().sorted() && other.shape().sorted() && self.shape().merge(
                other.shape(),
            ) is Some {
                lemma_merge_sorted(self.shape(), other.shape());
            }
        }
        let mut items: Vec<T> = Vec::new();
        let count = if self.len() >= other.len() {
            self.len()
        } else {
            other.len()
        };
        let mut k: usize = 0;
        proof {
            assert(listed(items@) =~= Seq::empty());
            match join(a, b, 0, 0) {
                Some(rest) => {
                    assert(Seq::<(int, Shape)>::empty() + rest =~= rest);
                },
                None => {},
            }
        }
        while k < count
            invariant
                count == if self.len() >= other.len() {
                    self.len()
                } else {
                    other.len()
                },
                a == listed(self@),
                b == listed(other@),
                items@.len() == k,
                join(a, b, 0, 0) == extend(
                    listed(items@),
                    join(a, b, least(k as int, a.len() as int), least(k as int, b.len() as int)),
                ),
            decreases count - k,
        {
            let ghost before = listed(items@);
            let ghost i = least(k as int, a.len() as int);
            let ghost j = least(k as int, b.len() as int);
            if k < self.len() && k < other.len() {
                match self[k].combine(&other[k]) {
                    None => {
                        return None;
                    },
                    Some(value) => {
                        items.push(value);
                        proof {
                            let entry = (k as int, value.shape());
                            assert(listed(items@) =~= before + seq![entry]);
                            lemma_extend_twice(before, seq![entry], join(a, b, i + 1, j + 1));
                        }
                    },
                }
            } else if k < self.len() {
                items.push(self[k].duplicate());
                proof {
                    assert(listed(items@) =~= before + seq![a[i]]);
                    lemma_extend_twice(before, seq![a[i]], join(a, b, i + 1, j));
                }
            } else {
                items.push(other[k].duplicate());
                proof {
                    assert(listed(items@) =~= before + seq![b[j]]);
                    lemma_extend_twice(before, seq![b[j]], join(a, b, i, j + 1));
                }
            }
            k = k + 1;
        }
        proof {
            assert(listed(items@) + Seq::<(int, Shape)>::empty() =~= listed(items@));
        }
        Some(items)
    }

    fn combine_elem<FComb, FL, FR, Acc>(
        &self,
        other: &Self,
        comb: &FComb,
        onlyl: &FL,
        onlyr: &FR,
        acc: Acc,
        offl: &mut usize,
        offr: &mut usize,
        offn: &mut usize,
    ) -> (res: Acc) where
        FComb: Fn(Acc, usize, usize, usize) -> Acc,
        FL: Fn(Acc, usize, usize) -> Acc,
        FR: Fn(Acc, usize, usize) -> Acc,
     {
        proof {
            lemma_pattern_sides(self.shape(), other.shape());
        }
        keyed_combine_elem::<T, Vec<T>, FComb, FL, FR, Acc>(
            self,
            other,
            0,
            comb,
            onlyl,
            onlyr,
            acc,
            offl,
            offr,
            offn,
        )
    }

    fn invariants<G: GetElem>(&self, leaf: &G, off: &mut usize, out: &mut Vec<Expr>) {
        keyed_invariants::<T, Vec<T>, G>(self, leaf, off, out)
    }

    fn duplicate(&self) -> (copy: Self) {
        let mut copy: Vec<T> = Vec::new();
        let mut k: usize = 0;
        while k < self.len()
            invariant
                k <= self.len(),
                copy.len() == k,
                forall|m: int| 0 <= m < k ==> copy@[m].shape() == self@[m].shape(),
            decreases self.len() - k,
        {
            copy.push(self[k].duplicate());
            k = k + 1;
        }
        proof {
            assert(listed(copy@) =~= listed(self@));
        }
        copy
    }

    fn same_shape(&self, other: &Self) -> (same: bool) {
        keyed_same::<T, Vec<T>>(self, other)
    }
}

} // verus!
