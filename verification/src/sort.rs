//! Logic sorts of leaf slots.
use vstd::prelude::*;
use crate::list::List;

verus! {

/// The sort of one leaf slot.
#[derive(Debug, PartialEq, Eq)]
pub enum Sort {
    /// Truth values.
    Bool,
    /// Mathematical integers.
    Int,
    /// Real numbers.
    Real,
    /// Bit vectors of the given width.
    BitVec(usize),
    /// Arrays from the given index sorts to the given element sort.
    Array(Box<List<Sort>>, Box<Sort>),
}

/// A copy of a list of sorts.
pub fn duplicate_sorts(sorts: &List<Sort>) -> (copy: List<Sort>)
    ensures
        copy == *sorts,
    decreases sorts,
{
    match sorts {
        List::Nil => List::Nil,
        List::Cons(head, tail) => List::Cons(head.duplicate(), Box::new(duplicate_sorts(tail))),
    }
}

/// Whether two lists of sorts are equal.
pub fn same_sorts(left: &List<Sort>, right: &List<Sort>) -> (same: bool)
    ensures
        same == (*left == *right),
    decreases left,
{
    match left {
        List::Nil => match right {
            List::Nil => true,
            List::Cons(_, _) => false,
        },
        List::Cons(head, tail) => match right {
            List::Nil => false,
            List::Cons(other_head, other_tail) => head.same(other_head) && same_sorts(
                tail,
                other_tail,
            ),
        },
    }
}

impl Sort {
    /// A copy of this sort.
    pub fn duplicate(&self) -> (copy: Sort)
        ensures
            copy == *self,
        decreases self,
    {
        match self {
            Sort::Bool => Sort::Bool,
            Sort::Int => Sort::Int,
            Sort::Real => Sort::Real,
            Sort::BitVec(width) => Sort::BitVec(*width),
            Sort::Array(index, element) => Sort::Array(
                Box::new(duplicate_sorts(index)),
                Box::new(element.duplicate()),
            ),
        }
    }

    /// Whether this sort and `other` are the same sort.
    pub fn same(&self, other: &Sort) -> (same: bool)
        ensures
            same == (*self == *other),
        decreases self,
    {
        match self {
            Sort::Bool => match other {
                Sort::Bool => true,
                _ => false,
            },
            Sort::Int => match other {
                Sort::Int => true,
                _ => false,
            },
            Sort::Real => match other {
                Sort::Real => true,
                _ => false,
            },
            Sort::BitVec(width) => match other {
                Sort::BitVec(other_width) => *width == *other_width,
                _ => false,
            },
            Sort::Array(index, element) => match other {
                Sort::Array(other_index, other_element) => same_sorts(index, other_index)
                    && element.same(other_element),
                _ => false,
            },
        }
    }
}

} // verus!
