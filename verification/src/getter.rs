//! Providers of the expression that stands in a leaf slot.
use vstd::prelude::*;
use crate::expr::Expr;

verus! {

/// A source of the expressions that stand in leaf slots.
pub trait GetElem {
    /// Whether this source has an expression for slot `n`.
    spec fn covers(&self, n: usize) -> bool;

    /// The expression in slot `n`.
    spec fn elem(&self, n: usize) -> Expr;

    /// The expression in slot `n`.
    fn get_elem(&self, n: usize) -> (expr: Expr)
        requires
            self.covers(n),
        ensures
            expr == self.elem(n),
    ;
}

/// The slots of a flat array are its items.
impl GetElem for Vec<Expr> {
    open spec fn covers(&self, n: usize) -> bool {
        n < self@.len()
    }

    open spec fn elem(&self, n: usize) -> Expr {
        self@[n as int]
    }

    fn get_elem(&self, n: usize) -> (expr: Expr) {
        self[n].duplicate()
    }
}

/// The source that has for each slot the variable with the number of the
/// slot.
pub struct Slots {}

impl GetElem for Slots {
    open spec fn covers(&self, n: usize) -> bool {
        true
    }

    open spec fn elem(&self, n: usize) -> Expr {
        Expr::Var(n)
    }

    fn get_elem(&self, n: usize) -> (expr: Expr) {
        Expr::Var(n)
    }
}

/// A source seen from `offset` slots further on: its slot `n` is slot
/// `n + offset` of `getter`.
pub struct OffsetGetter<G: GetElem> {
    pub offset: usize,
    pub getter: G,
}

impl<G: GetElem> GetElem for OffsetGetter<G> {
    open spec fn covers(&self, n: usize) -> bool {
        n + self.offset <= usize::MAX && self.getter.covers((n + self.offset) as usize)
    }

    open spec fn elem(&self, n: usize) -> Expr {
        self.getter.elem((n + self.offset) as usize)
    }

    fn get_elem(&self, n: usize) -> (expr: Expr) {
        self.getter.get_elem(n + self.offset)
    }
}

/// The expression that `leaf` has for each slot.
pub open spec fn leaf_of<G: GetElem>(leaf: &G) -> spec_fn(nat) -> Expr {
    |n: nat| leaf.elem(n as usize)
}

} // verus!
