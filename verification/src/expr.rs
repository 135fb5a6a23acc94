//! Logic expressions over leaf slots.
use vstd::prelude::*;
use crate::list::List;

verus! {

/// The function symbol of an application.
#[derive(Debug, PartialEq, Eq)]
pub enum Function {
    /// The first argument implies the second.
    Implies,
    /// At most the given number of the arguments are true.
    AtMost(usize),
    /// At least the given number of the arguments are true.
    AtLeast(usize),
    /// The first argument, an array, read at the remaining arguments.
    Select,
}

/// A logic expression.
#[derive(Debug, PartialEq, Eq)]
pub enum Expr {
    /// The variable with the given number.
    Var(usize),
    /// A function applied to arguments.
    App(Function, Box<List<Expr>>),
}

/// A copy of a list of expressions.
pub fn duplicate_exprs(exprs: &List<Expr>) -> (copy: List<Expr>)
    ensures
        copy == *exprs,
    decreases exprs,
{
    match exprs {
        List::Nil => List::Nil,
        List::Cons(head, tail) => List::Cons(head.duplicate(), Box::new(duplicate_exprs(tail))),
    }
}

/// A copy of a run of expressions.
pub fn duplicate_all(exprs: &Vec<Expr>) -> (copy: Vec<Expr>)
    ensures
        copy@ == exprs@,
{
    let mut copy: Vec<Expr> = Vec::new();
    let mut k: usize = 0;
    while k < exprs.len()
        invariant
            k <= exprs.len(),
            copy@ == exprs@.take(k as int),
        decreases exprs.len() - k,
    {
        copy.push(exprs[k].duplicate());
        assert(copy@ =~= exprs@.take(k + 1));
        k = k + 1;
    }
    assert(exprs@.take(exprs.len() as int) =~= exprs@);
    copy
}

impl Function {
    /// A copy of this function symbol.
    pub fn duplicate(&self) -> (copy: Function)
        ensures
            copy == *self,
    {
        match self {
            Function::Implies => Function::Implies,
            Function::AtMost(bound) => Function::AtMost(*bound),
            Function::AtLeast(bound) => Function::AtLeast(*bound),
            Function::Select => Function::Select,
        }
    }
}

impl Expr {
    /// The application of `function` to `arguments`.
    pub fn app(function: Function, arguments: Vec<Expr>) -> (expr: Expr)
        ensures
            expr == Expr::App(function, Box::new(List::of(arguments@))),
    {
        Expr::App(function, Box::new(List::from_vec(arguments)))
    }

    /// A copy of this expression.
    pub fn duplicate(&self) -> (copy: Expr)
        ensures
            copy == *self,
        decreases self,
    {
        match self {
            Expr::Var(number) => Expr::Var(*number),
            Expr::App(function, arguments) => Expr::App(
                function.duplicate(),
                Box::new(duplicate_exprs(arguments)),
            ),
        }
    }
}

} // verus!
