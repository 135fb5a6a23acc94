use flat_encoding::expr::{duplicate_all, Expr, Function};
use flat_encoding::getter::{GetElem, OffsetGetter};
use flat_encoding::list::List;
use flat_encoding::sort::Sort;
use flat_encoding::transition::OptRef;

#[test]
fn list_holds_the_items_of_a_vector_in_order() {
    let list = List::from_vec(vec![1, 2, 3]);
    assert_eq!(list.len(), 3);
    assert_eq!(
        list,
        List::Cons(1, Box::new(List::Cons(2, Box::new(List::Cons(3, Box::new(List::Nil))))))
    );
    let empty: List<u8> = List::from_vec(Vec::new());
    assert_eq!(empty, List::new());
    assert_eq!(empty.len(), 0);
    assert_eq!(List::from_vec(vec![2, 3]).prepend(1), list);
}

#[test]
fn sorts_compare_by_structure() {
    let array = |width: usize| {
        Sort::Array(
            Box::new(List::from_vec(vec![Sort::Int, Sort::BitVec(width)])),
            Box::new(Sort::Real),
        )
    };
    assert!(array(4).same(&array(4)));
    assert!(!array(4).same(&array(5)));
    assert!(!array(4).same(&Sort::Real));
    assert!(Sort::Bool.same(&Sort::Bool));
    assert!(!Sort::Bool.same(&Sort::Int));
    assert_eq!(array(4).duplicate(), array(4));
}

#[test]
fn expressions_are_copied_whole() {
    let inner = Expr::app(Function::Select, vec![Expr::Var(1), Expr::Var(2)]);
    let expr = Expr::app(Function::Implies, vec![Expr::Var(0), inner]);
    let copy = expr.duplicate();
    assert_eq!(copy, expr);
    assert_ne!(copy, Expr::Var(0));
    let all = vec![expr, Expr::Var(4)];
    assert_eq!(duplicate_all(&all), all);
}

#[test]
fn application_keeps_its_arguments_in_order() {
    let expr = Expr::app(Function::AtMost(1), vec![Expr::Var(3), Expr::Var(1)]);
    let arguments =
        List::Cons(Expr::Var(3), Box::new(List::Cons(Expr::Var(1), Box::new(List::Nil))));
    assert_eq!(expr, Expr::App(Function::AtMost(1), Box::new(arguments)));
}

#[test]
fn offset_getter_reads_further_on() {
    let flat = vec![Expr::Var(10), Expr::Var(11), Expr::Var(12)];
    assert_eq!(flat.get_elem(1), Expr::Var(11));
    let shifted = OffsetGetter { offset: 2, getter: flat };
    assert_eq!(shifted.get_elem(0), Expr::Var(12));
    let twice = OffsetGetter { offset: 1, getter: OffsetGetter { offset: 1, getter: vec![
        Expr::Var(7),
        Expr::Var(8),
        Expr::Var(9),
    ] } };
    assert_eq!(twice.get_elem(0), Expr::Var(9));
}

#[test]
fn opt_ref_gives_the_value_borrowed_or_owned() {
    let text = String::from("value");
    let borrowed = OptRef::Ref(&text);
    assert_eq!(borrowed.as_ref(), "value");
    assert_eq!(borrowed.as_obj(), text);
    let owned = OptRef::Owned(vec![1, 2, 3]);
    assert_eq!(owned.as_ref(), &vec![1, 2, 3]);
    assert_eq!(owned.as_obj(), vec![1, 2, 3]);
}
