use flat_encoding::array::Array;
use flat_encoding::composite::{Composite, Singleton};
use flat_encoding::expr::{Expr, Function};
use flat_encoding::sort::Sort;
use flat_encoding::transformation::Transformation;
use flat_encoding::transition::{Chain, GetArrayElem, GetVecElem, OptRef, SetVecElem, Transition};
use std::marker::PhantomData;

type SliceFn = Box<dyn Fn(&[Expr]) -> Vec<Expr>>;
type ElemFn = Box<dyn Fn(&[Expr], usize, Expr) -> Expr>;
type Graph = Transformation<SliceFn, ElemFn>;

fn vars(from: usize, count: usize) -> Vec<Expr> {
    (from..from + count).map(Expr::Var).collect()
}

fn leaves(count: usize, width: usize) -> Vec<Singleton> {
    (0..count).map(|_| Singleton(Sort::BitVec(width))).collect()
}

fn all(graph: &mut Graph, node: usize, base: &[Expr]) -> Vec<Expr> {
    let count = graph.size(node);
    (0..count).map(|i| graph.get(node, base, i)).collect()
}

fn value<'a, T>(holder: &'a OptRef<'a, T>) -> &'a T {
    match holder {
        OptRef::Ref(borrowed) => borrowed,
        OptRef::Owned(owned) => owned,
    }
}

#[test]
fn get_then_set_replaces_the_slots_of_one_item() {
    // The sequence [A, B, C] with 2, 1 and 3 leaves, and B' with 2 leaves.
    let sequence = vec![leaves(2, 1), leaves(1, 2), leaves(3, 3)];
    let replacement = leaves(2, 4);
    let mut graph: Graph = Transformation::new();
    let input = graph.id(8);
    // The base array holds the slots of A, B and C and then those of B'.
    let base = vars(0, 8);

    let old = graph.view(0, 6, input);
    let (item, node) = GetVecElem { which: 1 }.apply(OptRef::Ref(&sequence), &mut graph, old);
    assert!(matches!(item, OptRef::Ref(_)));
    assert!(value(&item).same_shape(&leaves(1, 2)));
    assert_eq!(all(&mut graph, node, &base), vars(2, 1));

    let (result, node) =
        SetVecElem { which: 1 }.apply(OptRef::Owned((sequence, replacement)), &mut graph, input);
    let result = value(&result);
    assert_eq!(result.len(), 3);
    assert!(result[0].same_shape(&leaves(2, 1)));
    assert!(result[1].same_shape(&leaves(2, 4)));
    assert!(result[2].same_shape(&leaves(3, 3)));
    assert_eq!(result.num_elem(), 7);
    assert_eq!(graph.size(node), 7);
    let slots = all(&mut graph, node, &base);
    let mut expected = vars(0, 2);
    expected.extend(vars(6, 2));
    expected.extend(vars(3, 3));
    assert_eq!(slots, expected);
}

#[test]
fn get_vec_elem_views_the_slots_of_the_item() {
    let sequence = vec![leaves(2, 1), leaves(0, 1), leaves(3, 3)];
    let mut graph: Graph = Transformation::new();
    let input = graph.id(5);
    let base = vars(10, 5);
    let (item, node) = GetVecElem { which: 2 }.apply(OptRef::Ref(&sequence), &mut graph, input);
    assert!(value(&item).same_shape(&leaves(3, 3)));
    assert_eq!(all(&mut graph, node, &base), vars(12, 3));
    let (item, node) = GetVecElem { which: 1 }.apply(OptRef::Ref(&sequence), &mut graph, input);
    assert!(value(&item).same_shape(&leaves(0, 1)));
    assert_eq!(graph.size(node), 0);
    let (item, node) = GetVecElem { which: 0 }.apply(OptRef::Owned(sequence), &mut graph, input);
    assert!(matches!(item, OptRef::Owned(_)));
    assert!(value(&item).same_shape(&leaves(2, 1)));
    assert_eq!(all(&mut graph, node, &base), vars(10, 2));
}

#[test]
fn get_vec_elem_of_the_only_item_is_the_input_itself() {
    let sequence = vec![leaves(4, 1)];
    let mut graph: Graph = Transformation::new();
    let input = graph.id(4);
    let (_, node) = GetVecElem { which: 0 }.apply(OptRef::Ref(&sequence), &mut graph, input);
    assert_eq!(node, input);
}

#[test]
fn set_vec_elem_leaves_a_borrowed_sequence_as_it_is() {
    let pair = (vec![leaves(1, 1), leaves(2, 2)], leaves(3, 9));
    let mut graph: Graph = Transformation::new();
    let input = graph.id(6);
    let base = vars(0, 6);
    let (result, node) = SetVecElem { which: 0 }.apply(OptRef::Ref(&pair), &mut graph, input);
    assert!(matches!(result, OptRef::Owned(_)));
    let result = value(&result);
    assert!(result[0].same_shape(&leaves(3, 9)));
    assert!(result[1].same_shape(&leaves(2, 2)));
    assert!(pair.0[0].same_shape(&leaves(1, 1)));
    let mut expected = vars(3, 3);
    expected.extend(vars(1, 2));
    assert_eq!(all(&mut graph, node, &base), expected);
}

#[test]
fn set_vec_elem_at_the_end_keeps_the_front() {
    let pair = (vec![leaves(2, 1), leaves(1, 2)], leaves(0, 9));
    let mut graph: Graph = Transformation::new();
    let input = graph.id(3);
    let base = vars(0, 3);
    let (result, node) = SetVecElem { which: 1 }.apply(OptRef::Owned(pair), &mut graph, input);
    assert_eq!(value(&result).num_elem(), 2);
    assert_eq!(all(&mut graph, node, &base), vars(0, 2));
}

#[test]
fn get_array_elem_selects_every_slot_at_the_index() {
    let array = Array { index: leaves(2, 32), element: leaves(3, 8) };
    let index = leaves(2, 32);
    assert!(array.index.same_shape(&index));
    let pair = (array, index);
    let mut graph: Graph = Transformation::new();
    let input = graph.id(5);
    let base = vars(0, 5);
    let (element, node) = GetArrayElem {}.apply(OptRef::Ref(&pair), &mut graph, input);
    assert!(matches!(element, OptRef::Ref(_)));
    assert!(value(&element).same_shape(&leaves(3, 8)));
    assert_eq!(graph.size(node), 3);
    let select = |slot: usize| {
        Expr::app(Function::Select, vec![Expr::Var(slot), Expr::Var(3), Expr::Var(4)])
    };
    assert_eq!(all(&mut graph, node, &base), vec![select(0), select(1), select(2)]);
    let (element, node) = GetArrayElem {}.apply(OptRef::Owned(pair), &mut graph, input);
    assert!(matches!(element, OptRef::Owned(_)));
    assert_eq!(graph.get(node, &base, 2), select(2));
}

#[test]
fn chain_applies_one_transition_after_the_other() {
    let nested = vec![vec![leaves(1, 1)], vec![leaves(2, 2), leaves(3, 3), leaves(1, 4)]];
    let chain: Chain<Vec<Vec<Vec<Singleton>>>, Vec<Vec<Singleton>>, Vec<Singleton>, _, _> =
        Chain { t1: GetVecElem { which: 1 }, t2: GetVecElem { which: 1 }, phantom: PhantomData };
    let mut graph: Graph = Transformation::new();
    let input = graph.id(7);
    let base = vars(0, 7);
    let (item, node) = chain.apply(OptRef::Ref(&nested), &mut graph, input);
    assert!(value(&item).same_shape(&leaves(3, 3)));
    assert_eq!(all(&mut graph, node, &base), vars(3, 3));
}
