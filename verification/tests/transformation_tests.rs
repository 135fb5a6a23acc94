use flat_encoding::expr::{Expr, Function};
use flat_encoding::transformation::{BorrowedSlice, Transformation};
use std::cell::Cell;
use std::rc::Rc;

type SliceFn = Box<dyn Fn(&[Expr]) -> Vec<Expr>>;
type ElemFn = Box<dyn Fn(&[Expr], usize, Expr) -> Expr>;
type Graph = Transformation<SliceFn, ElemFn>;

fn vars(from: usize, count: usize) -> Vec<Expr> {
    (from..from + count).map(Expr::Var).collect()
}

fn number(expr: &Expr) -> usize {
    match expr {
        Expr::Var(n) => *n,
        _ => panic!("not a variable"),
    }
}

fn all(graph: &mut Graph, node: usize, base: &[Expr]) -> Vec<usize> {
    let count = graph.size(node);
    (0..count).map(|i| number(&graph.get(node, base, i))).collect()
}

fn numbers(slice: &[Expr]) -> Vec<usize> {
    slice.iter().map(number).collect()
}

#[test]
fn write_splices_source_into_target() {
    let mut graph: Graph = Transformation::new();
    let target = graph.constant(vars(100, 10));
    let source = graph.constant(vars(200, 3));
    let node = graph.write(4, 3, source, target);
    assert_eq!(graph.size(node), 10);
    let base: Vec<Expr> = Vec::new();
    assert_eq!(
        all(&mut graph, node, &base),
        vec![100, 101, 102, 103, 200, 201, 202, 107, 108, 109]
    );
}

#[test]
fn write_may_change_the_size() {
    let mut graph: Graph = Transformation::new();
    let target = graph.id(6);
    let source = graph.constant(vars(50, 4));
    let longer = graph.write(2, 1, source, target);
    assert_eq!(graph.size(longer), 9);
    let base = vars(0, 6);
    assert_eq!(all(&mut graph, longer, &base), vec![0, 1, 50, 51, 52, 53, 3, 4, 5]);
    let nothing = graph.constant(Vec::new());
    let shorter = graph.write(1, 3, nothing, target);
    assert_eq!(graph.size(shorter), 3);
    assert_eq!(all(&mut graph, shorter, &base), vec![0, 4, 5]);
}

#[test]
fn identity_reads_the_first_slots_of_the_base() {
    let mut graph: Graph = Transformation::new();
    let node = graph.id(3);
    assert_eq!(graph.size(node), 3);
    assert_eq!(all(&mut graph, node, &vars(7, 5)), vec![7, 8, 9]);
    assert_eq!(all(&mut graph, node, &vars(20, 3)), vec![20, 21, 22]);
}

#[test]
fn full_view_is_the_node_itself() {
    let mut graph: Graph = Transformation::new();
    let node = graph.id(5);
    assert_eq!(graph.view(0, 5, node), node);
    let constant = graph.constant(vars(0, 2));
    assert_eq!(graph.view(0, 2, constant), constant);
}

#[test]
fn empty_view_has_no_slots() {
    let mut graph: Graph = Transformation::new();
    let node = graph.id(5);
    let empty = graph.view(3, 0, node);
    assert_ne!(empty, node);
    assert_eq!(graph.size(empty), 0);
}

#[test]
fn view_reads_a_range_of_its_node() {
    let mut graph: Graph = Transformation::new();
    let node = graph.id(8);
    let view = graph.view(2, 4, node);
    assert_ne!(view, node);
    assert_eq!(graph.size(view), 4);
    let inner = graph.view(1, 2, view);
    let base = vars(10, 8);
    assert_eq!(all(&mut graph, view, &base), vec![12, 13, 14, 15]);
    assert_eq!(all(&mut graph, inner, &base), vec![13, 14]);
}

#[test]
fn concat_of_one_part_with_slots_is_that_part() {
    let mut graph: Graph = Transformation::new();
    let empty = graph.id(0);
    let part = graph.constant(vars(0, 3));
    let also_empty = graph.constant(Vec::new());
    assert_eq!(graph.concat(&[part]), part);
    assert_eq!(graph.concat(&[empty, part, also_empty]), part);
}

#[test]
fn concat_of_parts_without_slots_has_no_slots() {
    let mut graph: Graph = Transformation::new();
    let empty = graph.id(0);
    let also_empty = graph.constant(Vec::new());
    let node = graph.concat(&[empty, also_empty, empty]);
    assert_eq!(graph.size(node), 0);
    let none = graph.concat(&[]);
    assert_eq!(graph.size(none), 0);
}

#[test]
fn concat_lays_its_parts_one_after_the_other() {
    let mut graph: Graph = Transformation::new();
    let first = graph.constant(vars(10, 2));
    let empty = graph.id(0);
    let second = graph.id(3);
    let third = graph.constant(vars(30, 1));
    let inner = graph.concat(&[first, empty, second]);
    assert_eq!(graph.size(inner), 5);
    let outer = graph.concat(&[third, inner, empty, third]);
    assert_eq!(graph.size(outer), 7);
    let base = vars(0, 3);
    assert_eq!(all(&mut graph, inner, &base), vec![10, 11, 0, 1, 2]);
    assert_eq!(all(&mut graph, outer, &base), vec![30, 10, 11, 0, 1, 2, 30]);
}

#[test]
fn nested_concat_is_taken_apart() {
    let mut graph: Graph = Transformation::new();
    let first = graph.constant(vars(10, 2));
    let second = graph.id(3);
    let inner = graph.concat(&[first, second]);
    let outer = graph.concat(&[inner, first]);
    let base = vars(0, 3);
    // The run of `second` ends where a part of the outer node ends, which
    // it would not if `inner` were one part of it.
    assert_eq!(numbers(graph.as_slice(outer, &base, 2, 3).unwrap()), vec![0, 1, 2]);
    assert!(graph.as_slice(inner, &base, 1, 2).is_none());
    assert!(graph.as_slice(outer, &base, 4, 2).is_none());
}

#[test]
fn get_agrees_with_a_plain_evaluation() {
    let mut graph: Graph = Transformation::new();
    let base = vars(0, 6);
    let id = graph.id(6);
    let tail = graph.view(3, 3, id);
    let constant = graph.constant(vars(100, 2));
    let joined = graph.concat(&[tail, constant, id]);
    let reverse: SliceFn = Box::new(|input: &[Expr]| input.iter().rev().map(Expr::duplicate).collect());
    let reversed = graph.map_slice(11, reverse, joined);
    let written = graph.write(1, 4, constant, reversed);
    let window = graph.view(2, 5, written);
    let plain_joined = vec![3, 4, 5, 100, 101, 0, 1, 2, 3, 4, 5];
    let plain_reversed: Vec<usize> = plain_joined.iter().rev().cloned().collect();
    let mut plain_written = vec![plain_reversed[0], 100, 101];
    plain_written.extend_from_slice(&plain_reversed[5..]);
    let plain_window = plain_written[2..7].to_vec();
    assert_eq!(all(&mut graph, joined, &base), plain_joined);
    assert_eq!(all(&mut graph, window, &base), plain_window);
    assert_eq!(all(&mut graph, written, &base), plain_written);
    assert_eq!(all(&mut graph, reversed, &base), plain_reversed);
}

#[test]
fn mapped_node_calls_its_function_once() {
    let calls = Rc::new(Cell::new(0));
    let seen = calls.clone();
    let mut graph: Graph = Transformation::new();
    let id = graph.id(3);
    let double: SliceFn = Box::new(move |input: &[Expr]| {
        seen.set(seen.get() + 1);
        input.iter().map(|e| Expr::Var(2 * number(e))).collect()
    });
    let node = graph.map_slice(3, double, id);
    let base = vars(1, 3);
    assert_eq!(all(&mut graph, node, &base), vec![2, 4, 6]);
    assert_eq!(all(&mut graph, node, &base), vec![2, 4, 6]);
    assert_eq!(calls.get(), 1);
}

#[test]
fn cleared_cache_is_filled_from_the_new_base() {
    let calls = Rc::new(Cell::new(0));
    let seen = calls.clone();
    let mut graph: Graph = Transformation::new();
    let id = graph.id(2);
    let double: SliceFn = Box::new(move |input: &[Expr]| {
        seen.set(seen.get() + 1);
        input.iter().map(|e| Expr::Var(2 * number(e))).collect()
    });
    let inner = graph.map_slice(2, double, id);
    let outer = graph.view(1, 1, inner);
    assert_eq!(all(&mut graph, outer, &vars(1, 2)), vec![4]);
    graph.clear_cache(outer);
    assert_eq!(all(&mut graph, outer, &vars(10, 2)), vec![22]);
    assert_eq!(all(&mut graph, inner, &vars(10, 2)), vec![20, 22]);
    assert_eq!(calls.get(), 2);
}

#[test]
fn slice_is_borrowed_where_the_slots_lie_together() {
    let mut graph: Graph = Transformation::new();
    let base = vars(0, 10);
    let id = graph.id(10);
    let constant = graph.constant(vars(100, 4));
    let view = graph.view(2, 6, id);
    let joined = graph.concat(&[view, constant]);
    let written = graph.write(4, 2, constant, id);
    assert_eq!(numbers(graph.as_slice(id, &base, 3, 2).unwrap()), vec![3, 4]);
    assert_eq!(numbers(graph.as_slice(constant, &base, 1, 3).unwrap()), vec![101, 102, 103]);
    assert_eq!(numbers(graph.as_slice(view, &base, 1, 2).unwrap()), vec![3, 4]);
    assert_eq!(numbers(graph.as_slice(joined, &base, 0, 6).unwrap()), vec![2, 3, 4, 5, 6, 7]);
    assert_eq!(numbers(graph.as_slice(joined, &base, 7, 2).unwrap()), vec![101, 102]);
    assert!(graph.as_slice(joined, &base, 5, 2).is_none());
    assert_eq!(numbers(graph.as_slice(written, &base, 1, 3).unwrap()), vec![1, 2, 3]);
    assert_eq!(numbers(graph.as_slice(written, &base, 4, 4).unwrap()), vec![100, 101, 102, 103]);
    assert_eq!(numbers(graph.as_slice(written, &base, 8, 4).unwrap()), vec![6, 7, 8, 9]);
    assert!(graph.as_slice(written, &base, 3, 2).is_none());
    assert!(graph.as_slice(written, &base, 7, 2).is_none());
    assert_eq!(all(&mut graph, written, &base), vec![0, 1, 2, 3, 100, 101, 102, 103, 6, 7, 8, 9]);
}

#[test]
fn slice_of_a_mapped_node_needs_a_filled_cache() {
    let mut graph: Graph = Transformation::new();
    let base = vars(0, 3);
    let id = graph.id(3);
    let same: SliceFn = Box::new(|input: &[Expr]| input.iter().map(Expr::duplicate).collect());
    let node = graph.map_slice(3, same, id);
    assert!(graph.as_slice(node, &base, 0, 2).is_none());
    assert_eq!(number(&graph.get(node, &base, 1)), 1);
    assert_eq!(numbers(graph.as_slice(node, &base, 0, 2).unwrap()), vec![0, 1]);
    graph.clear_cache(node);
    assert!(graph.as_slice(node, &base, 0, 2).is_none());
}

#[test]
fn to_slice_builds_what_does_not_lie_together() {
    let mut graph: Graph = Transformation::new();
    let base = vars(0, 4);
    let id = graph.id(4);
    let constant = graph.constant(vars(10, 2));
    let joined = graph.concat(&[id, constant]);
    match graph.to_slice(joined, &base, 1, 2) {
        BorrowedSlice::Borrowed(slice) => assert_eq!(numbers(slice), vec![1, 2]),
        BorrowedSlice::Owned(_) => panic!("built a slice that lies together"),
    }
    let built = graph.to_slice(joined, &base, 2, 4);
    assert!(matches!(built, BorrowedSlice::Owned(_)));
    assert_eq!(numbers(built.get()), vec![2, 3, 10, 11]);
}

#[test]
fn per_element_function_sees_base_position_and_element() {
    let mut graph: Graph = Transformation::new();
    let base = vars(0, 4);
    let id = graph.id(4);
    let view = graph.view(1, 2, id);
    let function: ElemFn = Box::new(|base: &[Expr], position: usize, element: Expr| {
        Expr::app(Function::Implies, vec![base[3].duplicate(), Expr::Var(position), element])
    });
    let node = graph.map_by_elem(function, view);
    assert_eq!(graph.size(node), 2);
    assert!(graph.as_slice(node, &base, 0, 1).is_none());
    assert_eq!(
        graph.get(node, &base, 1),
        Expr::app(Function::Implies, vec![Expr::Var(3), Expr::Var(1), Expr::Var(2)])
    );
}

#[test]
fn select_reads_each_slot_at_the_index_slots() {
    let mut graph: Graph = Transformation::new();
    let base = vars(0, 5);
    let id = graph.id(5);
    let arrays = graph.view(0, 3, id);
    let node = graph.select(arrays, id, 3, 2);
    assert_eq!(graph.size(node), 3);
    assert_eq!(
        graph.get(node, &base, 1),
        Expr::app(Function::Select, vec![Expr::Var(1), Expr::Var(3), Expr::Var(4)])
    );
}

#[test]
fn get_agrees_with_evaluate_on_every_node() {
    let mut graph: Graph = Transformation::new();
    let base = vars(0, 7);
    let id = graph.id(7);
    let arrays = graph.view(0, 4, id);
    let selected = graph.select(arrays, id, 4, 3);
    let constant = graph.constant(vars(50, 2));
    let empty = graph.view(2, 0, id);
    let joined = graph.concat(&[selected, empty, constant, arrays]);
    let rotate: SliceFn = Box::new(|input: &[Expr]| {
        let mut out: Vec<Expr> = input[1..].iter().map(Expr::duplicate).collect();
        out.push(input[0].duplicate());
        out
    });
    let rotated = graph.map_slice(10, rotate, joined);
    let written = graph.write(3, 5, constant, rotated);
    let tag: ElemFn = Box::new(|base: &[Expr], position: usize, element: Expr| {
        Expr::app(Function::AtLeast(position), vec![element, base[position % base.len()].duplicate()])
    });
    let tagged = graph.map_by_elem(tag, written);
    let window = graph.view(1, 5, tagged);
    assert_eq!(graph.count(), window + 1);
    for node in 0..graph.count() {
        assert!(graph.fits(node, base.len()));
        let plain = graph.evaluate(node, &base);
        assert_eq!(plain.len(), graph.size(node));
        for (slot, expected) in plain.iter().enumerate() {
            assert_eq!(&graph.get(node, &base, slot), expected);
        }
        let again = graph.evaluate(node, &base);
        assert_eq!(again, plain);
    }
    assert_eq!(
        graph.evaluate(written, &base),
        {
            let select = |slot: usize| {
                Expr::app(
                    Function::Select,
                    vec![Expr::Var(slot), Expr::Var(4), Expr::Var(5), Expr::Var(6)],
                )
            };
            vec![select(1), select(2), select(3), Expr::Var(50), Expr::Var(51), Expr::Var(3), select(0)]
        }
    );
}

#[test]
fn identity_needs_a_base_that_is_long_enough() {
    let mut graph: Graph = Transformation::new();
    let id = graph.id(4);
    let view = graph.view(1, 2, id);
    let constant = graph.constant(vars(0, 9));
    assert!(graph.fits(view, 4));
    assert!(graph.fits(view, 10));
    assert!(!graph.fits(view, 3));
    assert!(graph.fits(constant, 0));
    let joined = graph.concat(&[constant, view]);
    assert!(!graph.fits(joined, 3));
    assert!(graph.fits(joined, 4));
}

#[test]
fn empty_ranges_lie_together_where_a_part_holds_their_start() {
    let mut graph: Graph = Transformation::new();
    let base = vars(0, 4);
    let id = graph.id(4);
    let constant = graph.constant(vars(10, 2));
    let joined = graph.concat(&[id, constant]);
    assert_eq!(graph.as_slice(id, &base, 4, 0).unwrap().len(), 0);
    assert_eq!(graph.as_slice(joined, &base, 4, 0).unwrap().len(), 0);
    assert!(graph.as_slice(joined, &base, 6, 0).is_none());
    assert_eq!(graph.to_slice(joined, &base, 6, 0).get().len(), 0);
}

#[test]
fn views_of_views_add_their_offsets() {
    let mut graph: Graph = Transformation::new();
    let base = vars(100, 12);
    let id = graph.id(12);
    let outer = graph.view(2, 9, id);
    let middle = graph.view(3, 5, outer);
    let inner = graph.view(1, 2, middle);
    assert_eq!(all(&mut graph, inner, &base), vec![106, 107]);
    assert_eq!(numbers(graph.as_slice(inner, &base, 1, 1).unwrap()), vec![107]);
    assert_eq!(graph.evaluate(middle, &base), vars(105, 5));
}
