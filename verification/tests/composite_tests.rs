use flat_encoding::array::Array;
use flat_encoding::choice::Choice;
use std::collections::BTreeMap;
use flat_encoding::composite::{Composite, Singleton, SingletonBool};
use flat_encoding::expr::{Expr, Function};
use flat_encoding::getter::{GetElem, OffsetGetter};
use flat_encoding::list::List;
use flat_encoding::sort::Sort;

fn integer() -> Singleton {
    Singleton(Sort::Int)
}

fn bits(width: usize) -> Singleton {
    Singleton(Sort::BitVec(width))
}

fn choice_of(alternatives: Vec<(u64, Vec<Singleton>)>) -> Choice<Vec<Singleton>> {
    let mut choice = Choice::new();
    for (key, alternative) in alternatives {
        assert!(choice.add(key, alternative));
    }
    choice
}

fn slots(count: usize) -> Vec<Expr> {
    (0..count).map(Expr::Var).collect()
}

/// The calls that `combine_elem` makes, as (kind, left, right, merged) with
/// `usize::MAX` for a side that the call does not take a leaf from.
fn trace<C: Composite>(
    left: &C,
    right: &C,
    start: (usize, usize, usize),
) -> (Vec<(char, usize, usize, usize)>, (usize, usize, usize)) {
    let comb = |mut acc: Vec<(char, usize, usize, usize)>, l: usize, r: usize, n: usize| {
        acc.push(('b', l, r, n));
        acc
    };
    let onlyl = |mut acc: Vec<(char, usize, usize, usize)>, l: usize, n: usize| {
        acc.push(('l', l, usize::MAX, n));
        acc
    };
    let onlyr = |mut acc: Vec<(char, usize, usize, usize)>, r: usize, n: usize| {
        acc.push(('r', usize::MAX, r, n));
        acc
    };
    let (mut offl, mut offr, mut offn) = start;
    let calls = left.combine_elem(
        right,
        &comb,
        &onlyl,
        &onlyr,
        Vec::new(),
        &mut offl,
        &mut offr,
        &mut offn,
    );
    (calls, (offl, offr, offn))
}

#[test]
fn singleton_has_one_leaf_of_its_sort() {
    let value = bits(8);
    assert_eq!(value.num_elem(), 1);
    assert_eq!(value.elem_sort(0), Sort::BitVec(8));
}

#[test]
fn boolean_singleton_has_one_boolean_leaf() {
    let value = SingletonBool {};
    assert_eq!(value.num_elem(), 1);
    assert_eq!(value.elem_sort(0), Sort::Bool);
    assert!(value.combine(&SingletonBool {}).is_some());
}

#[test]
fn singletons_merge_only_with_identical_sorts() {
    let merged = integer().combine(&integer());
    assert_eq!(merged.unwrap().0, Sort::Int);
    assert!(integer().combine(&bits(8)).is_none());
    assert!(bits(8).combine(&bits(16)).is_none());
    assert_eq!(bits(8).combine(&bits(8)).unwrap().0, Sort::BitVec(8));
}

#[test]
fn unit_has_no_leaves_and_always_merges() {
    assert_eq!(().num_elem(), 0);
    assert!(().combine(&()).is_some());
    let (calls, cursors) = trace(&(), &(), (3, 4, 5));
    assert!(calls.is_empty());
    assert_eq!(cursors, (3, 4, 5));
}

#[test]
fn tuple_lays_out_first_then_second() {
    let value = (vec![integer(), bits(4)], bits(8));
    assert_eq!(value.num_elem(), 3);
    assert_eq!(value.elem_sort(0), Sort::Int);
    assert_eq!(value.elem_sort(1), Sort::BitVec(4));
    assert_eq!(value.elem_sort(2), Sort::BitVec(8));
}

#[test]
fn tuple_merges_componentwise_and_fails_if_a_component_fails() {
    let left = (integer(), bits(8));
    let right = (integer(), bits(8));
    let merged = left.combine(&right).unwrap();
    assert!(merged.same_shape(&left));
    let other = (integer(), bits(9));
    assert!(left.combine(&other).is_none());
    let another = (bits(1), bits(8));
    assert!(left.combine(&another).is_none());
}

#[test]
fn sequence_counts_the_leaves_of_its_items() {
    let value = vec![vec![integer(), integer()], vec![bits(1)], vec![bits(2), bits(3), bits(4)]];
    assert_eq!(value.num_elem(), 6);
    assert_eq!(Vec::<Singleton>::new().num_elem(), 0);
}

#[test]
fn sequence_narrows_a_leaf_index_into_the_owning_item() {
    let value = vec![vec![integer(), integer()], vec![bits(1)], vec![bits(2), bits(3), bits(4)]];
    let sorts: Vec<Sort> = (0..6).map(|i| value.elem_sort(i)).collect();
    assert_eq!(
        sorts,
        vec![
            Sort::Int,
            Sort::Int,
            Sort::BitVec(1),
            Sort::BitVec(2),
            Sort::BitVec(3),
            Sort::BitVec(4)
        ]
    );
}

#[test]
fn sequence_merges_pairwise_and_keeps_the_longer_tail() {
    let short = vec![integer(), bits(8)];
    let long = vec![integer(), bits(8), bits(16)];
    let merged = short.combine(&long).unwrap();
    assert_eq!(merged.len(), 3);
    assert_eq!(merged[2].0, Sort::BitVec(16));
    assert!(merged.same_shape(&long));
    let merged = long.combine(&short).unwrap();
    assert!(merged.same_shape(&long));
    let clash = vec![bits(1), bits(8), bits(16)];
    assert!(short.combine(&clash).is_none());
}

#[test]
fn merging_a_value_with_itself_gives_its_shape() {
    let sequence = vec![vec![integer()], vec![], vec![bits(2), bits(3)]];
    assert!(sequence.combine(&sequence).unwrap().same_shape(&sequence));
    let tuple = (vec![integer()], (bits(1), ()));
    assert!(tuple.combine(&tuple).unwrap().same_shape(&tuple));
    let none: Option<Singleton> = None;
    assert!(none.combine(&none).unwrap().same_shape(&none));
    let some = Some(vec![integer(), bits(7)]);
    assert!(some.combine(&some).unwrap().same_shape(&some));
    let array = Array { index: vec![bits(32)], element: (integer(), bits(8)) };
    assert!(array.combine(&array).unwrap().same_shape(&array));
    let choice = choice_of(vec![(1, vec![integer()]), (5, vec![])]);
    assert!(choice.combine(&choice).unwrap().same_shape(&choice));
}

#[test]
fn optional_merges_none_with_anything_to_the_other_side() {
    let none: Option<Vec<Singleton>> = None;
    let some = Some(vec![integer(), bits(2)]);
    assert_eq!(none.num_elem(), 0);
    assert_eq!(some.num_elem(), 2);
    assert_eq!(some.elem_sort(1), Sort::BitVec(2));
    assert!(none.combine(&some).unwrap().same_shape(&some));
    assert!(some.combine(&none).unwrap().same_shape(&some));
    assert!(none.combine(&none).unwrap().is_none());
    let longer = Some(vec![integer(), bits(2), bits(3)]);
    assert!(some.combine(&longer).unwrap().same_shape(&longer));
    let clash = Some(vec![bits(1)]);
    assert!(some.combine(&clash).is_none());
}

#[test]
fn optional_walk_takes_the_leaves_of_the_side_that_has_them() {
    let none: Option<Vec<Singleton>> = None;
    let some = Some(vec![integer(), bits(2)]);
    let (calls, cursors) = trace(&none, &some, (10, 20, 30));
    assert_eq!(calls, vec![('r', usize::MAX, 20, 30), ('r', usize::MAX, 21, 31)]);
    assert_eq!(cursors, (10, 22, 32));
    let (calls, cursors) = trace(&some, &none, (10, 20, 30));
    assert_eq!(calls, vec![('l', 10, usize::MAX, 30), ('l', 11, usize::MAX, 31)]);
    assert_eq!(cursors, (12, 20, 32));
}

#[test]
fn choice_counts_one_selector_for_each_alternative() {
    let choice = choice_of(vec![(1, vec![integer(), integer()]), (2, vec![]), (7, vec![bits(3)])]);
    assert_eq!(choice.len(), 3);
    assert_eq!(choice.num_elem(), 6);
    let sorts: Vec<Sort> = (0..6).map(|i| choice.elem_sort(i)).collect();
    assert_eq!(
        sorts,
        vec![Sort::Bool, Sort::Int, Sort::Int, Sort::Bool, Sort::Bool, Sort::BitVec(3)]
    );
}

#[test]
fn choice_keeps_its_keys_rising() {
    let mut choice: Choice<Singleton> = Choice::new();
    assert!(choice.add(3, integer()));
    assert!(!choice.add(3, integer()));
    assert!(!choice.add(2, integer()));
    assert!(choice.add(4, bits(1)));
    assert_eq!(choice.len(), 2);
    assert_eq!(choice.key(0), 3);
    assert_eq!(choice.key(1), 4);
    assert_eq!(choice.alternative(1).0, Sort::BitVec(1));
}

#[test]
fn choices_with_disjoint_keys_merge_to_their_union_in_key_order() {
    let left = choice_of(vec![(1, vec![integer()]), (4, vec![bits(4)]), (9, vec![])]);
    let right = choice_of(vec![(0, vec![bits(1)]), (5, vec![integer(), integer()])]);
    let merged = left.combine(&right).unwrap();
    let keys: Vec<u64> = (0..merged.len()).map(|k| merged.key(k)).collect();
    assert_eq!(keys, vec![0, 1, 4, 5, 9]);
    assert!(merged.alternative(0).same_shape(&vec![bits(1)]));
    assert!(merged.alternative(1).same_shape(&vec![integer()]));
    assert!(merged.alternative(2).same_shape(&vec![bits(4)]));
    assert!(merged.alternative(3).same_shape(&vec![integer(), integer()]));
    assert!(merged.alternative(4).same_shape(&vec![]));
    assert_eq!(merged.num_elem(), 5 + 5);
}

#[test]
fn choices_merge_the_alternatives_that_share_a_key() {
    let left = choice_of(vec![(1, vec![integer()]), (4, vec![bits(4)])]);
    let right = choice_of(vec![(4, vec![bits(4), bits(5)]), (6, vec![])]);
    let merged = left.combine(&right).unwrap();
    let keys: Vec<u64> = (0..merged.len()).map(|k| merged.key(k)).collect();
    assert_eq!(keys, vec![1, 4, 6]);
    assert!(merged.alternative(1).same_shape(&vec![bits(4), bits(5)]));
    let clash = choice_of(vec![(4, vec![bits(5)])]);
    assert!(left.combine(&clash).is_none());
}

#[test]
fn choice_walk_calls_once_for_each_leaf_of_the_merge() {
    let left = choice_of(vec![(1, vec![integer()]), (4, vec![bits(4)])]);
    let right = choice_of(vec![(4, vec![bits(4), bits(5)]), (6, vec![])]);
    let (calls, cursors) = trace(&left, &right, (0, 0, 0));
    assert_eq!(
        calls,
        vec![
            ('l', 0, usize::MAX, 0),
            ('l', 1, usize::MAX, 1),
            ('b', 2, 0, 2),
            ('b', 3, 1, 3),
            ('r', usize::MAX, 2, 4),
            ('r', usize::MAX, 3, 5),
        ]
    );
    assert_eq!(cursors, (left.num_elem(), right.num_elem(), 6));
    assert_eq!(calls.len(), left.combine(&right).unwrap().num_elem());
}

#[test]
fn sequence_walk_calls_once_for_each_leaf_of_the_merge() {
    let left = vec![vec![integer(), integer()], vec![bits(1)]];
    let right = vec![vec![integer()], vec![bits(1)], vec![bits(2), bits(3)]];
    let (calls, cursors) = trace(&left, &right, (100, 200, 300));
    assert_eq!(
        calls,
        vec![
            ('b', 100, 200, 300),
            ('l', 101, usize::MAX, 301),
            ('b', 102, 201, 302),
            ('r', usize::MAX, 202, 303),
            ('r', usize::MAX, 203, 304),
        ]
    );
    assert_eq!(cursors, (103, 204, 305));
    let merged = left.combine(&right).unwrap();
    assert_eq!(calls.len(), merged.num_elem());
    let (calls, cursors) = trace(&right, &left, (0, 0, 0));
    assert_eq!(
        calls,
        vec![
            ('b', 0, 0, 0),
            ('r', usize::MAX, 1, 1),
            ('b', 1, 2, 2),
            ('l', 2, usize::MAX, 3),
            ('l', 3, usize::MAX, 4),
        ]
    );
    assert_eq!(cursors, (4, 3, 5));
}

#[test]
fn singleton_walk_makes_one_call_on_both_sides() {
    let (calls, cursors) = trace(&integer(), &bits(3), (7, 8, 9));
    assert_eq!(calls, vec![('b', 7, 8, 9)]);
    assert_eq!(cursors, (8, 9, 10));
}

#[test]
fn mapping_lays_out_its_values_in_key_order() {
    let mut map: BTreeMap<u64, Vec<Singleton>> = BTreeMap::new();
    map.insert(5, vec![bits(1), bits(2)]);
    map.insert(2, vec![integer()]);
    map.insert(9, vec![]);
    assert_eq!(map.num_elem(), 3);
    let sorts: Vec<Sort> = (0..3).map(|i| map.elem_sort(i)).collect();
    assert_eq!(sorts, vec![Sort::Int, Sort::BitVec(1), Sort::BitVec(2)]);
    let copy = map.duplicate();
    assert!(copy.same_shape(&map));
    assert_eq!(copy.keys().cloned().collect::<Vec<u64>>(), vec![2, 5, 9]);
    let mut other: BTreeMap<u64, Vec<Singleton>> = BTreeMap::new();
    other.insert(2, vec![integer()]);
    other.insert(5, vec![bits(1), bits(2)]);
    assert!(!other.same_shape(&map));
    other.insert(9, vec![]);
    assert!(other.same_shape(&map));
    let empty: BTreeMap<u64, Singleton> = BTreeMap::new();
    assert_eq!(empty.num_elem(), 0);
}

#[test]
fn mapping_merges_to_the_union_of_the_keys() {
    let mut left: BTreeMap<u64, Vec<Singleton>> = BTreeMap::new();
    left.insert(5, vec![bits(1), bits(2)]);
    left.insert(2, vec![integer()]);
    let mut right: BTreeMap<u64, Vec<Singleton>> = BTreeMap::new();
    right.insert(1, vec![bits(9)]);
    right.insert(5, vec![bits(1), bits(2), bits(3)]);
    let merged = left.combine(&right).unwrap();
    assert_eq!(merged.keys().cloned().collect::<Vec<u64>>(), vec![1, 2, 5]);
    assert!(merged[&1].same_shape(&vec![bits(9)]));
    assert!(merged[&2].same_shape(&vec![integer()]));
    assert!(merged[&5].same_shape(&vec![bits(1), bits(2), bits(3)]));
    assert_eq!(merged.num_elem(), 5);
    let (calls, cursors) = trace(&left, &right, (0, 0, 0));
    assert_eq!(
        calls,
        vec![
            ('r', usize::MAX, 0, 0),
            ('l', 0, usize::MAX, 1),
            ('b', 1, 1, 2),
            ('b', 2, 2, 3),
            ('r', usize::MAX, 3, 4),
        ]
    );
    assert_eq!(cursors, (3, 4, 5));
    assert_eq!(calls.len(), merged.num_elem());
    let mut clash: BTreeMap<u64, Vec<Singleton>> = BTreeMap::new();
    clash.insert(2, vec![bits(1)]);
    assert!(left.combine(&clash).is_none());
    assert!(left.combine(&left).unwrap().same_shape(&left));
}

#[test]
fn mapping_passes_the_offset_on_to_its_values() {
    let mut map: BTreeMap<u64, Choice<Vec<Singleton>>> = BTreeMap::new();
    map.insert(7, choice_of(vec![(0, vec![]), (1, vec![bits(2)])]));
    map.insert(3, choice_of(vec![(0, vec![integer()])]));
    let leaf = slots(5);
    let mut off = 0;
    let mut out = Vec::new();
    map.invariants(&leaf, &mut off, &mut out);
    assert_eq!(off, 5);
    assert_eq!(
        out,
        vec![
            Expr::app(Function::AtMost(1), vec![Expr::Var(0)]),
            Expr::app(Function::AtLeast(1), vec![Expr::Var(0)]),
            Expr::app(Function::AtMost(1), vec![Expr::Var(2), Expr::Var(3)]),
            Expr::app(Function::AtLeast(1), vec![Expr::Var(2), Expr::Var(3)]),
        ]
    );
}

#[test]
fn array_lays_out_its_element_as_arrays_over_the_index_sorts() {
    let array = Array { index: (bits(32), integer()), element: vec![bits(8), Singleton(Sort::Bool)] };
    assert_eq!(array.num_elem(), 2);
    let index = List::from_vec(vec![Sort::BitVec(32), Sort::Int]);
    assert_eq!(
        array.elem_sort(0),
        Sort::Array(Box::new(index), Box::new(Sort::BitVec(8)))
    );
    let index = List::from_vec(vec![Sort::BitVec(32), Sort::Int]);
    assert_eq!(array.elem_sort(1), Sort::Array(Box::new(index), Box::new(Sort::Bool)));
}

#[test]
fn arrays_merge_only_with_identical_index_shapes() {
    let left = Array { index: vec![bits(32)], element: vec![integer()] };
    let right = Array { index: vec![bits(32)], element: vec![integer(), bits(1)] };
    let merged = left.combine(&right).unwrap();
    assert!(merged.same_shape(&right));
    let other = Array { index: vec![bits(64)], element: vec![integer()] };
    assert!(left.combine(&other).is_none());
    let clash = Array { index: vec![bits(32)], element: vec![bits(2)] };
    assert!(left.combine(&clash).is_none());
    let (calls, cursors) = trace(&left, &right, (0, 0, 0));
    assert_eq!(calls, vec![('b', 0, 0, 0), ('r', usize::MAX, 1, 1)]);
    assert_eq!(cursors, (1, 2, 2));
}

#[test]
fn values_without_unions_have_no_constraints() {
    let value = (vec![integer(), bits(2)], Some(Array { index: integer(), element: bits(8) }));
    let leaf = slots(3);
    let mut off = 0;
    let mut out = Vec::new();
    value.invariants(&leaf, &mut off, &mut out);
    assert_eq!(off, 3);
    assert!(out.is_empty());
}

#[test]
fn union_appends_two_constraints_over_all_its_selectors() {
    let choice = choice_of(vec![(1, vec![integer(), integer()]), (2, vec![]), (7, vec![bits(3)])]);
    let leaf = slots(6);
    let mut off = 0;
    let mut out = vec![Expr::Var(99)];
    choice.invariants(&leaf, &mut off, &mut out);
    assert_eq!(off, 6);
    assert_eq!(out.len(), 3);
    assert_eq!(out[0], Expr::Var(99));
    let selectors = || vec![Expr::Var(0), Expr::Var(3), Expr::Var(4)];
    assert_eq!(out[1], Expr::app(Function::AtMost(1), selectors()));
    assert_eq!(out[2], Expr::app(Function::AtLeast(1), selectors()));
    match &out[1] {
        Expr::App(_, arguments) => assert_eq!(arguments.len(), choice.len()),
        _ => panic!("not an application"),
    }
}

#[test]
fn union_puts_the_constraints_of_an_alternative_under_its_selector() {
    let inner = |key: u64| {
        let mut choice: Choice<Singleton> = Choice::new();
        assert!(choice.add(key, integer()));
        assert!(choice.add(key + 1, integer()));
        choice
    };
    let mut outer: Choice<Choice<Singleton>> = Choice::new();
    assert!(outer.add(10, inner(0)));
    assert!(outer.add(20, inner(5)));
    assert_eq!(outer.num_elem(), 10);
    let leaf = slots(20);
    let mut off = 2;
    let mut out = Vec::new();
    outer.invariants(&leaf, &mut off, &mut out);
    assert_eq!(off, 12);
    let implies = |guard: usize, body: Expr| Expr::app(Function::Implies, vec![Expr::Var(guard), body]);
    let at_most = |slots: Vec<usize>| {
        Expr::app(Function::AtMost(1), slots.into_iter().map(Expr::Var).collect())
    };
    let at_least = |slots: Vec<usize>| {
        Expr::app(Function::AtLeast(1), slots.into_iter().map(Expr::Var).collect())
    };
    assert_eq!(
        out,
        vec![
            implies(2, at_most(vec![3, 5])),
            implies(2, at_least(vec![3, 5])),
            implies(7, at_most(vec![8, 10])),
            implies(7, at_least(vec![8, 10])),
            at_most(vec![2, 7]),
            at_least(vec![2, 7]),
        ]
    );
}

#[test]
fn sequence_passes_the_offset_on_to_the_unions_in_it() {
    let value = vec![
        choice_of(vec![(0, vec![integer()])]),
        choice_of(vec![(0, vec![]), (1, vec![bits(2), bits(3)])]),
    ];
    let leaf = OffsetGetter { offset: 100, getter: slots(200) };
    assert_eq!(leaf.get_elem(5), Expr::Var(105));
    let mut off = 0;
    let mut out = Vec::new();
    value.invariants(&leaf, &mut off, &mut out);
    assert_eq!(off, 6);
    assert_eq!(out.len(), 4);
    assert_eq!(out[0], Expr::app(Function::AtMost(1), vec![Expr::Var(100)]));
    assert_eq!(out[1], Expr::app(Function::AtLeast(1), vec![Expr::Var(100)]));
    assert_eq!(out[2], Expr::app(Function::AtMost(1), vec![Expr::Var(102), Expr::Var(103)]));
    assert_eq!(out[3], Expr::app(Function::AtLeast(1), vec![Expr::Var(102), Expr::Var(103)]));
}

#[test]
fn duplicates_have_the_shape_of_what_they_copy() {
    let value = (vec![Some(integer()), None], choice_of(vec![(3, vec![bits(1)])]));
    let copy = value.duplicate();
    assert!(copy.same_shape(&value));
    let other = (vec![Some(integer())], choice_of(vec![(3, vec![bits(1)])]));
    assert!(!other.same_shape(&value));
    let another = (vec![Some(integer()), None], choice_of(vec![(4, vec![bits(1)])]));
    assert!(!another.same_shape(&value));
}

#[test]
fn union_without_alternatives_still_has_its_two_constraints() {
    let choice: Choice<Singleton> = Choice::new();
    assert_eq!(choice.num_elem(), 0);
    let leaf = slots(0);
    let mut off = 4;
    let mut out = Vec::new();
    choice.invariants(&leaf, &mut off, &mut out);
    assert_eq!(off, 4);
    assert_eq!(
        out,
        vec![
            Expr::app(Function::AtMost(1), Vec::new()),
            Expr::app(Function::AtLeast(1), Vec::new()),
        ]
    );
}

#[test]
fn nested_values_walk_their_parts_in_layout_order() {
    let left = (Some(vec![integer(), bits(2)]), vec![Array { index: bits(8), element: integer() }]);
    let right = (None, vec![
        Array { index: bits(8), element: integer() },
        Array { index: bits(8), element: integer() },
    ]);
    let (calls, cursors) = trace(&left, &right, (0, 10, 20));
    assert_eq!(
        calls,
        vec![
            ('l', 0, usize::MAX, 20),
            ('l', 1, usize::MAX, 21),
            ('b', 2, 10, 22),
            ('r', usize::MAX, 11, 23),
        ]
    );
    assert_eq!(cursors, (3, 12, 24));
    let merged = left.combine(&right).unwrap();
    assert_eq!(merged.num_elem(), 4);
    let index = || Box::new(List::from_vec(vec![Sort::BitVec(8)]));
    assert_eq!(merged.elem_sort(0), Sort::Int);
    assert_eq!(merged.elem_sort(1), Sort::BitVec(2));
    assert_eq!(merged.elem_sort(2), Sort::Array(index(), Box::new(Sort::Int)));
    assert_eq!(merged.elem_sort(3), Sort::Array(index(), Box::new(Sort::Int)));
}

#[test]
fn walk_goes_on_where_the_values_cannot_be_merged() {
    let left = vec![integer(), bits(1)];
    let right = vec![bits(8)];
    assert!(left.combine(&right).is_none());
    let (calls, cursors) = trace(&left, &right, (0, 0, 0));
    assert_eq!(calls, vec![('b', 0, 0, 0), ('l', 1, usize::MAX, 1)]);
    assert_eq!(cursors, (2, 1, 2));
}
