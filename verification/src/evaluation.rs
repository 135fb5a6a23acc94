//! How the slots of graph nodes are computed.
use vstd::prelude::*;
use crate::expr::{Expr, Function};
use crate::transformation::BorrowedSlice;
use crate::graph::{
    cleared, coherent, contiguous, contiguous_parts, eval, filled, fills, fits, flat,
    image_elem, kids, lemma_eval_len, lemma_fills_coherent, lemma_fills_twice, lemma_image,
    lemma_image_elem, lemma_parts_index, lemma_size_bound, lemma_wipes_cleared, node_ok,
    nodes_ok, parts_eval, pure_elem, reaches, reaches_by, select, size, total, wiped_from,
    wipes, ElemFn, Node,
};

verus! {

/// The number of slots of node `id`.
pub(crate) fn size_in<M: Fn(&[Expr]) -> Vec<Expr>, B: Fn(&[Expr], usize, Expr) -> Expr>(
    nodes: &Vec<Node<M, B>>,
    id: usize,
) -> (count: usize)
    requires
        nodes_ok(nodes@),
        id < nodes@.len(),
    ensures
        count == size(nodes@, id as int),
    decreases id,
{
    assert(node_ok(nodes@, id as int));
    match &nodes[id] {
        Node::Id(size) => *size,
        Node::View(_, length, _) => *length,
        Node::Concat(size, _) => *size,
        Node::Constant(exprs) => exprs.len(),
        Node::MapSlice(size, _, _) => *size,
        Node::Write(size, _, _, _, _) => *size,
        Node::MapByElem(_, node) => size_in(nodes, *node),
    }
}

/// All slots of node `id` over `base`, each computed by itself.
pub(crate) fn collect_in<M: Fn(&[Expr]) -> Vec<Expr>, B: Fn(&[Expr], usize, Expr) -> Expr>(
    nodes: &Vec<Node<M, B>>,
    caches: &mut Vec<Option<Vec<Expr>>>,
    id: usize,
    base: &[Expr],
    from: usize,
    count: usize,
) -> (slots: Vec<Expr>)
    requires
        nodes_ok(nodes@),
        old(caches)@.len() == nodes@.len(),
        id < nodes@.len(),
        from + count <= size(nodes@, id as int),
        fits(nodes@, id as int, base@.len()),
        coherent(nodes@, old(caches)@, id as int, base@),
    ensures
        fills(nodes@, old(caches)@, final(caches)@, base@),
        slots@ == eval(nodes@, id as int, base@).subrange(from as int, from + count),
    decreases id, 1nat,
{
    let ghost start = caches@;
    let mut slots: Vec<Expr> = Vec::new();
    let mut k: usize = 0;
    proof {
        lemma_eval_len(nodes@, id as int, base@);
        lemma_size_bound(nodes@, id as int);
    }
    while k < count
        invariant
            k <= count,
            nodes_ok(nodes@),
            start.len() == nodes@.len(),
            id < nodes@.len(),
            from + count <= size(nodes@, id as int) <= usize::MAX,
            eval(nodes@, id as int, base@).len() == size(nodes@, id as int),
            fits(nodes@, id as int, base@.len()),
            coherent(nodes@, start, id as int, base@),
            fills(nodes@, start, caches@, base@),
            slots@ == eval(nodes@, id as int, base@).subrange(from as int, from + k),
        decreases count - k,
    {
        let ghost before = caches@;
        proof {
            lemma_fills_coherent(nodes@, start, before, base@, id as int);
        }
        let slot = get_in(nodes, caches, id, base, from + k);
        slots.push(slot);
        proof {
            lemma_fills_twice(nodes@, start, before, caches@, base@);
            assert(slots@ =~= eval(nodes@, id as int, base@).subrange(from as int, from + k + 1));
        }
        k = k + 1;
    }
    slots
}

/// Slot `idx` of node `id` over `base`.
pub(crate) fn get_in<M: Fn(&[Expr]) -> Vec<Expr>, B: Fn(&[Expr], usize, Expr) -> Expr>(
    nodes: &Vec<Node<M, B>>,
    caches: &mut Vec<Option<Vec<Expr>>>,
    id: usize,
    base: &[Expr],
    idx: usize,
) -> (slot: Expr)
    requires
        nodes_ok(nodes@),
        old(caches)@.len() == nodes@.len(),
        id < nodes@.len(),
        idx < size(nodes@, id as int),
        fits(nodes@, id as int, base@.len()),
        coherent(nodes@, old(caches)@, id as int, base@),
    ensures
        fills(nodes@, old(caches)@, final(caches)@, base@),
        nodes@[id as int] is MapSlice ==> final(caches)@[id as int] is Some,
        slot == eval(nodes@, id as int, base@)[idx as int],
    decreases id, 0nat,
{
    let ghost start = caches@;
    proof {
        assert(node_ok(nodes@, id as int));
        lemma_eval_len(nodes@, id as int, base@);
    }
    match &nodes[id] {
        Node::Id(_) => base[idx].duplicate(),
        Node::View(offset, _, node) => {
            proof {
                assert(kids(nodes@, id as int)[0] == *node);
                lemma_eval_len(nodes@, *node as int, base@);
                lemma_size_bound(nodes@, *node as int);
            }
            get_in(nodes, caches, *node, base, *offset + idx)
        },
        Node::Concat(_, parts) => {
            let mut before: usize = 0;
            let mut k: usize = 0;
            while k < parts.len()
                invariant
                    k <= parts@.len(),
                    nodes_ok(nodes@),
                    id < nodes@.len(),
                    nodes@[id as int] is Concat,
                    parts@ == nodes@[id as int]->Concat_1@,
                    node_ok(nodes@, id as int),
                    before == total(nodes@, parts@, k as int),
                    before <= idx,
                    idx < size(nodes@, id as int),
                    caches@ == start,
                    start == old(caches)@,
                    caches@.len() == nodes@.len(),
                    fits(nodes@, id as int, base@.len()),
                    coherent(nodes@, start, id as int, base@),
                decreases parts@.len() - k,
            {
                let part = parts[k];
                proof {
                    assert(parts@[k as int] < id);
                    assert(kids(nodes@, id as int)[k as int] == part);
                    assert(total(nodes@, parts@, k + 1) == before + size(nodes@, part as int));
                    lemma_total_rises(nodes@, parts@, k + 1, parts@.len() as int);
                }
                let own = size_in(nodes, part);
                if idx - before < own {
                    proof {
                        lemma_parts_index(
                            nodes@,
                            id as int,
                            base@,
                            parts@.len() as int,
                            k as int,
                            idx - before,
                        );
                    }
                    return get_in(nodes, caches, part, base, idx - before);
                }
                before = before + own;
                k = k + 1;
            }
            proof {
                assert(false);
            }
            Expr::Var(0)
        },
        Node::Constant(exprs) => exprs[idx].duplicate(),
        Node::MapSlice(size, function, node) => {
            let cached = match &caches[id] {
                Some(slots) => Some(slots[idx].duplicate()),
                None => None,
            };
            match cached {
                Some(slot) => slot,
                None => {
                    proof {
                        assert(kids(nodes@, id as int)[0] == *node);
                        lemma_eval_len(nodes@, *node as int, base@);
                    }
                    let count = size_in(nodes, *node);
                    let input = to_slice_in(nodes, caches, *node, base, 0, count);
                    let argument = input.get();
                    let out = function(argument);
                    proof {
                        assert(argument@ =~= eval(nodes@, *node as int, base@));
                        lemma_image(*function, argument, out, *size as nat);
                    }
                    let slot = out[idx].duplicate();
                    let ghost filled = caches@;
                    caches.set(id, Some(out));
                    proof {
                        assert forall|other: int| 0 <= other < start.len() implies #[trigger] caches@[other]
                            == start[other] || (start[other] is None && caches@[other] is Some
                            && caches@[other].unwrap()@ == eval(nodes@, other, base@)) by {
                            assert(filled[other] == start[other] || (start[other] is None
                                && filled[other] is Some && filled[other].unwrap()@ == eval(
                                nodes@,
                                other,
                                base@,
                            )));
                        }
                    }
                    slot
                },
            }
        },
        Node::Write(_, offset, length, source, target) => {
            proof {
                assert(kids(nodes@, id as int)[0] == *source);
                assert(kids(nodes@, id as int)[1] == *target);
                lemma_eval_len(nodes@, *source as int, base@);
                lemma_eval_len(nodes@, *target as int, base@);
                lemma_size_bound(nodes@, *target as int);
            }
            let own = size_in(nodes, *source);
            if idx < *offset {
                get_in(nodes, caches, *target, base, idx)
            } else if idx - *offset < own {
                get_in(nodes, caches, *source, base, idx - *offset)
            } else {
                get_in(nodes, caches, *target, base, idx - own + *length)
            }
        },
        Node::MapByElem(ElemFn::Select { input, offset, count }, node) => {
            proof {
                assert(kids(nodes@, id as int)[0] == *node);
                assert(kids(nodes@, id as int)[1] == *input);
                lemma_eval_len(nodes@, *node as int, base@);
                lemma_eval_len(nodes@, *input as int, base@);
            }
            let element = get_in(nodes, caches, *node, base, idx);
            proof {
                lemma_fills_coherent(nodes@, start, caches@, base@, *input as int);
            }
            let ghost middle = caches@;
            let index = collect_in(nodes, caches, *input, base, *offset, *count);
            proof {
                lemma_fills_twice(nodes@, start, middle, caches@, base@);
            }
            let mut arguments: Vec<Expr> = Vec::new();
            arguments.push(element);
            let mut index = index;
            arguments.append(&mut index);
            proof {
                assert(arguments@ =~= seq![element] + eval(nodes@, *input as int, base@).subrange(
                    *offset as int,
                    *offset + *count,
                ));
            }
            Expr::app(Function::Select, arguments)
        },
        Node::MapByElem(ElemFn::Custom(function), node) => {
            proof {
                assert(kids(nodes@, id as int)[0] == *node);
                lemma_eval_len(nodes@, *node as int, base@);
            }
            let element = get_in(nodes, caches, *node, base, idx);
            let out = function(base, idx, element);
            proof {
                lemma_image_elem(*function, base, idx, element, out);
            }
            out
        },
    }
}

/// A copy of the items of `from` from `start` up to `end`.
pub(crate) fn copy_range(from: &[Expr], start: usize, end: usize) -> (copy: Vec<Expr>)
    requires
        start <= end <= from@.len(),
    ensures
        copy@ == from@.subrange(start as int, end as int),
{
    let mut copy: Vec<Expr> = Vec::new();
    let mut k: usize = start;
    while k < end
        invariant
            start <= k <= end <= from@.len(),
            copy@ == from@.subrange(start as int, k as int),
        decreases end - k,
    {
        copy.push(from[k].duplicate());
        assert(copy@ =~= from@.subrange(start as int, k + 1));
        k = k + 1;
    }
    copy
}

/// All slots of node `id` over `base`, computed from the slots of the nodes
/// that it refers to, without any cache.
pub(crate) fn evaluate_in<M: Fn(&[Expr]) -> Vec<Expr>, B: Fn(&[Expr], usize, Expr) -> Expr>(
    nodes: &Vec<Node<M, B>>,
    id: usize,
    base: &[Expr],
) -> (slots: Vec<Expr>)
    requires
        nodes_ok(nodes@),
        id < nodes@.len(),
        fits(nodes@, id as int, base@.len()),
    ensures
        slots@ == eval(nodes@, id as int, base@),
    decreases id,
{
    proof {
        assert(node_ok(nodes@, id as int));
        lemma_eval_len(nodes@, id as int, base@);
        lemma_size_bound(nodes@, id as int);
    }
    match &nodes[id] {
        Node::Id(size) => {
            let slots = copy_range(base, 0, *size);
            proof {
                assert(slots@ =~= base@.take(*size as int));
            }
            slots
        },
        Node::View(offset, length, node) => {
            proof {
                assert(kids(nodes@, id as int)[0] == *node);
                lemma_eval_len(nodes@, *node as int, base@);
                lemma_size_bound(nodes@, *node as int);
            }
            let inner = evaluate_in(nodes, *node, base);
            copy_range(inner.as_slice(), *offset, *offset + *length)
        },
        Node::Concat(_, parts) => {
            let mut slots: Vec<Expr> = Vec::new();
            let mut k: usize = 0;
            while k < parts.len()
                invariant
                    k <= parts@.len(),
                    nodes_ok(nodes@),
                    id < nodes@.len(),
                    nodes@[id as int] is Concat,
                    parts@ == nodes@[id as int]->Concat_1@,
                    node_ok(nodes@, id as int),
                    fits(nodes@, id as int, base@.len()),
                    slots@ == parts_eval(nodes@, id as int, base@, k as int),
                decreases parts@.len() - k,
            {
                let part = parts[k];
                proof {
                    assert(parts@[k as int] < id);
                    assert(kids(nodes@, id as int)[k as int] == part);
                }
                let mut inner = evaluate_in(nodes, part, base);
                slots.append(&mut inner);
                k = k + 1;
            }
            slots
        },
        Node::Constant(exprs) => {
            let slots = copy_range(exprs.as_slice(), 0, exprs.len());
            proof {
                assert(slots@ =~= exprs@);
            }
            slots
        },
        Node::MapSlice(size, function, node) => {
            proof {
                assert(kids(nodes@, id as int)[0] == *node);
                lemma_eval_len(nodes@, *node as int, base@);
            }
            let inner = evaluate_in(nodes, *node, base);
            let argument = inner.as_slice();
            let out = function(argument);
            proof {
                lemma_image(*function, argument, out, *size as nat);
            }
            out
        },
        Node::Write(_, offset, length, source, target) => {
            proof {
                assert(kids(nodes@, id as int)[0] == *source);
                assert(kids(nodes@, id as int)[1] == *target);
                lemma_eval_len(nodes@, *source as int, base@);
                lemma_eval_len(nodes@, *target as int, base@);
                lemma_size_bound(nodes@, *target as int);
            }
            let outer = evaluate_in(nodes, *target, base);
            let mut inner = evaluate_in(nodes, *source, base);
            let mut slots = copy_range(outer.as_slice(), 0, *offset);
            let mut rest = copy_range(outer.as_slice(), *offset + *length, outer.len());
            slots.append(&mut inner);
            slots.append(&mut rest);
            proof {
                assert(slots@ =~= eval(nodes@, id as int, base@));
            }
            slots
        },
        Node::MapByElem(ElemFn::Select { input, offset, count }, node) => {
            proof {
                assert(kids(nodes@, id as int)[0] == *node);
                assert(kids(nodes@, id as int)[1] == *input);
                lemma_eval_len(nodes@, *node as int, base@);
                lemma_eval_len(nodes@, *input as int, base@);
                lemma_size_bound(nodes@, *input as int);
            }
            let elements = evaluate_in(nodes, *node, base);
            let all = evaluate_in(nodes, *input, base);
            let mut slots: Vec<Expr> = Vec::new();
            let mut k: usize = 0;
            while k < elements.len()
                invariant
                    k <= elements@.len(),
                    *offset + *count <= all@.len() <= usize::MAX,
                    slots@.len() == k,
                    forall|m: int|
                        0 <= m < k ==> slots@[m] == select(
                            elements@[m],
                            all@.subrange(*offset as int, *offset + *count),
                        ),
                decreases elements@.len() - k,
            {
                let mut arguments: Vec<Expr> = Vec::new();
                arguments.push(elements[k].duplicate());
                let mut index = copy_range(all.as_slice(), *offset, *offset + *count);
                arguments.append(&mut index);
                proof {
                    assert(arguments@ =~= seq![elements@[k as int]] + all@.subrange(
                        *offset as int,
                        *offset + *count,
                    ));
                }
                slots.push(Expr::app(Function::Select, arguments));
                k = k + 1;
            }
            proof {
                assert(slots@ =~= eval(nodes@, id as int, base@));
            }
            slots
        },
        Node::MapByElem(ElemFn::Custom(function), node) => {
            proof {
                assert(kids(nodes@, id as int)[0] == *node);
                lemma_eval_len(nodes@, *node as int, base@);
            }
            let elements = evaluate_in(nodes, *node, base);
            let mut slots: Vec<Expr> = Vec::new();
            let mut k: usize = 0;
            while k < elements.len()
                invariant
                    k <= elements@.len(),
                    pure_elem(*function),
                    slots@.len() == k,
                    forall|m: int|
                        0 <= m < k ==> slots@[m] == image_elem(
                            *function,
                            base@,
                            m as usize,
                            elements@[m],
                        ),
                decreases elements@.len() - k,
            {
                let element = elements[k].duplicate();
                let out = function(base, k, element);
                proof {
                    lemma_image_elem(*function, base, k, element, out);
                }
                slots.push(out);
                k = k + 1;
            }
            proof {
                assert(slots@ =~= eval(nodes@, id as int, base@));
            }
            slots
        },
    }
}

/// The nodes that node `id` refers to.
pub(crate) fn kids_in<M, B>(nodes: &Vec<Node<M, B>>, id: usize) -> (found: Vec<usize>)
    requires
        id < nodes@.len(),
    ensures
        found@.len() == kids(nodes@, id as int).len(),
        forall|k: int| 0 <= k < found@.len() ==> found@[k] == #[trigger] kids(nodes@, id as int)[k],
{
    let mut found: Vec<usize> = Vec::new();
    match &nodes[id] {
        Node::Id(_) => {},
        Node::View(_, _, node) => {
            found.push(*node);
        },
        Node::Concat(_, parts) => {
            let mut k: usize = 0;
            while k < parts.len()
                invariant
                    k <= parts@.len(),
                    found@ == parts@.take(k as int),
                decreases parts@.len() - k,
            {
                found.push(parts[k]);
                assert(found@ =~= parts@.take(k + 1));
                k = k + 1;
            }
        },
        Node::Constant(_) => {},
        Node::MapSlice(_, _, node) => {
            found.push(*node);
        },
        Node::Write(_, _, _, source, target) => {
            found.push(*source);
            found.push(*target);
        },
        Node::MapByElem(ElemFn::Select { input, offset, count }, node) => {
            found.push(*node);
            found.push(*input);
        },
        Node::MapByElem(ElemFn::Custom(_), node) => {
            found.push(*node);
        },
    }
    found
}

/// Whether a base array of `length` items is long enough for node `id`.
pub(crate) fn fits_in<M, B>(nodes: &Vec<Node<M, B>>, id: usize, length: usize) -> (ok: bool)
    requires
        id < nodes@.len(),
    ensures
        ok == fits(nodes@, id as int, length as nat),
    decreases id,
{
    match &nodes[id] {
        Node::Id(size) => {
            return *size <= length;
        },
        _ => {},
    }
    let found = kids_in(nodes, id);
    let mut k: usize = 0;
    while k < found.len()
        invariant
            k <= found@.len(),
            id < nodes@.len(),
            !(nodes@[id as int] is Id),
            found@.len() == kids(nodes@, id as int).len(),
            forall|m: int|
                0 <= m < found@.len() ==> found@[m] == #[trigger] kids(nodes@, id as int)[m],
            forall|m: int|
                0 <= m < k && (#[trigger] kids(nodes@, id as int)[m]) < id ==> fits(
                    nodes@,
                    kids(nodes@, id as int)[m],
                    length as nat,
                ),
        decreases found@.len() - k,
    {
        let kid = found[k];
        assert(kid == kids(nodes@, id as int)[k as int]);
        if kid < id {
            if !fits_in(nodes, kid, length) {
                return false;
            }
        }
        k = k + 1;
    }
    true
}

/// Empties the cache of node `id` and of every node that it reaches.
pub(crate) fn clear_cache_in<M, B>(nodes: &Vec<Node<M, B>>, caches: &mut Vec<Option<Vec<Expr>>>, id: usize)
    requires
        old(caches)@.len() == nodes@.len(),
        id < nodes@.len(),
    ensures
        wipes(old(caches)@, final(caches)@),
        wiped_from(nodes@, old(caches)@, final(caches)@, id as int),
        cleared(nodes@, final(caches)@, id as int),
    decreases id,
{
    let ghost start = caches@;
    let found = kids_in(nodes, id);
    let mut k: usize = 0;
    while k < found.len()
        invariant
            k <= found@.len(),
            id < nodes@.len(),
            start.len() == nodes@.len(),
            found@.len() == kids(nodes@, id as int).len(),
            forall|m: int|
                0 <= m < found@.len() ==> found@[m] == #[trigger] kids(nodes@, id as int)[m],
            wipes(start, caches@),
            forall|to: int|
                0 <= to < start.len() ==> #[trigger] caches@[to] == if reaches_by(
                    nodes@,
                    id as int,
                    to,
                    k as int,
                ) {
                    None
                } else {
                    start[to]
                },
            forall|m: int|
                0 <= m < k && (#[trigger] kids(nodes@, id as int)[m]) < id ==> cleared(
                    nodes@,
                    caches@,
                    kids(nodes@, id as int)[m],
                ),
        decreases found@.len() - k,
    {
        let kid = found[k];
        let ghost before = caches@;
        assert(kid == kids(nodes@, id as int)[k as int]);
        if kid < id {
            clear_cache_in(nodes, caches, kid);
        }
        proof {
            assert forall|to: int| 0 <= to < start.len() implies #[trigger] caches@[to]
                == if reaches_by(nodes@, id as int, to, k + 1) {
                None
            } else {
                start[to]
            } by {
                assert(before[to] == if reaches_by(nodes@, id as int, to, k as int) {
                    None
                } else {
                    start[to]
                });
                if kid < id {
                    assert(caches@[to] == if reaches(nodes@, kid as int, to) {
                        None
                    } else {
                        before[to]
                    });
                }
            }
            assert forall|m: int|
                0 <= m < k + 1 && (#[trigger] kids(nodes@, id as int)[m]) < id implies cleared(
                nodes@,
                caches@,
                kids(nodes@, id as int)[m],
            ) by {
                if m < k {
                    lemma_wipes_cleared(nodes@, before, caches@, kids(nodes@, id as int)[m]);
                }
            }
        }
        k = k + 1;
    }
    let ghost before = caches@;
    caches.set(id, None);
    proof {
        assert forall|m: int|
            0 <= m < kids(nodes@, id as int).len() && (#[trigger] kids(nodes@, id as int)[m])
                < id implies cleared(nodes@, caches@, kids(nodes@, id as int)[m]) by {
            lemma_wipes_cleared(nodes@, before, caches@, kids(nodes@, id as int)[m]);
        }
        assert forall|to: int| 0 <= to < start.len() implies #[trigger] caches@[to] == if reaches(
            nodes@,
            id as int,
            to,
        ) {
            None
        } else {
            start[to]
        } by {
            assert(before[to] == if reaches_by(
                nodes@,
                id as int,
                to,
                kids(nodes@, id as int).len() as int,
            ) {
                None
            } else {
                start[to]
            });
        }
    }
}

/// The `length` slots of node `id` from `offset` on as they lie in memory,
/// where they lie there as one run.
pub(crate) fn as_slice_in<'a, M: Fn(&[Expr]) -> Vec<Expr>, B: Fn(&[Expr], usize, Expr) -> Expr>(
    nodes: &'a Vec<Node<M, B>>,
    caches: &'a Vec<Option<Vec<Expr>>>,
    id: usize,
    base: &'a [Expr],
    offset: usize,
    length: usize,
) -> (found: Option<&'a [Expr]>)
    requires
        nodes_ok(nodes@),
        caches@.len() == nodes@.len(),
        id < nodes@.len(),
        offset + length <= size(nodes@, id as int),
        fits(nodes@, id as int, base@.len()),
        coherent(nodes@, caches@, id as int, base@),
    ensures
        found is Some == contiguous(nodes@, caches@, id as int, offset as int, length as int),
        match found {
            Some(slice) => slice@ == eval(nodes@, id as int, base@).subrange(
                offset as int,
                offset + length,
            ),
            None => true,
        },
    decreases id,
{
    proof {
        assert(node_ok(nodes@, id as int));
        lemma_eval_len(nodes@, id as int, base@);
        lemma_size_bound(nodes@, id as int);
    }
    match &nodes[id] {
        Node::Id(size) => {
            let slice = vstd::slice::slice_subrange(base, offset, offset + length);
            proof {
                assert(slice@ =~= base@.take(*size as int).subrange(offset as int, offset + length));
            }
            Some(slice)
        },
        Node::View(start, _, node) => {
            proof {
                assert(kids(nodes@, id as int)[0] == *node);
                lemma_eval_len(nodes@, *node as int, base@);
                lemma_size_bound(nodes@, *node as int);
            }
            let found = as_slice_in(nodes, caches, *node, base, *start + offset, length);
            proof {
                match found {
                    Some(slice) => {
                        assert(slice@ =~= eval(nodes@, id as int, base@).subrange(
                            offset as int,
                            offset + length,
                        ));
                    },
                    None => {},
                }
            }
            found
        },
        Node::Concat(_, parts) => {
            let mut before: usize = 0;
            let mut k: usize = 0;
            while k < parts.len()
                invariant
                    k <= parts@.len(),
                    nodes_ok(nodes@),
                    id < nodes@.len(),
                    nodes@[id as int] is Concat,
                    parts@ == nodes@[id as int]->Concat_1@,
                    node_ok(nodes@, id as int),
                    before == total(nodes@, parts@, k as int),
                    before <= offset,
                    offset + length <= size(nodes@, id as int) <= usize::MAX,
                    caches@.len() == nodes@.len(),
                    fits(nodes@, id as int, base@.len()),
                    coherent(nodes@, caches@, id as int, base@),
                    eval(nodes@, id as int, base@).len() == size(nodes@, id as int),
                    contiguous(nodes@, caches@, id as int, offset as int, length as int)
                        == contiguous_parts(
                        nodes@,
                        caches@,
                        id as int,
                        offset as int,
                        length as int,
                        k as int,
                    ),
                decreases parts@.len() - k,
            {
                let part = parts[k];
                proof {
                    assert(parts@[k as int] < id);
                    assert(kids(nodes@, id as int)[k as int] == part);
                    assert(total(nodes@, parts@, k + 1) == before + size(nodes@, part as int));
                    lemma_total_rises(nodes@, parts@, k + 1, parts@.len() as int);
                    lemma_eval_len(nodes@, part as int, base@);
                }
                let own = size_in(nodes, part);
                if offset - before < own {
                    if offset - before + length <= own {
                        let found = as_slice_in(nodes, caches, part, base, offset - before, length);
                        proof {
                            match found {
                                Some(slice) => {
                                    assert forall|i: int| 0 <= i < length implies slice@[i] == eval(
                                        nodes@,
                                        id as int,
                                        base@,
                                    )[offset + i] by {
                                        lemma_parts_index(
                                            nodes@,
                                            id as int,
                                            base@,
                                            parts@.len() as int,
                                            k as int,
                                            offset - before + i,
                                        );
                                    }
                                    assert(slice@ =~= eval(nodes@, id as int, base@).subrange(
                                        offset as int,
                                        offset + length,
                                    ));
                                },
                                None => {},
                            }
                        }
                        return found;
                    } else {
                        return None;
                    }
                }
                before = before + own;
                k = k + 1;
            }
            None
        },
        Node::Constant(exprs) => {
            Some(vstd::slice::slice_subrange(exprs.as_slice(), offset, offset + length))
        },
        Node::MapSlice(_, _, _) => {
            match &caches[id] {
                Some(slots) => {
                    Some(vstd::slice::slice_subrange(slots.as_slice(), offset, offset + length))
                },
                None => None,
            }
        },
        Node::Write(_, start, replaced, source, target) => {
            proof {
                assert(kids(nodes@, id as int)[0] == *source);
                assert(kids(nodes@, id as int)[1] == *target);
                lemma_eval_len(nodes@, *source as int, base@);
                lemma_eval_len(nodes@, *target as int, base@);
                lemma_size_bound(nodes@, *target as int);
            }
            let own = size_in(nodes, *source);
            if offset + length <= *start {
                let found = as_slice_in(nodes, caches, *target, base, offset, length);
                proof {
                    match found {
                        Some(slice) => {
                            assert(slice@ =~= eval(nodes@, id as int, base@).subrange(
                                offset as int,
                                offset + length,
                            ));
                        },
                        None => {},
                    }
                }
                found
            } else if offset >= *start && offset - *start + length <= own {
                let found = as_slice_in(nodes, caches, *source, base, offset - *start, length);
                proof {
                    match found {
                        Some(slice) => {
                            assert(slice@ =~= eval(nodes@, id as int, base@).subrange(
                                offset as int,
                                offset + length,
                            ));
                        },
                        None => {},
                    }
                }
                found
            } else if offset >= *start && offset - *start >= own {
                let found = as_slice_in(
                    nodes,
                    caches,
                    *target,
                    base,
                    offset - own + *replaced,
                    length,
                );
                proof {
                    match found {
                        Some(slice) => {
                            assert(slice@ =~= eval(nodes@, id as int, base@).subrange(
                                offset as int,
                                offset + length,
                            ));
                        },
                        None => {},
                    }
                }
                found
            } else {
                None
            }
        },
        Node::MapByElem(_, _) => None,
    }
}

/// The `length` slots of node `id` from `offset` on: as they lie in memory
/// where they lie there as one run, and computed one by one otherwise.
pub(crate) fn to_slice_in<'a, M: Fn(&[Expr]) -> Vec<Expr>, B: Fn(&[Expr], usize, Expr) -> Expr>(
    nodes: &'a Vec<Node<M, B>>,
    caches: &'a mut Vec<Option<Vec<Expr>>>,
    id: usize,
    base: &'a [Expr],
    offset: usize,
    length: usize,
) -> (slice: BorrowedSlice<'a, Expr>)
    requires
        nodes_ok(nodes@),
        old(caches)@.len() == nodes@.len(),
        id < nodes@.len(),
        offset + length <= size(nodes@, id as int),
        fits(nodes@, id as int, base@.len()),
        coherent(nodes@, old(caches)@, id as int, base@),
    ensures
        fills(nodes@, old(caches)@, final(caches)@, base@),
        coherent(nodes@, final(caches)@, id as int, base@),
        slice@ == eval(nodes@, id as int, base@).subrange(offset as int, offset + length),
        slice is Borrowed == contiguous(
            nodes@,
            old(caches)@,
            id as int,
            offset as int,
            length as int,
        ),
    decreases id, 2nat,
{
    let direct = as_slice_in(nodes, caches, id, base, offset, length).is_some();
    if direct {
        match as_slice_in(nodes, caches, id, base, offset, length) {
            Some(slice) => BorrowedSlice::Borrowed(slice),
            None => BorrowedSlice::Owned(Vec::new()),
        }
    } else {
        let ghost before = caches@;
        let slots = collect_in(nodes, caches, id, base, offset, length);
        proof {
            lemma_fills_coherent(nodes@, before, caches@, base@, id as int);
        }
        BorrowedSlice::Owned(slots)
    }
}

/// What is left of `parts` when parts without slots are left out and parts
/// that are concatenations are taken apart.
pub(crate) fn flatten<M: Fn(&[Expr]) -> Vec<Expr>, B: Fn(&[Expr], usize, Expr) -> Expr>(
    nodes: &Vec<Node<M, B>>,
    parts: &[usize],
) -> (left: Vec<usize>)
    requires
        nodes_ok(nodes@),
        forall|k: int| 0 <= k < parts@.len() ==> (#[trigger] parts@[k]) < nodes@.len(),
    ensures
        left@ == flat(nodes@, parts@, parts@.len() as int),
{
    let mut left: Vec<usize> = Vec::new();
    let mut k: usize = 0;
    while k < parts.len()
        invariant
            k <= parts@.len(),
            nodes_ok(nodes@),
            forall|m: int| 0 <= m < parts@.len() ==> (#[trigger] parts@[m]) < nodes@.len(),
            left@ == flat(nodes@, parts@, k as int),
        decreases parts@.len() - k,
    {
        let part = parts[k];
        assert(parts@[k as int] < nodes@.len());
        if size_in(nodes, part) != 0 {
            match &nodes[part] {
                Node::Concat(_, inner) => {
                    let ghost before = left@;
                    let mut m: usize = 0;
                    while m < inner.len()
                        invariant
                            m <= inner@.len(),
                            left@ == before + inner@.take(m as int),
                        decreases inner@.len() - m,
                    {
                        left.push(inner[m]);
                        assert(left@ =~= before + inner@.take(m + 1));
                        m = m + 1;
                    }
                    assert(inner@.take(inner@.len() as int) =~= inner@);
                },
                _ => {
                    left.push(part);
                    assert(left@ =~= flat(nodes@, parts@, k as int) + seq![part]);
                },
            }
        } else {
            assert(left@ + Seq::<usize>::empty() =~= left@);
        }
        k = k + 1;
    }
    left
}

/// What `parts` come to: the sum of their sizes, whether none of them has
/// slots, and the one that has, where it is the only one; where several
/// have, the places of two of them.
pub(crate) fn measure<M: Fn(&[Expr]) -> Vec<Expr>, B: Fn(&[Expr], usize, Expr) -> Expr>(
    nodes: &Vec<Node<M, B>>,
    parts: &[usize],
) -> (found: (usize, bool, Option<usize>, Ghost<(int, int)>))
    requires
        nodes_ok(nodes@),
        forall|k: int| 0 <= k < parts@.len() ==> (#[trigger] parts@[k]) < nodes@.len(),
        total(nodes@, parts@, parts@.len() as int) <= usize::MAX,
    ensures
        found.0 == total(nodes@, parts@, parts@.len() as int),
        found.1 == (forall|k: int|
            0 <= k < parts@.len() ==> size(nodes@, (#[trigger] parts@[k]) as int) == 0),
        match found.2 {
            Some(sole) => {
                &&& 0 <= found.3@.0 < parts@.len()
                &&& parts@[found.3@.0] == sole
                &&& size(nodes@, sole as int) != 0
                &&& forall|k: int|
                    0 <= k < parts@.len() && k != found.3@.0 ==> size(
                        nodes@,
                        (#[trigger] parts@[k]) as int,
                    ) == 0
            },
            None => !found.1 ==> {
                &&& 0 <= found.3@.0 < parts@.len()
                &&& 0 <= found.3@.1 < parts@.len()
                &&& found.3@.0 != found.3@.1
                &&& size(nodes@, parts@[found.3@.0] as int) != 0
                &&& size(nodes@, parts@[found.3@.1] as int) != 0
            },
        },
{
    let mut sum: usize = 0;
    let mut none = true;
    let mut sole: Option<usize> = None;
    let ghost mut first: int = 0;
    let ghost mut second: int = 0;
    let mut k: usize = 0;
    while k < parts.len()
        invariant
            k <= parts@.len(),
            nodes_ok(nodes@),
            forall|m: int| 0 <= m < parts@.len() ==> (#[trigger] parts@[m]) < nodes@.len(),
            total(nodes@, parts@, parts@.len() as int) <= usize::MAX,
            sum == total(nodes@, parts@, k as int),
            none ==> sole is None && forall|m: int|
                0 <= m < k ==> size(nodes@, (#[trigger] parts@[m]) as int) == 0,
            !none ==> 0 <= first < k && size(nodes@, parts@[first] as int) != 0,
            sole matches Some(only) ==> !none && only == parts@[first] && forall|m: int|
                0 <= m < k && m != first ==> size(nodes@, (#[trigger] parts@[m]) as int) == 0,
            !none && sole is None ==> 0 <= second < k && second != first && size(
                nodes@,
                parts@[second] as int,
            ) != 0,
        decreases parts@.len() - k,
    {
        let part = parts[k];
        proof {
            assert(parts@[k as int] < nodes@.len());
            lemma_total_rises(nodes@, parts@, k + 1, parts@.len() as int);
        }
        let own = size_in(nodes, part);
        if own != 0 {
            sum = sum + own;
            if none {
                sole = Some(part);
                proof {
                    first = k as int;
                }
            } else {
                proof {
                    if sole is Some {
                        second = k as int;
                    }
                }
                sole = None;
            }
            none = false;
        }
        k = k + 1;
    }
    proof {
        if !none {
            assert(size(nodes@, parts@[first] as int) != 0);
        }
    }
    (sum, none, sole, Ghost((first, second)))
}

/// The sizes of more parts add up to more.
pub proof fn lemma_total_rises<M, B>(
    nodes: Seq<Node<M, B>>,
    parts: Seq<usize>,
    fewer: int,
    more: int,
)
    requires
        0 <= fewer <= more,
    ensures
        total(nodes, parts, fewer) <= total(nodes, parts, more),
    decreases more - fewer,
{
    if fewer < more {
        lemma_total_rises(nodes, parts, fewer, more - 1);
    }
}

} // verus!
