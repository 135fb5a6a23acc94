//! The mathematical model of transformation graphs.
//!
//! A graph is a sequence of nodes in which every node refers to nodes in
//! front of it. Each node stands for a flat array of expressions that is
//! computed from a base array.
use vstd::prelude::*;
use crate::expr::{Expr, Function};
use crate::list::List;

verus! {

/// A per-element function of a graph.
pub enum ElemFn<B> {
    /// Reads the array that the element is at the index that `count` slots
    /// of the node `input`, from `offset` on, give.
    Select { input: usize, offset: usize, count: usize },
    /// A function of the base array, the position of the element and the
    /// element.
    Custom(B),
}

/// One node of a transformation graph.
pub enum Node<M, B> {
    /// The first slots of the base array, as many as given.
    Id(usize),
    /// The slots of a node from an offset on, as many as the length says:
    /// offset, length, node.
    View(usize, usize, usize),
    /// The slots of the parts one after the other: size, parts.
    Concat(usize, Vec<usize>),
    /// The given expressions, whatever the base array holds.
    Constant(Vec<Expr>),
    /// What a function makes of all slots of a node: size, function, node.
    MapSlice(usize, M, usize),
    /// The slots of a target with a run of them replaced by the slots of a
    /// source: size, offset of the run, length of the run, source, target.
    Write(usize, usize, usize, usize, usize),
    /// What a function makes of each slot of a node.
    MapByElem(ElemFn<B>, usize),
}

/// `function` may be called on every array of `input` items, gives `size`
/// items then, and gives equal items for equal items.
pub open spec fn pure_map<M: Fn(&[Expr]) -> Vec<Expr>>(function: M, input: nat, size: nat) -> bool {
    &&& forall|arg: &[Expr]| arg@.len() == input ==> #[trigger] function.requires((arg,))
    &&& forall|arg: &[Expr], out: Vec<Expr>|
        arg@.len() == input && #[trigger] function.ensures((arg,), out) ==> out@.len() == size
    &&& forall|first: &[Expr], second: &[Expr], out: Vec<Expr>, other: Vec<Expr>|
        first@ == second@ && #[trigger] function.ensures((first,), out)
            && #[trigger] function.ensures((second,), other) ==> out@ == other@
}

/// `function` may give `out` for `input`.
pub open spec fn maps_to<M: Fn(&[Expr]) -> Vec<Expr>>(
    function: M,
    input: Seq<Expr>,
    out: Seq<Expr>,
) -> bool {
    exists|arg: &[Expr], res: Vec<Expr>|
        arg@ == input && res@ == out && #[trigger] function.ensures((arg,), res)
}

/// What `function` makes of `input`.
pub open spec fn image<M: Fn(&[Expr]) -> Vec<Expr>>(function: M, input: Seq<Expr>) -> Seq<Expr> {
    choose|out: Seq<Expr>| maps_to(function, input, out)
}

/// `slots` where these are `size` items, and `size` variables otherwise.
pub open spec fn sized(slots: Seq<Expr>, size: nat) -> Seq<Expr> {
    if slots.len() == size {
        slots
    } else {
        Seq::new(size, |k: int| Expr::Var(0))
    }
}

/// `function` may be called on every base array, position and element, and
/// gives equal expressions for equal ones.
pub open spec fn pure_elem<B: Fn(&[Expr], usize, Expr) -> Expr>(function: B) -> bool {
    &&& forall|base: &[Expr], position: usize, element: Expr| #[trigger]
        function.requires((base, position, element))
    &&& forall|first: &[Expr], second: &[Expr], position: usize, element: Expr, out: Expr, other: Expr|
        first@ == second@ && #[trigger] function.ensures((first, position, element), out)
            && #[trigger] function.ensures((second, position, element), other) ==> out == other
}

/// What `function` makes of `element` at `position` over `base`.
pub open spec fn image_elem<B: Fn(&[Expr], usize, Expr) -> Expr>(
    function: B,
    base: Seq<Expr>,
    position: usize,
    element: Expr,
) -> Expr {
    choose|out: Expr| elem_to(function, base, position, element, out)
}

/// `function` may give `out` for `element` at `position` over `base`.
pub open spec fn elem_to<B: Fn(&[Expr], usize, Expr) -> Expr>(
    function: B,
    base: Seq<Expr>,
    position: usize,
    element: Expr,
    out: Expr,
) -> bool {
    exists|arg: &[Expr]| arg@ == base && #[trigger] function.ensures((arg, position, element), out)
}

/// The array `array` read at `index`.
pub open spec fn select(array: Expr, index: Seq<Expr>) -> Expr {
    Expr::App(Function::Select, Box::new(List::of(seq![array] + index)))
}

/// The nodes that node `id` refers to.
pub open spec fn kids<M, B>(nodes: Seq<Node<M, B>>, id: int) -> Seq<int> {
    match nodes[id] {
        Node::Id(_) => Seq::empty(),
        Node::View(_, _, node) => seq![node as int],
        Node::Concat(_, parts) => Seq::new(parts@.len(), |k: int| parts@[k] as int),
        Node::Constant(_) => Seq::empty(),
        Node::MapSlice(_, _, node) => seq![node as int],
        Node::Write(_, _, _, source, target) => seq![source as int, target as int],
        Node::MapByElem(ElemFn::Select { input, offset, count }, node) => seq![
            node as int,
            input as int,
        ],
        Node::MapByElem(ElemFn::Custom(_), node) => seq![node as int],
    }
}

/// The nodes that a node refers to have numbers.
pub proof fn lemma_kids_sign<M, B>(nodes: Seq<Node<M, B>>, id: int, k: int)
    requires
        0 <= k < kids(nodes, id).len(),
    ensures
        0 <= kids(nodes, id)[k],
{
}

/// The number of slots of node `id`.
pub open spec fn size<M, B>(nodes: Seq<Node<M, B>>, id: int) -> nat
    decreases id,
{
    if 0 <= id < nodes.len() {
        match nodes[id] {
            Node::Id(size) => size as nat,
            Node::View(_, length, _) => length as nat,
            Node::Concat(size, _) => size as nat,
            Node::Constant(exprs) => exprs@.len(),
            Node::MapSlice(size, _, _) => size as nat,
            Node::Write(size, _, _, _, _) => size as nat,
            Node::MapByElem(_, node) => if node < id {
                size(nodes, node as int)
            } else {
                0
            },
        }
    } else {
        0
    }
}

/// The number of slots of the first `count` of `parts`.
pub open spec fn total<M, B>(nodes: Seq<Node<M, B>>, parts: Seq<usize>, count: int) -> nat
    decreases count,
{
    if count <= 0 {
        0
    } else {
        total(nodes, parts, count - 1) + size(nodes, parts[count - 1] as int)
    }
}

/// Node `id` refers to nodes in front of it only, and its sizes and offsets
/// agree with theirs.
pub open spec fn node_ok<M: Fn(&[Expr]) -> Vec<Expr>, B: Fn(&[Expr], usize, Expr) -> Expr>(
    nodes: Seq<Node<M, B>>,
    id: int,
) -> bool {
    match nodes[id] {
        Node::Id(_) => true,
        Node::View(offset, length, node) => node < id && offset + length <= size(
            nodes,
            node as int,
        ),
        Node::Concat(size, parts) => {
            &&& forall|k: int| 0 <= k < parts@.len() ==> (#[trigger] parts@[k]) < id
            &&& size == total(nodes, parts@, parts@.len() as int)
        },
        Node::Constant(_) => true,
        Node::MapSlice(size, function, node) => node < id && pure_map(
            function,
            self::size(nodes, node as int),
            size as nat,
        ),
        Node::Write(size, offset, length, source, target) => {
            &&& source < id
            &&& target < id
            &&& offset + length <= self::size(nodes, target as int)
            &&& size == self::size(nodes, target as int) - length + self::size(nodes, source as int)
        },
        Node::MapByElem(ElemFn::Select { input, offset, count }, node) => {
            &&& node < id
            &&& input < id
            &&& offset + count <= size(nodes, input as int)
        },
        Node::MapByElem(ElemFn::Custom(function), node) => node < id && pure_elem(function),
    }
}

/// Every node is in order.
pub open spec fn nodes_ok<M: Fn(&[Expr]) -> Vec<Expr>, B: Fn(&[Expr], usize, Expr) -> Expr>(
    nodes: Seq<Node<M, B>>,
) -> bool {
    forall|id: int| 0 <= id < nodes.len() ==> #[trigger] node_ok(nodes, id)
}

/// A base array of `length` items is long enough for node `id`.
pub open spec fn fits<M, B>(nodes: Seq<Node<M, B>>, id: int, length: nat) -> bool
    decreases id,
{
    if 0 <= id < nodes.len() {
        match nodes[id] {
            Node::Id(size) => size <= length,
            _ => forall|k: int|
                0 <= k < kids(nodes, id).len() && (#[trigger] kids(nodes, id)[k]) < id ==> fits(
                    nodes,
                    kids(nodes, id)[k],
                    length,
                ),
        }
    } else {
        true
    }
}

/// The slots of the first `count` parts of the node `id`, one after the
/// other.
pub open spec fn parts_eval<M: Fn(&[Expr]) -> Vec<Expr>, B: Fn(&[Expr], usize, Expr) -> Expr>(
    nodes: Seq<Node<M, B>>,
    id: int,
    base: Seq<Expr>,
    count: int,
) -> Seq<Expr>
    decreases id, 0nat, count,
{
    if 0 <= id < nodes.len() && count > 0 {
        match nodes[id] {
            Node::Concat(_, parts) => if count <= parts@.len() && parts@[count - 1] < id {
                parts_eval(nodes, id, base, count - 1) + eval(nodes, parts@[count - 1] as int, base)
            } else {
                Seq::empty()
            },
            _ => Seq::empty(),
        }
    } else {
        Seq::empty()
    }
}

/// The slots of node `id` over `base`: what a plain evaluation of the graph
/// gives, without any cache.
pub open spec fn eval<M: Fn(&[Expr]) -> Vec<Expr>, B: Fn(&[Expr], usize, Expr) -> Expr>(
    nodes: Seq<Node<M, B>>,
    id: int,
    base: Seq<Expr>,
) -> Seq<Expr>
    decreases id, 1nat, 0int,
{
    if 0 <= id < nodes.len() {
        match nodes[id] {
            Node::Id(size) => base.take(size as int),
            Node::View(offset, length, node) => if node < id {
                eval(nodes, node as int, base).subrange(offset as int, offset + length)
            } else {
                Seq::empty()
            },
            Node::Concat(_, parts) => parts_eval(nodes, id, base, parts@.len() as int),
            Node::Constant(exprs) => exprs@,
            Node::MapSlice(size, function, node) => if node < id {
                sized(image(function, eval(nodes, node as int, base)), size as nat)
            } else {
                Seq::empty()
            },
            Node::Write(_, offset, length, source, target) => if source < id && target < id {
                eval(nodes, target as int, base).take(offset as int) + eval(
                    nodes,
                    source as int,
                    base,
                ) + eval(nodes, target as int, base).skip(offset + length)
            } else {
                Seq::empty()
            },
            Node::MapByElem(ElemFn::Select { input, offset, count }, node) => if node < id && input
                < id {
                Seq::new(
                    size(nodes, node as int),
                    |k: int|
                        select(
                            eval(nodes, node as int, base)[k],
                            eval(nodes, input as int, base).subrange(offset as int, offset + count),
                        ),
                )
            } else {
                Seq::empty()
            },
            Node::MapByElem(ElemFn::Custom(function), node) => if node < id {
                Seq::new(
                    size(nodes, node as int),
                    |k: int|
                        image_elem(function, base, k as usize, eval(nodes, node as int, base)[k]),
                )
            } else {
                Seq::empty()
            },
        }
    } else {
        Seq::empty()
    }
}

/// The cache of node `id` is empty or holds the slots of the node over
/// `base`.
pub open spec fn cache_ok<M: Fn(&[Expr]) -> Vec<Expr>, B: Fn(&[Expr], usize, Expr) -> Expr>(
    nodes: Seq<Node<M, B>>,
    caches: Seq<Option<Vec<Expr>>>,
    id: int,
    base: Seq<Expr>,
) -> bool {
    match caches[id] {
        Some(slots) => slots@ == eval(nodes, id, base),
        None => true,
    }
}

/// No cache of node `id` or of a node that it reaches holds anything but
/// the slots of its node over `base`.
pub open spec fn coherent<M: Fn(&[Expr]) -> Vec<Expr>, B: Fn(&[Expr], usize, Expr) -> Expr>(
    nodes: Seq<Node<M, B>>,
    caches: Seq<Option<Vec<Expr>>>,
    id: int,
    base: Seq<Expr>,
) -> bool
    decreases id,
{
    if 0 <= id < nodes.len() {
        &&& cache_ok(nodes, caches, id, base)
        &&& forall|k: int|
            0 <= k < kids(nodes, id).len() && (#[trigger] kids(nodes, id)[k]) < id ==> coherent(
                nodes,
                caches,
                kids(nodes, id)[k],
                base,
            )
    } else {
        true
    }
}

/// The caches of node `id` and of every node that it reaches are empty.
pub open spec fn cleared<M, B>(nodes: Seq<Node<M, B>>, caches: Seq<Option<Vec<Expr>>>, id: int) -> bool
    decreases id,
{
    if 0 <= id < nodes.len() {
        &&& caches[id] is None
        &&& forall|k: int|
            0 <= k < kids(nodes, id).len() && (#[trigger] kids(nodes, id)[k]) < id ==> cleared(
                nodes,
                caches,
                kids(nodes, id)[k],
            )
    } else {
        true
    }
}

/// Whether node `id` reaches node `to` by one of the first `count` nodes
/// that it refers to.
pub open spec fn reaches_by<M, B>(nodes: Seq<Node<M, B>>, id: int, to: int, count: int) -> bool
    decreases id, 0nat, count,
{
    if 0 <= id < nodes.len() && 0 < count <= kids(nodes, id).len() {
        ||| (kids(nodes, id)[count - 1] < id && reaches(nodes, kids(nodes, id)[count - 1], to))
        ||| reaches_by(nodes, id, to, count - 1)
    } else {
        false
    }
}

/// Whether node `id` reaches node `to`: it is that node, or it refers to
/// a node that reaches it.
pub open spec fn reaches<M, B>(nodes: Seq<Node<M, B>>, id: int, to: int) -> bool
    decreases id, 1nat, 0int,
{
    if 0 <= id < nodes.len() {
        id == to || reaches_by(nodes, id, to, kids(nodes, id).len() as int)
    } else {
        false
    }
}

/// From `before` to `after` the caches of the nodes that node `id` reaches
/// were emptied, and no other cache was changed.
pub open spec fn wiped_from<M, B>(
    nodes: Seq<Node<M, B>>,
    before: Seq<Option<Vec<Expr>>>,
    after: Seq<Option<Vec<Expr>>>,
    id: int,
) -> bool {
    &&& after.len() == before.len()
    &&& forall|to: int|
        0 <= to < before.len() ==> #[trigger] after[to] == if reaches(nodes, id, to) {
            None
        } else {
            before[to]
        }
}

/// From `before` to `after` caches were filled, each with the slots of its
/// node over `base`, and none was changed otherwise.
pub open spec fn fills<M: Fn(&[Expr]) -> Vec<Expr>, B: Fn(&[Expr], usize, Expr) -> Expr>(
    nodes: Seq<Node<M, B>>,
    before: Seq<Option<Vec<Expr>>>,
    after: Seq<Option<Vec<Expr>>>,
    base: Seq<Expr>,
) -> bool {
    &&& after.len() == before.len()
    &&& forall|id: int|
        0 <= id < before.len() ==> #[trigger] after[id] == before[id] || (before[id] is None
            && after[id] is Some && after[id].unwrap()@ == eval(nodes, id, base))
}

/// From `before` to `after` caches were emptied, and none was changed
/// otherwise.
pub open spec fn wipes(before: Seq<Option<Vec<Expr>>>, after: Seq<Option<Vec<Expr>>>) -> bool {
    &&& after.len() == before.len()
    &&& forall|id: int|
        0 <= id < before.len() ==> #[trigger] after[id] == before[id] || after[id] is None
}

/// Whether, from part `k` of the node `id` on, some part holds all of the
/// `length` slots from `offset` on in one run that lies in memory as it is.
pub open spec fn contiguous_parts<M, B>(
    nodes: Seq<Node<M, B>>,
    caches: Seq<Option<Vec<Expr>>>,
    id: int,
    offset: int,
    length: int,
    k: int,
) -> bool
    decreases id, 0nat, nodes[id]->Concat_1@.len() - k,
{
    if 0 <= id < nodes.len() && nodes[id] is Concat && 0 <= k < nodes[id]->Concat_1@.len() {
        let parts = nodes[id]->Concat_1@;
        if offset < total(nodes, parts, k + 1) {
            &&& parts[k] < id
            &&& offset - total(nodes, parts, k) + length <= size(nodes, parts[k] as int)
            &&& contiguous(
                nodes,
                caches,
                parts[k] as int,
                offset - total(nodes, parts, k),
                length,
            )
        } else {
            contiguous_parts(nodes, caches, id, offset, length, k + 1)
        }
    } else {
        false
    }
}

/// Whether the `length` slots of node `id` from `offset` on lie in memory
/// as one run: in the base array, in a constant, in a filled cache, in one
/// part of a concatenation or on one side of a written run.
pub open spec fn contiguous<M, B>(
    nodes: Seq<Node<M, B>>,
    caches: Seq<Option<Vec<Expr>>>,
    id: int,
    offset: int,
    length: int,
) -> bool
    decreases id, 1nat, 0int,
{
    if 0 <= id < nodes.len() {
        match nodes[id] {
            Node::Id(_) => true,
            Node::View(start, _, node) => node < id && contiguous(
                nodes,
                caches,
                node as int,
                start + offset,
                length,
            ),
            Node::Concat(_, _) => contiguous_parts(nodes, caches, id, offset, length, 0),
            Node::Constant(_) => true,
            Node::MapSlice(_, _, _) => caches[id] is Some,
            Node::Write(_, start, replaced, source, target) => if source < id && target < id {
                if offset + length <= start {
                    contiguous(nodes, caches, target as int, offset, length)
                } else if offset >= start && offset + length <= start + size(nodes, source as int) {
                    contiguous(nodes, caches, source as int, offset - start, length)
                } else if offset >= start + size(nodes, source as int) {
                    contiguous(
                        nodes,
                        caches,
                        target as int,
                        offset - size(nodes, source as int) + replaced,
                        length,
                    )
                } else {
                    false
                }
            } else {
                false
            },
            Node::MapByElem(_, _) => false,
        }
    } else {
        false
    }
}

/// `after` holds the nodes of `before`, as they are, and maybe more behind
/// them.
pub open spec fn grown<M, B>(before: Seq<Node<M, B>>, after: Seq<Node<M, B>>) -> bool {
    &&& before.len() <= after.len()
    &&& forall|id: int| 0 <= id < before.len() ==> #[trigger] after[id] == before[id]
}

/// The slots of the first `count` of the nodes `parts`, one after the other.
pub open spec fn joined<M: Fn(&[Expr]) -> Vec<Expr>, B: Fn(&[Expr], usize, Expr) -> Expr>(
    nodes: Seq<Node<M, B>>,
    parts: Seq<usize>,
    base: Seq<Expr>,
    count: int,
) -> Seq<Expr>
    decreases count,
{
    if count <= 0 {
        Seq::empty()
    } else {
        joined(nodes, parts, base, count - 1) + eval(nodes, parts[count - 1] as int, base)
    }
}

/// What part `k` of `parts` gives to a concatenation: nothing where it has
/// no slots, its own parts where it is a concatenation, and itself
/// otherwise.
pub open spec fn share<M, B>(nodes: Seq<Node<M, B>>, parts: Seq<usize>, k: int) -> Seq<usize> {
    if size(nodes, parts[k] as int) == 0 {
        Seq::empty()
    } else {
        match nodes[parts[k] as int] {
            Node::Concat(_, inner) => inner@,
            _ => seq![parts[k]],
        }
    }
}

/// What the first `count` of `parts` give to a concatenation.
pub open spec fn flat<M, B>(nodes: Seq<Node<M, B>>, parts: Seq<usize>, count: int) -> Seq<usize>
    decreases count,
{
    if count <= 0 {
        Seq::empty()
    } else {
        flat(nodes, parts, count - 1) + share(nodes, parts, count - 1)
    }
}

/// How many of the first `count` of `parts` have slots.
pub open spec fn filled<M, B>(nodes: Seq<Node<M, B>>, parts: Seq<usize>, count: int) -> nat
    decreases count,
{
    if count <= 0 {
        0
    } else {
        filled(nodes, parts, count - 1) + if size(nodes, parts[count - 1] as int) == 0 {
            0nat
        } else {
            1nat
        }
    }
}

/// Where a call of `function` on `arg` gave `out`, `out` is what `function`
/// makes of `arg`.
pub proof fn lemma_image<M: Fn(&[Expr]) -> Vec<Expr>>(
    function: M,
    arg: &[Expr],
    out: Vec<Expr>,
    size: nat,
)
    requires
        pure_map(function, arg@.len(), size),
        function.ensures((arg,), out),
    ensures
        image(function, arg@) == out@,
        sized(image(function, arg@), size) == out@,
{
    assert(maps_to(function, arg@, out@));
    let chosen = image(function, arg@);
    assert(maps_to(function, arg@, chosen));
    let (other_arg, other_out) = choose|other_arg: &[Expr], other_out: Vec<Expr>|
        other_arg@ == arg@ && other_out@ == chosen && #[trigger] function.ensures(
            (other_arg,),
            other_out,
        );
    assert(out@ == other_out@);
}

/// Where a call of `function` on `element` at `position` over `base` gave
/// `out`, `out` is what `function` makes of them.
pub proof fn lemma_image_elem<B: Fn(&[Expr], usize, Expr) -> Expr>(
    function: B,
    base: &[Expr],
    position: usize,
    element: Expr,
    out: Expr,
)
    requires
        pure_elem(function),
        function.ensures((base, position, element), out),
    ensures
        image_elem(function, base@, position, element) == out,
{
    assert(elem_to(function, base@, position, element, out));
    let chosen = image_elem(function, base@, position, element);
    assert(elem_to(function, base@, position, element, chosen));
    let other = choose|other: &[Expr]|
        other@ == base@ && #[trigger] function.ensures((other, position, element), chosen);
    assert(out == chosen);
}

/// The slots of the first `count` parts of a node are as many as the sizes
/// of these parts say.
pub proof fn lemma_parts_len<M: Fn(&[Expr]) -> Vec<Expr>, B: Fn(&[Expr], usize, Expr) -> Expr>(
    nodes: Seq<Node<M, B>>,
    id: int,
    base: Seq<Expr>,
    count: int,
)
    requires
        nodes_ok(nodes),
        0 <= id < nodes.len(),
        nodes[id] is Concat,
        0 <= count <= nodes[id]->Concat_1@.len(),
        fits(nodes, id, base.len()),
    ensures
        parts_eval(nodes, id, base, count).len() == total(nodes, nodes[id]->Concat_1@, count),
    decreases id, 0nat, count,
{
    if count > 0 {
        let parts = nodes[id]->Concat_1@;
        assert(node_ok(nodes, id));
        assert(parts[count - 1] < id);
        assert(kids(nodes, id)[count - 1] == parts[count - 1]);
        lemma_parts_len(nodes, id, base, count - 1);
        lemma_eval_len(nodes, parts[count - 1] as int, base);
    }
}

/// The slots of a node are as many as its size says.
pub proof fn lemma_eval_len<M: Fn(&[Expr]) -> Vec<Expr>, B: Fn(&[Expr], usize, Expr) -> Expr>(
    nodes: Seq<Node<M, B>>,
    id: int,
    base: Seq<Expr>,
)
    requires
        nodes_ok(nodes),
        0 <= id < nodes.len(),
        fits(nodes, id, base.len()),
    ensures
        eval(nodes, id, base).len() == size(nodes, id),
    decreases id, 1nat, 0int,
{
    assert(node_ok(nodes, id));
    match nodes[id] {
        Node::Id(_) => {},
        Node::View(offset, length, node) => {
            assert(kids(nodes, id)[0] == node);
            lemma_eval_len(nodes, node as int, base);
        },
        Node::Concat(_, parts) => {
            lemma_parts_len(nodes, id, base, parts@.len() as int);
        },
        Node::Constant(_) => {},
        Node::MapSlice(_, _, _) => {},
        Node::Write(_, offset, length, source, target) => {
            assert(kids(nodes, id)[0] == source);
            assert(kids(nodes, id)[1] == target);
            lemma_eval_len(nodes, source as int, base);
            lemma_eval_len(nodes, target as int, base);
        },
        Node::MapByElem(_, node) => {},
    }
}

/// The size of a node fits a machine word.
pub proof fn lemma_size_bound<M, B>(nodes: Seq<Node<M, B>>, id: int)
    ensures
        size(nodes, id) <= usize::MAX,
    decreases id,
{
    if 0 <= id < nodes.len() {
        match nodes[id] {
            Node::MapByElem(_, node) => {
                if node < id {
                    lemma_size_bound(nodes, node as int);
                }
            },
            Node::Constant(exprs) => {
                assert(exprs@.len() == exprs.len());
            },
            _ => {},
        }
    }
}

/// Slot `i` of part `k` of a node is slot `i` behind the slots of the parts
/// in front of part `k`.
pub proof fn lemma_parts_index<M: Fn(&[Expr]) -> Vec<Expr>, B: Fn(&[Expr], usize, Expr) -> Expr>(
    nodes: Seq<Node<M, B>>,
    id: int,
    base: Seq<Expr>,
    count: int,
    k: int,
    i: int,
)
    requires
        nodes_ok(nodes),
        0 <= id < nodes.len(),
        nodes[id] is Concat,
        0 <= k < count <= nodes[id]->Concat_1@.len(),
        fits(nodes, id, base.len()),
        0 <= i < size(nodes, nodes[id]->Concat_1@[k] as int),
    ensures
        total(nodes, nodes[id]->Concat_1@, k) + i < total(nodes, nodes[id]->Concat_1@, count),
        parts_eval(nodes, id, base, count)[total(nodes, nodes[id]->Concat_1@, k) + i] == eval(
            nodes,
            nodes[id]->Concat_1@[k] as int,
            base,
        )[i],
    decreases count,
{
    let parts = nodes[id]->Concat_1@;
    assert(node_ok(nodes, id));
    assert(parts[count - 1] < id);
    assert(kids(nodes, id)[count - 1] == parts[count - 1]);
    lemma_parts_len(nodes, id, base, count - 1);
    lemma_eval_len(nodes, parts[count - 1] as int, base);
    if k < count - 1 {
        lemma_parts_index(nodes, id, base, count - 1, k, i);
    }
}

/// Filling caches keeps them coherent.
pub proof fn lemma_fills_coherent<M: Fn(&[Expr]) -> Vec<Expr>, B: Fn(&[Expr], usize, Expr) -> Expr>(
    nodes: Seq<Node<M, B>>,
    before: Seq<Option<Vec<Expr>>>,
    after: Seq<Option<Vec<Expr>>>,
    base: Seq<Expr>,
    id: int,
)
    requires
        before.len() == nodes.len(),
        fills(nodes, before, after, base),
        coherent(nodes, before, id, base),
    ensures
        coherent(nodes, after, id, base),
    decreases id,
{
    if 0 <= id < nodes.len() {
        assert(after[id] == before[id] || (before[id] is None && after[id] is Some
            && after[id].unwrap()@ == eval(nodes, id, base)));
        assert forall|k: int|
            0 <= k < kids(nodes, id).len() && (#[trigger] kids(nodes, id)[k]) < id implies coherent(
            nodes,
            after,
            kids(nodes, id)[k],
            base,
        ) by {
            lemma_fills_coherent(nodes, before, after, base, kids(nodes, id)[k]);
        }
    }
}

/// Filling caches twice over one base array is filling them.
pub proof fn lemma_fills_twice<M: Fn(&[Expr]) -> Vec<Expr>, B: Fn(&[Expr], usize, Expr) -> Expr>(
    nodes: Seq<Node<M, B>>,
    first: Seq<Option<Vec<Expr>>>,
    second: Seq<Option<Vec<Expr>>>,
    third: Seq<Option<Vec<Expr>>>,
    base: Seq<Expr>,
)
    requires
        fills(nodes, first, second, base),
        fills(nodes, second, third, base),
    ensures
        fills(nodes, first, third, base),
{
    assert forall|id: int| 0 <= id < first.len() implies #[trigger] third[id] == first[id] || (
    first[id] is None && third[id] is Some && third[id].unwrap()@ == eval(nodes, id, base)) by {
        assert(second[id] == first[id] || (first[id] is None && second[id] is Some
            && second[id].unwrap()@ == eval(nodes, id, base)));
        assert(third[id] == second[id] || (second[id] is None && third[id] is Some
            && third[id].unwrap()@ == eval(nodes, id, base)));
    }
}

/// Caches that are empty are coherent over every base array.
pub proof fn lemma_cleared_coherent<M: Fn(&[Expr]) -> Vec<Expr>, B: Fn(&[Expr], usize, Expr) -> Expr>(
    nodes: Seq<Node<M, B>>,
    caches: Seq<Option<Vec<Expr>>>,
    id: int,
    base: Seq<Expr>,
)
    requires
        cleared(nodes, caches, id),
    ensures
        coherent(nodes, caches, id, base),
    decreases id,
{
    if 0 <= id < nodes.len() {
        assert forall|k: int|
            0 <= k < kids(nodes, id).len() && (#[trigger] kids(nodes, id)[k]) < id implies coherent(
            nodes,
            caches,
            kids(nodes, id)[k],
            base,
        ) by {
            lemma_cleared_coherent(nodes, caches, kids(nodes, id)[k], base);
        }
    }
}

/// Emptying caches keeps empty what was empty.
pub proof fn lemma_wipes_cleared<M, B>(
    nodes: Seq<Node<M, B>>,
    before: Seq<Option<Vec<Expr>>>,
    after: Seq<Option<Vec<Expr>>>,
    id: int,
)
    requires
        before.len() == nodes.len(),
        wipes(before, after),
        cleared(nodes, before, id),
    ensures
        cleared(nodes, after, id),
    decreases id,
{
    if 0 <= id < nodes.len() {
        assert(after[id] == before[id] || after[id] is None);
        assert forall|k: int|
            0 <= k < kids(nodes, id).len() && (#[trigger] kids(nodes, id)[k]) < id implies cleared(
            nodes,
            after,
            kids(nodes, id)[k],
        ) by {
            lemma_wipes_cleared(nodes, before, after, kids(nodes, id)[k]);
        }
    }
}

/// Nodes added behind a node change nothing about its parts.
pub proof fn lemma_grown_parts<M: Fn(&[Expr]) -> Vec<Expr>, B: Fn(&[Expr], usize, Expr) -> Expr>(
    before: Seq<Node<M, B>>,
    after: Seq<Node<M, B>>,
    id: int,
    base: Seq<Expr>,
    count: int,
)
    requires
        grown(before, after),
        0 <= id < before.len(),
    ensures
        parts_eval(after, id, base, count) == parts_eval(before, id, base, count),
    decreases id, 0nat, count,
{
    assert(after[id] == before[id]);
    if count > 0 {
        match before[id] {
            Node::Concat(_, parts) => {
                if count <= parts@.len() && parts@[count - 1] < id {
                    lemma_grown_parts(before, after, id, base, count - 1);
                    lemma_grown(before, after, parts@[count - 1] as int, base);
                }
            },
            _ => {},
        }
    }
}

/// Nodes added behind a node change nothing about sums of sizes in front
/// of them.
pub proof fn lemma_grown_total<M: Fn(&[Expr]) -> Vec<Expr>, B: Fn(&[Expr], usize, Expr) -> Expr>(
    before: Seq<Node<M, B>>,
    after: Seq<Node<M, B>>,
    bound: int,
    parts: Seq<usize>,
    count: int,
)
    requires
        grown(before, after),
        0 <= bound <= before.len(),
        count <= parts.len(),
        forall|k: int| 0 <= k < parts.len() ==> (#[trigger] parts[k]) < bound,
    ensures
        total(after, parts, count) == total(before, parts, count),
    decreases bound, 0nat, count,
{
    if count > 0 {
        lemma_grown_total(before, after, bound, parts, count - 1);
        assert(parts[count - 1] < bound);
        lemma_grown_size(before, after, parts[count - 1] as int);
    }
}

/// Nodes added behind a node change nothing about its size.
pub proof fn lemma_grown_size<M, B>(before: Seq<Node<M, B>>, after: Seq<Node<M, B>>, id: int)
    requires
        grown(before, after),
        0 <= id < before.len(),
    ensures
        size(after, id) == size(before, id),
    decreases id,
{
    assert(after[id] == before[id]);
    match before[id] {
        Node::MapByElem(_, node) => {
            if node < id {
                lemma_grown_size(before, after, node as int);
            }
        },
        _ => {},
    }
}

/// Nodes added behind a node change nothing about the node: not its slots,
/// not which base arrays are long enough for it.
pub proof fn lemma_grown<M: Fn(&[Expr]) -> Vec<Expr>, B: Fn(&[Expr], usize, Expr) -> Expr>(
    before: Seq<Node<M, B>>,
    after: Seq<Node<M, B>>,
    id: int,
    base: Seq<Expr>,
)
    requires
        grown(before, after),
        0 <= id < before.len(),
    ensures
        size(after, id) == size(before, id),
        eval(after, id, base) == eval(before, id, base),
        fits(after, id, base.len()) == fits(before, id, base.len()),
        kids(after, id) == kids(before, id),
    decreases id, 1nat, 0int,
{
    assert(after[id] == before[id]);
    lemma_grown_size(before, after, id);
    assert(kids(after, id) == kids(before, id));
    assert forall|k: int|
        0 <= k < kids(before, id).len() && (#[trigger] kids(before, id)[k]) < id implies fits(
        after,
        kids(before, id)[k],
        base.len(),
    ) == fits(before, kids(before, id)[k], base.len()) by {
        if 0 <= kids(before, id)[k] {
            lemma_grown(before, after, kids(before, id)[k], base);
        }
    }
    match before[id] {
        Node::Id(_) => {},
        Node::View(_, _, node) => {
            if node < id {
                lemma_grown(before, after, node as int, base);
            }
        },
        Node::Concat(_, parts) => {
            lemma_grown_parts(before, after, id, base, parts@.len() as int);
        },
        Node::Constant(_) => {},
        Node::MapSlice(_, _, node) => {
            if node < id {
                lemma_grown(before, after, node as int, base);
            }
        },
        Node::Write(_, _, _, source, target) => {
            if source < id && target < id {
                lemma_grown(before, after, source as int, base);
                lemma_grown(before, after, target as int, base);
            }
        },
        Node::MapByElem(ElemFn::Select { input, offset, count }, node) => {
            if node < id && input < id {
                lemma_grown(before, after, node as int, base);
                lemma_grown(before, after, input as int, base);
                assert(eval(after, id, base) =~= eval(before, id, base));
            }
        },
        Node::MapByElem(ElemFn::Custom(_), node) => {
            if node < id {
                lemma_grown(before, after, node as int, base);
                assert(eval(after, id, base) =~= eval(before, id, base));
            }
        },
    }
}

/// Nodes added behind nodes that are in order leave these in order.
pub proof fn lemma_grown_ok<M: Fn(&[Expr]) -> Vec<Expr>, B: Fn(&[Expr], usize, Expr) -> Expr>(
    before: Seq<Node<M, B>>,
    after: Seq<Node<M, B>>,
    id: int,
)
    requires
        grown(before, after),
        0 <= id < before.len(),
        node_ok(before, id),
    ensures
        node_ok(after, id),
{
    assert(after[id] == before[id]);
    match before[id] {
        Node::View(_, _, node) => {
            lemma_grown_size(before, after, node as int);
        },
        Node::Concat(_, parts) => {
            lemma_grown_total(before, after, id, parts@, parts@.len() as int);
        },
        Node::MapSlice(_, _, node) => {
            lemma_grown_size(before, after, node as int);
        },
        Node::Write(_, _, _, source, target) => {
            lemma_grown_size(before, after, source as int);
            lemma_grown_size(before, after, target as int);
        },
        Node::MapByElem(ElemFn::Select { input, offset, count }, node) => {
            lemma_grown_size(before, after, input as int);
        },
        _ => {},
    }
}

/// Nodes added behind a node, with empty caches of their own, change
/// nothing about the caches that the node reaches.
pub proof fn lemma_grown_caches<M: Fn(&[Expr]) -> Vec<Expr>, B: Fn(&[Expr], usize, Expr) -> Expr>(
    before: Seq<Node<M, B>>,
    after: Seq<Node<M, B>>,
    caches: Seq<Option<Vec<Expr>>>,
    more: Seq<Option<Vec<Expr>>>,
    id: int,
    base: Seq<Expr>,
)
    requires
        grown(before, after),
        0 <= id < before.len(),
        caches.len() == before.len(),
        more.len() == after.len(),
        forall|k: int| 0 <= k < caches.len() ==> #[trigger] more[k] == caches[k],
    ensures
        coherent(after, more, id, base) == coherent(before, caches, id, base),
        cleared(after, more, id) == cleared(before, caches, id),
    decreases id,
{
    lemma_grown(before, after, id, base);
    assert(more[id] == caches[id]);
    assert forall|k: int|
        0 <= k < kids(before, id).len() && (#[trigger] kids(before, id)[k]) < id implies (coherent(
        after,
        more,
        kids(before, id)[k],
        base,
    ) == coherent(before, caches, kids(before, id)[k], base) && cleared(
        after,
        more,
        kids(before, id)[k],
    ) == cleared(before, caches, kids(before, id)[k])) by {
        if 0 <= kids(before, id)[k] {
            lemma_grown_caches(before, after, caches, more, kids(before, id)[k], base);
        }
    }
}

/// The slots and sizes of parts, one list behind another, add up.
pub proof fn lemma_joined_append<M: Fn(&[Expr]) -> Vec<Expr>, B: Fn(&[Expr], usize, Expr) -> Expr>(
    nodes: Seq<Node<M, B>>,
    first: Seq<usize>,
    second: Seq<usize>,
    base: Seq<Expr>,
    count: int,
)
    requires
        0 <= count <= second.len(),
    ensures
        joined(nodes, first + second, base, first.len() + count) == joined(
            nodes,
            first,
            base,
            first.len() as int,
        ) + joined(nodes, second, base, count),
        total(nodes, first + second, first.len() + count) == total(nodes, first, first.len() as int)
            + total(nodes, second, count),
    decreases count,
{
    if count == 0 {
        lemma_joined_same(nodes, first + second, first, base, first.len() as int);
        assert(joined(nodes, first, base, first.len() as int) + Seq::<Expr>::empty() =~= joined(
            nodes,
            first,
            base,
            first.len() as int,
        ));
    } else {
        lemma_joined_append(nodes, first, second, base, count - 1);
        assert((first + second)[first.len() + count - 1] == second[count - 1]);
        assert(joined(nodes, first, base, first.len() as int) + (joined(
            nodes,
            second,
            base,
            count - 1,
        ) + eval(nodes, second[count - 1] as int, base)) =~= (joined(
            nodes,
            first,
            base,
            first.len() as int,
        ) + joined(nodes, second, base, count - 1)) + eval(nodes, second[count - 1] as int, base));
    }
}

/// The slots and sizes of the first parts of two lists that begin alike are
/// the same.
pub proof fn lemma_joined_same<M: Fn(&[Expr]) -> Vec<Expr>, B: Fn(&[Expr], usize, Expr) -> Expr>(
    nodes: Seq<Node<M, B>>,
    first: Seq<usize>,
    second: Seq<usize>,
    base: Seq<Expr>,
    count: int,
)
    requires
        count <= first.len(),
        count <= second.len(),
        forall|k: int| 0 <= k < count ==> first[k] == second[k],
    ensures
        joined(nodes, first, base, count) == joined(nodes, second, base, count),
        total(nodes, first, count) == total(nodes, second, count),
    decreases count,
{
    if count > 0 {
        lemma_joined_same(nodes, first, second, base, count - 1);
    }
}

/// The slots of the first parts of a concatenation are the slots of these
/// nodes, one after the other.
pub proof fn lemma_parts_joined<M: Fn(&[Expr]) -> Vec<Expr>, B: Fn(&[Expr], usize, Expr) -> Expr>(
    nodes: Seq<Node<M, B>>,
    id: int,
    base: Seq<Expr>,
    count: int,
)
    requires
        0 <= id < nodes.len(),
        nodes[id] is Concat,
        0 <= count <= nodes[id]->Concat_1@.len(),
        forall|k: int|
            0 <= k < nodes[id]->Concat_1@.len() ==> (#[trigger] nodes[id]->Concat_1@[k]) < id,
    ensures
        parts_eval(nodes, id, base, count) == joined(nodes, nodes[id]->Concat_1@, base, count),
    decreases count,
{
    if count > 0 {
        assert(nodes[id]->Concat_1@[count - 1] < id);
        lemma_parts_joined(nodes, id, base, count - 1);
    }
}

/// Parts without slots, and parts that are concatenations themselves, can
/// be left out or taken apart: what is left has the same slots.
pub proof fn lemma_flat<M: Fn(&[Expr]) -> Vec<Expr>, B: Fn(&[Expr], usize, Expr) -> Expr>(
    nodes: Seq<Node<M, B>>,
    parts: Seq<usize>,
    base: Seq<Expr>,
    count: int,
)
    requires
        nodes_ok(nodes),
        0 <= count <= parts.len(),
        forall|k: int|
            0 <= k < parts.len() ==> (#[trigger] parts[k]) < nodes.len() && fits(
                nodes,
                parts[k] as int,
                base.len(),
            ),
    ensures
        joined(nodes, flat(nodes, parts, count), base, flat(nodes, parts, count).len() as int)
            == joined(nodes, parts, base, count),
        forall|k: int|
            0 <= k < flat(nodes, parts, count).len() ==> (#[trigger] flat(nodes, parts, count)[k])
                < nodes.len() && fits(nodes, flat(nodes, parts, count)[k] as int, base.len()),
    decreases count,
{
    if count > 0 {
        let before = flat(nodes, parts, count - 1);
        let own = share(nodes, parts, count - 1);
        let part = parts[count - 1];
        lemma_flat(nodes, parts, base, count - 1);
        lemma_joined_append(nodes, before, own, base, own.len() as int);
        assert(part < nodes.len());
        assert(node_ok(nodes, part as int));
        lemma_eval_len(nodes, part as int, base);
        if size(nodes, part as int) == 0 {
            assert(joined(nodes, parts, base, count - 1) + eval(nodes, part as int, base)
                =~= joined(nodes, parts, base, count - 1));
            assert(before + own =~= before);
        } else {
            match nodes[part as int] {
                Node::Concat(_, inner) => {
                    lemma_parts_joined(nodes, part as int, base, inner@.len() as int);
                    assert forall|k: int| 0 <= k < own.len() implies (#[trigger] own[k])
                        < nodes.len() && fits(nodes, own[k] as int, base.len()) by {
                        assert(inner@[k] < part);
                        assert(kids(nodes, part as int)[k] == own[k]);
                    }
                },
                _ => {
                    assert(joined(nodes, own, base, 0) + eval(nodes, part as int, base) =~= eval(
                        nodes,
                        part as int,
                        base,
                    ));
                },
            }
        }
        assert forall|k: int| 0 <= k < (before + own).len() implies (#[trigger] (before + own)[k])
            < nodes.len() && fits(nodes, (before + own)[k] as int, base.len()) by {
            if k < before.len() {
                assert((before + own)[k] == before[k]);
            } else {
                assert((before + own)[k] == own[k - before.len()]);
            }
        }
    }
}

/// Leaving out parts without slots and taking apart concatenations keeps
/// the sum of the sizes, and leaves nodes that are in the graph.
pub proof fn lemma_flat_total<M: Fn(&[Expr]) -> Vec<Expr>, B: Fn(&[Expr], usize, Expr) -> Expr>(
    nodes: Seq<Node<M, B>>,
    parts: Seq<usize>,
    count: int,
)
    requires
        nodes_ok(nodes),
        0 <= count <= parts.len(),
        forall|k: int| 0 <= k < parts.len() ==> (#[trigger] parts[k]) < nodes.len(),
    ensures
        total(nodes, flat(nodes, parts, count), flat(nodes, parts, count).len() as int) == total(
            nodes,
            parts,
            count,
        ),
        forall|k: int|
            0 <= k < flat(nodes, parts, count).len() ==> (#[trigger] flat(nodes, parts, count)[k])
                < nodes.len(),
    decreases count,
{
    if count > 0 {
        let before = flat(nodes, parts, count - 1);
        let own = share(nodes, parts, count - 1);
        let part = parts[count - 1];
        lemma_flat_total(nodes, parts, count - 1);
        lemma_joined_append(nodes, before, own, Seq::empty(), own.len() as int);
        assert(part < nodes.len());
        assert(node_ok(nodes, part as int));
        if size(nodes, part as int) == 0 {
        } else {
            match nodes[part as int] {
                Node::Concat(_, inner) => {
                    assert forall|k: int| 0 <= k < own.len() implies (#[trigger] own[k])
                        < nodes.len() by {
                        assert(inner@[k] < part);
                    }
                },
                _ => {
                    assert(total(nodes, own, 0) == 0);
                },
            }
        }
        assert forall|k: int| 0 <= k < (before + own).len() implies (#[trigger] (before + own)[k])
            < nodes.len() by {
            if k < before.len() {
                assert((before + own)[k] == before[k]);
            } else {
                assert((before + own)[k] == own[k - before.len()]);
            }
        }
    }
}

/// The caches that parts reach are reached by what is left of the parts
/// when parts without slots are left out and concatenations taken apart.
pub proof fn lemma_flat_caches<M: Fn(&[Expr]) -> Vec<Expr>, B: Fn(&[Expr], usize, Expr) -> Expr>(
    nodes: Seq<Node<M, B>>,
    caches: Seq<Option<Vec<Expr>>>,
    parts: Seq<usize>,
    base: Seq<Expr>,
    count: int,
)
    requires
        nodes_ok(nodes),
        0 <= count <= parts.len(),
        forall|k: int| 0 <= k < parts.len() ==> (#[trigger] parts[k]) < nodes.len(),
    ensures
        (forall|k: int| 0 <= k < parts.len() ==> coherent(nodes, caches, (#[trigger] parts[k]) as int, base))
            ==> (forall|k: int|
            0 <= k < flat(nodes, parts, count).len() ==> coherent(
                nodes,
                caches,
                (#[trigger] flat(nodes, parts, count)[k]) as int,
                base,
            )),
        (forall|k: int| 0 <= k < parts.len() ==> cleared(nodes, caches, (#[trigger] parts[k]) as int))
            ==> (forall|k: int|
            0 <= k < flat(nodes, parts, count).len() ==> cleared(
                nodes,
                caches,
                (#[trigger] flat(nodes, parts, count)[k]) as int,
            )),
    decreases count,
{
    if count > 0 {
        let before = flat(nodes, parts, count - 1);
        let own = share(nodes, parts, count - 1);
        let part = parts[count - 1];
        lemma_flat_caches(nodes, caches, parts, base, count - 1);
        assert(part < nodes.len());
        assert(node_ok(nodes, part as int));
        if forall|k: int| 0 <= k < parts.len() ==> coherent(nodes, caches, (#[trigger] parts[k]) as int, base) {
            assert(coherent(nodes, caches, part as int, base));
            assert forall|k: int| 0 <= k < (before + own).len() implies coherent(
                nodes,
                caches,
                (#[trigger] (before + own)[k]) as int,
                base,
            ) by {
                if k < before.len() {
                    assert((before + own)[k] == before[k]);
                } else {
                    let m = k - before.len();
                    assert((before + own)[k] == own[m]);
                    match nodes[part as int] {
                        Node::Concat(_, inner) => {
                            if size(nodes, part as int) != 0 {
                                assert(inner@[m] < part);
                                assert(kids(nodes, part as int)[m] == own[m]);
                            }
                        },
                        _ => {},
                    }
                }
            }
        }
        if forall|k: int| 0 <= k < parts.len() ==> cleared(nodes, caches, (#[trigger] parts[k]) as int) {
            assert(cleared(nodes, caches, part as int));
            assert forall|k: int| 0 <= k < (before + own).len() implies cleared(
                nodes,
                caches,
                (#[trigger] (before + own)[k]) as int,
            ) by {
                if k < before.len() {
                    assert((before + own)[k] == before[k]);
                } else {
                    let m = k - before.len();
                    assert((before + own)[k] == own[m]);
                    match nodes[part as int] {
                        Node::Concat(_, inner) => {
                            if size(nodes, part as int) != 0 {
                                assert(inner@[m] < part);
                                assert(kids(nodes, part as int)[m] == own[m]);
                            }
                        },
                        _ => {},
                    }
                }
            }
        }
    }
}

/// Parts without slots have no slots together.
pub proof fn lemma_total_none<M, B>(nodes: Seq<Node<M, B>>, parts: Seq<usize>, count: int)
    requires
        0 <= count <= parts.len(),
        forall|k: int| 0 <= k < parts.len() ==> size(nodes, (#[trigger] parts[k]) as int) == 0,
    ensures
        total(nodes, parts, count) == 0,
    decreases count,
{
    if count > 0 {
        lemma_total_none(nodes, parts, count - 1);
        assert(size(nodes, parts[count - 1] as int) == 0);
    }
}

/// Parts of which one has slots, and no other, have its slots together.
pub proof fn lemma_total_sole<M, B>(nodes: Seq<Node<M, B>>, parts: Seq<usize>, count: int, sole: int)
    requires
        0 <= count <= parts.len(),
        forall|k: int|
            0 <= k < parts.len() && k != sole ==> size(nodes, (#[trigger] parts[k]) as int) == 0,
    ensures
        total(nodes, parts, count) == if 0 <= sole < count {
            size(nodes, parts[sole] as int)
        } else {
            0
        },
    decreases count,
{
    if count > 0 {
        lemma_total_sole(nodes, parts, count - 1, sole);
        if sole != count - 1 {
            assert(size(nodes, parts[count - 1] as int) == 0);
        }
    }
}

/// How many parts have slots: none where none has, one where one has and
/// no other, and more where two have.
pub proof fn lemma_filled<M, B>(
    nodes: Seq<Node<M, B>>,
    parts: Seq<usize>,
    count: int,
    first: int,
    second: int,
)
    requires
        0 <= count <= parts.len(),
    ensures
        (forall|k: int| 0 <= k < count ==> size(nodes, (#[trigger] parts[k]) as int) == 0)
            ==> filled(nodes, parts, count) == 0,
        0 <= first < count && size(nodes, parts[first] as int) != 0 ==> filled(nodes, parts, count)
            >= 1,
        0 <= first < count && (forall|k: int|
            0 <= k < count && k != first ==> size(nodes, (#[trigger] parts[k]) as int) == 0)
            ==> filled(nodes, parts, count) <= 1,
        0 <= first < count && 0 <= second < count && first != second && size(
            nodes,
            parts[first] as int,
        ) != 0 && size(nodes, parts[second] as int) != 0 ==> filled(nodes, parts, count) >= 2,
    decreases count,
{
    if count > 0 {
        lemma_filled(nodes, parts, count - 1, first, second);
        lemma_filled(nodes, parts, count - 1, second, first);
        if forall|k: int| 0 <= k < count ==> size(nodes, (#[trigger] parts[k]) as int) == 0 {
            assert(size(nodes, parts[count - 1] as int) == 0);
        }
        if 0 <= first < count && (forall|k: int|
            0 <= k < count && k != first ==> size(nodes, (#[trigger] parts[k]) as int) == 0) {
            if first == count - 1 {
                assert forall|k: int| 0 <= k < count - 1 implies size(
                    nodes,
                    (#[trigger] parts[k]) as int,
                ) == 0 by {
                }
            } else {
                assert(size(nodes, parts[count - 1] as int) == 0);
            }
        }
    }
}

/// Nodes added behind parts change nothing about the slots of the parts.
pub proof fn lemma_joined_grown<M: Fn(&[Expr]) -> Vec<Expr>, B: Fn(&[Expr], usize, Expr) -> Expr>(
    before: Seq<Node<M, B>>,
    after: Seq<Node<M, B>>,
    parts: Seq<usize>,
    base: Seq<Expr>,
    count: int,
)
    requires
        grown(before, after),
        0 <= count <= parts.len(),
        forall|k: int| 0 <= k < parts.len() ==> (#[trigger] parts[k]) < before.len(),
    ensures
        joined(after, parts, base, count) == joined(before, parts, base, count),
        total(after, parts, count) == total(before, parts, count),
    decreases count,
{
    if count > 0 {
        lemma_joined_grown(before, after, parts, base, count - 1);
        assert(parts[count - 1] < before.len());
        lemma_grown(before, after, parts[count - 1] as int, base);
    }
}

/// Where none of the first parts has slots, they have no slots together;
/// where one of them has, and no other, they have the slots of that one.
pub proof fn lemma_joined_sole<M: Fn(&[Expr]) -> Vec<Expr>, B: Fn(&[Expr], usize, Expr) -> Expr>(
    nodes: Seq<Node<M, B>>,
    parts: Seq<usize>,
    base: Seq<Expr>,
    count: int,
    sole: int,
)
    requires
        nodes_ok(nodes),
        0 <= count <= parts.len(),
        forall|k: int|
            0 <= k < parts.len() ==> (#[trigger] parts[k]) < nodes.len() && fits(
                nodes,
                parts[k] as int,
                base.len(),
            ),
        forall|k: int| 0 <= k < count && k != sole ==> size(nodes, (#[trigger] parts[k]) as int) == 0,
    ensures
        joined(nodes, parts, base, count) == if 0 <= sole < count {
            eval(nodes, parts[sole] as int, base)
        } else {
            Seq::empty()
        },
    decreases count,
{
    if count > 0 {
        lemma_joined_sole(nodes, parts, base, count - 1, sole);
        assert(parts[count - 1] < nodes.len());
        lemma_eval_len(nodes, parts[count - 1] as int, base);
        if sole == count - 1 {
            assert(Seq::<Expr>::empty() + eval(nodes, parts[sole] as int, base) =~= eval(
                nodes,
                parts[sole] as int,
                base,
            ));
        } else {
            assert(size(nodes, parts[count - 1] as int) == 0);
            assert(joined(nodes, parts, base, count - 1) + eval(nodes, parts[count - 1] as int, base)
                =~= joined(nodes, parts, base, count - 1));
        }
    }
}

} // verus!
