//! Lazily evaluated, shared and cached computations of flat arrays.
use vstd::prelude::*;
use crate::evaluation::{
    as_slice_in, clear_cache_in, evaluate_in, fits_in, flatten, get_in, measure, size_in,
    to_slice_in,
};
use crate::expr::Expr;
use crate::graph::{
    cleared, coherent, contiguous, eval, filled, fills, fits, flat, grown, image, image_elem,
    joined, kids, lemma_cleared_coherent, lemma_eval_len, lemma_filled, lemma_fills_coherent,
    lemma_flat, lemma_flat_caches, lemma_flat_total, lemma_grown, lemma_grown_caches,
    lemma_grown_ok, lemma_grown_size, lemma_joined_grown, lemma_joined_sole, lemma_kids_sign,
    lemma_parts_joined, lemma_size_bound, lemma_total_none, lemma_total_sole, node_ok,
    nodes_ok, pure_elem, pure_map, reaches, select, size, sized, total, wiped_from, ElemFn,
    Node,
};

verus! {

/// A slice that is borrowed from where it lies, or one that was built.
pub enum BorrowedSlice<'a, T> {
    Borrowed(&'a [T]),
    Owned(Vec<T>),
}

impl<'a, T> BorrowedSlice<'a, T> {
    /// The items.
    pub open spec fn view(&self) -> Seq<T> {
        match self {
            BorrowedSlice::Borrowed(slice) => slice@,
            BorrowedSlice::Owned(items) => items@,
        }
    }

    /// The items as a slice.
    pub fn get(&self) -> (slice: &[T])
        ensures
            slice@ == self@,
    {
        match self {
            BorrowedSlice::Borrowed(slice) => slice,
            BorrowedSlice::Owned(items) => items.as_slice(),
        }
    }
}

/// A graph of transformations of flat arrays.
///
/// Each node stands for a flat array of expressions of a fixed size that is
/// computed from a base array, which is handed in when a slot is asked for.
/// Nodes are named by their numbers. A node refers to nodes that were made
/// before it, so that one node can be a part of many. A node that applies a
/// function to all slots of another keeps what the function gave in a cache.
/// The cache belongs to the base array that was handed in when it was
/// filled: before such a node is asked over another base array, its cache
/// has to be cleared.
pub struct Transformation<M, B> {
    nodes: Vec<Node<M, B>>,
    caches: Vec<Option<Vec<Expr>>>,
}

impl<M: Fn(&[Expr]) -> Vec<Expr>, B: Fn(&[Expr], usize, Expr) -> Expr> Transformation<M, B> {
    /// The nodes, in the order in which they were made.
    pub closed spec fn nodes(&self) -> Seq<Node<M, B>> {
        self.nodes@
    }

    /// The caches of the nodes.
    pub closed spec fn caches(&self) -> Seq<Option<Vec<Expr>>> {
        self.caches@
    }

    /// Every node refers to nodes in front of it only, sizes and offsets agree,
    /// and every node has a cache.
    pub closed spec fn wf(&self) -> bool {
        nodes_ok(self.nodes()) && self.caches().len() == self.nodes().len()
    }

    /// Whether `id` names a node.
    pub open spec fn has(&self, id: usize) -> bool {
        id < self.nodes().len()
    }

    /// The number of slots of node `id`.
    pub open spec fn len(&self, id: usize) -> nat {
        size(self.nodes(), id as int)
    }

    /// The slots of node `id` over `base`, as a plain evaluation of the
    /// graph without caches gives them.
    pub open spec fn slots(&self, id: usize, base: Seq<Expr>) -> Seq<Expr> {
        eval(self.nodes(), id as int, base)
    }

    /// Whether a base array of `length` items is long enough for node `id`.
    pub open spec fn takes(&self, id: usize, length: nat) -> bool {
        fits(self.nodes(), id as int, length)
    }

    /// Whether every cache that node `id` reaches is empty or was filled
    /// over `base`.
    pub closed spec fn ready(&self, id: usize, base: Seq<Expr>) -> bool {
        coherent(self.nodes(), self.caches(), id as int, base)
    }

    /// Whether every cache that node `id` reaches is empty.
    pub closed spec fn fresh(&self, id: usize) -> bool {
        cleared(self.nodes(), self.caches(), id as int)
    }

    /// Whether this graph holds the nodes and caches of `before`, as they
    /// are, and maybe more nodes behind them, with empty caches.
    pub closed spec fn extends(&self, before: &Self) -> bool {
        &&& grown(before.nodes(), self.nodes())
        &&& forall|id: int|
            0 <= id < before.caches().len() ==> #[trigger] self.caches()[id] == before.caches()[id]
        &&& forall|id: int|
            before.caches().len() <= id < self.caches().len() ==> (
            #[trigger] self.caches()[id]) is None
    }

    /// Whether this graph has the nodes of `before`, and caches of which
    /// some were filled over `base` since.
    pub open spec fn filled_from(&self, before: &Self, base: Seq<Expr>) -> bool {
        &&& self.nodes() == before.nodes()
        &&& fills(self.nodes(), before.caches(), self.caches(), base)
    }

    /// A node of a graph that was extended is what it was: it has its
    /// slots and its size, takes the base arrays that it took, and reaches
    /// the caches that it reached.
    pub proof fn lemma_extends(&self, before: &Self, id: usize, base: Seq<Expr>)
        requires
            before.wf(),
            self.wf(),
            self.extends(before),
            before.has(id),
        ensures
            self.has(id),
            self.len(id) == before.len(id),
            self.slots(id, base) == before.slots(id, base),
            self.takes(id, base.len()) == before.takes(id, base.len()),
            self.ready(id, base) == before.ready(id, base),
            self.fresh(id) == before.fresh(id),
    {
        lemma_grown(before.nodes(), self.nodes(), id as int, base);
        lemma_grown_caches(
            before.nodes(),
            self.nodes(),
            before.caches(),
            self.caches(),
            id as int,
            base,
        );
    }

    /// A graph that extends one that extends another extends the other.
    pub proof fn lemma_extends_twice(&self, middle: &Self, before: &Self)
        requires
            before.wf(),
            middle.wf(),
            self.wf(),
            self.extends(middle),
            middle.extends(before),
        ensures
            self.extends(before),
    {
        assert forall|id: int| 0 <= id < before.caches().len() implies #[trigger] self.caches()[id]
            == before.caches()[id] by {
            assert(middle.caches()[id] == before.caches()[id]);
        }
        assert forall|id: int| 0 <= id < before.nodes().len() implies #[trigger] self.nodes()[id]
            == before.nodes()[id] by {
            assert(middle.nodes()[id] == before.nodes()[id]);
        }
    }

    /// The size of a node fits a machine word.
    pub proof fn lemma_len_bound(&self, id: usize)
        ensures
            self.len(id) <= usize::MAX,
    {
        lemma_size_bound(self.nodes(), id as int);
    }

    /// A node has as many slots as its size says, over every base array
    /// that it takes.
    pub proof fn lemma_slots_len(&self, id: usize, base: Seq<Expr>)
        requires
            self.wf(),
            self.has(id),
            self.takes(id, base.len()),
        ensures
            self.slots(id, base).len() == self.len(id),
            self.len(id) <= usize::MAX,
    {
        lemma_eval_len(self.nodes(), id as int, base);
        lemma_size_bound(self.nodes(), id as int);
    }

    /// Caches that were filled over a base array are ready for it, where
    /// they were ready for it before.
    pub proof fn lemma_filled(&self, before: &Self, id: usize, base: Seq<Expr>)
        requires
            before.wf(),
            self.filled_from(before, base),
            before.ready(id, base),
        ensures
            self.wf(),
            self.ready(id, base),
    {
        lemma_fills_coherent(self.nodes(), before.caches(), self.caches(), base, id as int);
    }

    /// Caches that are empty are ready for every base array.
    pub proof fn lemma_fresh_ready(&self, id: usize, base: Seq<Expr>)
        requires
            self.fresh(id),
        ensures
            self.ready(id, base),
    {
        lemma_cleared_coherent(self.nodes(), self.caches(), id as int, base);
    }

    /// The graph without nodes.
    pub fn new() -> (graph: Self)
        ensures
            graph.wf(),
            graph.nodes().len() == 0,
    {
        Transformation { nodes: Vec::new(), caches: Vec::new() }
    }

    /// Adds `node` behind the nodes that are there.
    fn push(&mut self, node: Node<M, B>) -> (id: usize)
        requires
            old(self).wf(),
            node_ok(old(self).nodes().push(node), old(self).nodes().len() as int),
        ensures
            final(self).wf(),
            final(self).extends(old(self)),
            final(self).nodes() == old(self).nodes().push(node),
            final(self).caches() == old(self).caches().push(None),
            id == old(self).nodes().len(),
    {
        let ghost before = self.nodes@;
        let id = self.nodes.len();
        self.nodes.push(node);
        self.caches.push(None);
        proof {
            let after = self.nodes@;
            assert forall|other: int| 0 <= other < after.len() implies #[trigger] node_ok(
                after,
                other,
            ) by {
                if other < before.len() {
                    assert(node_ok(before, other));
                    lemma_grown_ok(before, after, other);
                }
            }
        }
        id
    }

    /// The caches that a node reaches which was added last are those that
    /// the nodes reached that it refers to.
    proof fn lemma_pushed(&self, before: &Self, id: usize, base: Seq<Expr>)
        requires
            before.caches().len() == before.nodes().len(),
            id == before.nodes().len(),
            self.nodes().len() == before.nodes().len() + 1,
            grown(before.nodes(), self.nodes()),
            self.caches() == before.caches().push(None),
        ensures
            self.fresh(id) == (forall|k: int|
                0 <= k < kids(self.nodes(), id as int).len() && (#[trigger] kids(
                    self.nodes(),
                    id as int,
                )[k]) < id ==> cleared(
                    before.nodes(),
                    before.caches(),
                    kids(self.nodes(), id as int)[k],
                )),
            self.ready(id, base) == (forall|k: int|
                0 <= k < kids(self.nodes(), id as int).len() && (#[trigger] kids(
                    self.nodes(),
                    id as int,
                )[k]) < id ==> coherent(
                    before.nodes(),
                    before.caches(),
                    kids(self.nodes(), id as int)[k],
                    base,
                )),
    {
        let old_nodes = before.nodes();
        let caches = before.caches();
        let after = self.nodes();
        let more = self.caches();
        assert forall|k: int|
            0 <= k < kids(after, id as int).len() && 0 <= (#[trigger] kids(after, id as int)[k])
                < id implies cleared(after, more, kids(after, id as int)[k]) == cleared(
            old_nodes,
            caches,
            kids(after, id as int)[k],
        ) && coherent(after, more, kids(after, id as int)[k], base) == coherent(
            old_nodes,
            caches,
            kids(after, id as int)[k],
            base,
        ) by {
            lemma_grown_caches(old_nodes, after, caches, more, kids(after, id as int)[k], base);
        }
        assert forall|k: int| 0 <= k < kids(after, id as int).len() implies 0 <= #[trigger] kids(
            after,
            id as int,
        )[k] by {
            lemma_kids_sign(after, id as int, k);
        }
    }

    /// Adds a node for the first `count` slots of the base array.
    pub fn id(&mut self, count: usize) -> (node: usize)
        requires
            old(self).wf(),
        ensures
            final(self).wf(),
            final(self).extends(old(self)),
            final(self).nodes() == old(self).nodes().push(Node::Id(count)),
            node == old(self).nodes().len(),
            final(self).len(node) == count,
            final(self).fresh(node),
            forall|length: nat| #[trigger] final(self).takes(node, length) == (count <= length),
            forall|base: Seq<Expr>| #[trigger]
                final(self).slots(node, base) == base.take(count as int),
            forall|base: Seq<Expr>| #[trigger] final(self).ready(node, base),
    {
        let node = self.push(Node::Id(count));
        proof {
            assert(kids(self.nodes@, node as int).len() == 0);
            self.lemma_pushed(old(self), node, Seq::empty());
            assert forall|base: Seq<Expr>| #[trigger] self.ready(node, base) by {
                self.lemma_pushed(old(self), node, base);
            }
        }
        node
    }

    /// Adds a node for the given expressions.
    pub fn constant(&mut self, exprs: Vec<Expr>) -> (node: usize)
        requires
            old(self).wf(),
        ensures
            final(self).wf(),
            final(self).extends(old(self)),
            final(self).nodes() == old(self).nodes().push(Node::Constant(exprs)),
            node == old(self).nodes().len(),
            final(self).len(node) == exprs@.len(),
            final(self).fresh(node),
            forall|length: nat| #[trigger] final(self).takes(node, length),
            forall|base: Seq<Expr>| #[trigger] final(self).slots(node, base) == exprs@,
            forall|base: Seq<Expr>| #[trigger] final(self).ready(node, base),
    {
        let node = self.push(Node::Constant(exprs));
        proof {
            assert(kids(self.nodes@, node as int).len() == 0);
            self.lemma_pushed(old(self), node, Seq::empty());
            assert forall|base: Seq<Expr>| #[trigger] self.ready(node, base) by {
                self.lemma_pushed(old(self), node, base);
            }
        }
        node
    }

    /// Whether `node` of this graph was made for the `length` slots of node
    /// `of` of the graph `before` from `offset` on: it is a new node
    /// without slots where `length` is zero, `of` itself where the slots are
    /// all slots of `of`, and a new node that refers to `of` otherwise.
    pub open spec fn views(
        &self,
        before: &Self,
        offset: usize,
        length: usize,
        of: usize,
        node: usize,
    ) -> bool {
        if length == 0 {
            node == before.nodes().len() && self.nodes() == before.nodes().push(Node::Id(0))
        } else if offset == 0 && length == before.len(of) {
            node == of && self.nodes() == before.nodes()
        } else {
            node == before.nodes().len() && self.nodes() == before.nodes().push(
                Node::View(offset, length, of),
            )
        }
    }

    /// A node for the `length` slots of node `of` from `offset` on. Where
    /// `length` is zero this is a new node without slots; where the slots
    /// are all slots of `of`, it is `of` itself; otherwise it is a new node
    /// that refers to `of`.
    pub fn view(&mut self, offset: usize, length: usize, of: usize) -> (node: usize)
        requires
            old(self).wf(),
            old(self).has(of),
            offset + length <= old(self).len(of),
        ensures
            final(self).wf(),
            final(self).extends(old(self)),
            final(self).has(node),
            final(self).len(node) == length,
            final(self).views(old(self), offset, length, of, node),
            old(self).fresh(of) ==> final(self).fresh(node),
            forall|base: Seq<Expr>|
                old(self).takes(of, base.len()) ==> #[trigger] final(self).takes(node, base.len()),
            forall|base: Seq<Expr>|
                old(self).takes(of, base.len()) ==> #[trigger] final(self).slots(node, base)
                    == old(self).slots(of, base).subrange(offset as int, offset + length),
            forall|base: Seq<Expr>|
                old(self).ready(of, base) ==> #[trigger] final(self).ready(node, base),
    {
        let ghost before = self.nodes@;
        if length == 0 {
            let node = self.push(Node::Id(0));
            proof {
                assert(kids(self.nodes@, node as int).len() == 0);
                self.lemma_pushed(old(self), node, Seq::empty());
                assert forall|base: Seq<Expr>| #[trigger] self.ready(node, base) by {
                    self.lemma_pushed(old(self), node, base);
                }
                assert forall|base: Seq<Expr>|
                    old(self).takes(of, base.len()) implies #[trigger] self.slots(node, base)
                    == old(self).slots(of, base).subrange(offset as int, offset + length) by {
                    lemma_eval_len(before, of as int, base);
                    assert(self.slots(node, base) =~= old(self).slots(of, base).subrange(
                        offset as int,
                        offset + length,
                    ));
                }
            }
            node
        } else if offset == 0 && size_in(&self.nodes, of) == length {
            proof {
                assert forall|base: Seq<Expr>|
                    old(self).takes(of, base.len()) implies #[trigger] self.slots(of, base)
                    == old(self).slots(of, base).subrange(offset as int, offset + length) by {
                    lemma_eval_len(before, of as int, base);
                    assert(self.slots(of, base) =~= old(self).slots(of, base).subrange(
                        offset as int,
                        offset + length,
                    ));
                }
            }
            of
        } else {
            proof {
                let after = before.push(Node::View(offset, length, of));
                assert(grown(before, after));
                lemma_grown_size(before, after, of as int);
            }
            let node = self.push(Node::View(offset, length, of));
            proof {
                let after = self.nodes@;
                assert(kids(after, node as int) =~= seq![of as int]);
                assert(kids(after, node as int)[0] == of);
                self.lemma_pushed(old(self), node, Seq::empty());
                assert forall|base: Seq<Expr>|
                    old(self).ready(of, base) implies #[trigger] self.ready(node, base) by {
                    self.lemma_pushed(old(self), node, base);
                }
                assert forall|base: Seq<Expr>|
                    old(self).takes(of, base.len()) implies #[trigger] self.takes(
                    node,
                    base.len(),
                ) by {
                    lemma_grown(before, after, of as int, base);
                }
                assert forall|base: Seq<Expr>|
                    old(self).takes(of, base.len()) implies #[trigger] self.slots(node, base)
                    == old(self).slots(of, base).subrange(offset as int, offset + length) by {
                    lemma_grown(before, after, of as int, base);
                }
            }
            node
        }
    }

    /// Whether `node` of this graph stands for the slots of `parts` of the
    /// graph `before`, one after the other: it has as many slots as they
    /// have together. Where no part has slots, it is a new node without
    /// slots. Where one part has slots, and no other, it is that part, and
    /// this graph is `before`. Where more have, it is a new concatenation of
    /// the parts that have slots, with those that are concatenations
    /// themselves taken apart. It takes every base array that all parts
    /// take, and has over it the slots of the parts one after the other; and
    /// its caches are ready, or empty, where those of all parts are.
    pub open spec fn joins(&self, before: &Self, parts: Seq<usize>, node: usize) -> bool {
        &&& self.wf()
        &&& self.extends(before)
        &&& self.has(node)
        &&& self.len(node) == total(before.nodes(), parts, parts.len() as int)
        &&& filled(before.nodes(), parts, parts.len() as int) == 0 ==> node == before.nodes().len()
            && self.nodes() == before.nodes().push(Node::Id(0))
        &&& filled(before.nodes(), parts, parts.len() as int) == 1 ==> self.nodes()
            == before.nodes()
        &&& filled(before.nodes(), parts, parts.len() as int) >= 2 ==> {
            &&& node == before.nodes().len()
            &&& self.nodes().len() == before.nodes().len() + 1
            &&& self.nodes()[node as int] is Concat
            &&& self.nodes()[node as int]->Concat_1@ == flat(
                before.nodes(),
                parts,
                parts.len() as int,
            )
        }
        &&& forall|at: int|
            0 <= at < parts.len() && before.len(#[trigger] parts[at]) != 0 && (forall|k: int|
                0 <= k < parts.len() && k != at ==> before.len(#[trigger] parts[k]) == 0) ==> node
                == parts[at] && self.nodes() == before.nodes()
        &&& (forall|k: int| 0 <= k < parts.len() ==> before.fresh(#[trigger] parts[k]))
            ==> self.fresh(node)
        &&& forall|base: Seq<Expr>|
            (forall|k: int| 0 <= k < parts.len() ==> before.takes(#[trigger] parts[k], base.len()))
                ==> #[trigger] self.takes(node, base.len())
        &&& forall|base: Seq<Expr>|
            (forall|k: int| 0 <= k < parts.len() ==> before.takes(#[trigger] parts[k], base.len()))
                ==> #[trigger] self.slots(node, base) == joined(
                before.nodes(),
                parts,
                base,
                parts.len() as int,
            )
        &&& forall|base: Seq<Expr>|
            (forall|k: int| 0 <= k < parts.len() ==> before.ready(#[trigger] parts[k], base))
                ==> #[trigger] self.ready(node, base)
    }

    /// The concatenation of parts of which none has slots.
    fn concat_none(&mut self, parts: &[usize]) -> (node: usize)
        requires
            old(self).wf(),
            forall|k: int| 0 <= k < parts@.len() ==> old(self).has(#[trigger] parts@[k]),
            forall|k: int| 0 <= k < parts@.len() ==> old(self).len(#[trigger] parts@[k]) == 0,
        ensures
            final(self).joins(old(self), parts@, node),
    {
        let ghost before = self.nodes@;
        let node = self.push(Node::Id(0));
        proof {
            assert(kids(self.nodes@, node as int).len() == 0);
            self.lemma_pushed(old(self), node, Seq::empty());
            assert forall|base: Seq<Expr>| #[trigger] self.ready(node, base) by {
                self.lemma_pushed(old(self), node, base);
            }
            assert forall|base: Seq<Expr>|
                (forall|k: int|
                    0 <= k < parts@.len() ==> old(self).takes(
                        #[trigger] parts@[k],
                        base.len(),
                    )) implies #[trigger] self.slots(node, base) == joined(
                before,
                parts@,
                base,
                parts@.len() as int,
            ) by {
                lemma_joined_sole(before, parts@, base, parts@.len() as int, -1);
                assert(self.slots(node, base) =~= Seq::<Expr>::empty());
            }
            lemma_total_none(before, parts@, parts@.len() as int);
            lemma_filled(before, parts@, parts@.len() as int, 0, 0);
        }
        node
    }

    /// Where one part has slots, and no other, it is the concatenation of
    /// the parts.
    proof fn lemma_concat_sole(&self, parts: Seq<usize>, only: usize, at: int)
        requires
            self.wf(),
            forall|k: int| 0 <= k < parts.len() ==> self.has(#[trigger] parts[k]),
            0 <= at < parts.len(),
            parts[at] == only,
            self.len(only) != 0,
            forall|k: int| 0 <= k < parts.len() && k != at ==> self.len(#[trigger] parts[k]) == 0,
        ensures
            self.joins(self, parts, only),
    {
        let before = self.nodes();
        lemma_total_sole(before, parts, parts.len() as int, at);
        lemma_filled(before, parts, parts.len() as int, at, at);
        assert forall|base: Seq<Expr>|
            (forall|k: int|
                0 <= k < parts.len() ==> self.takes(
                    #[trigger] parts[k],
                    base.len(),
                )) implies #[trigger] self.slots(only, base) == joined(
            before,
            parts,
            base,
            parts.len() as int,
        ) by {
            lemma_joined_sole(before, parts, base, parts.len() as int, at);
        }
        assert forall|other: int|
            0 <= other < parts.len() && self.len(#[trigger] parts[other]) != 0 && (forall|k: int|
                0 <= k < parts.len() && k != other ==> self.len(#[trigger] parts[k])
                    == 0) implies only == parts[other] by {
            if other != at {
                assert(self.len(parts[at]) == 0);
            }
        }
        assert(self.has(parts[at]));
        assert(self.takes(parts[at], 0) == self.takes(only, 0));
        assert forall|base: Seq<Expr>|
            (forall|k: int|
                0 <= k < parts.len() ==> self.takes(
                    #[trigger] parts[k],
                    base.len(),
                )) implies #[trigger] self.takes(only, base.len()) by {
            assert(self.takes(parts[at], base.len()));
        }
        assert forall|base: Seq<Expr>|
            (forall|k: int|
                0 <= k < parts.len() ==> self.ready(
                    #[trigger] parts[k],
                    base,
                )) implies #[trigger] self.ready(only, base) by {
            assert(self.ready(parts[at], base));
        }
        if forall|k: int| 0 <= k < parts.len() ==> self.fresh(#[trigger] parts[k]) {
            assert(self.fresh(parts[at]));
        }
    }

    /// The concatenation of parts of which several have slots.
    fn concat_many(&mut self, parts: &[usize], sum: usize, two: Ghost<(int, int)>) -> (node: usize)
        requires
            old(self).wf(),
            forall|k: int| 0 <= k < parts@.len() ==> old(self).has(#[trigger] parts@[k]),
            sum == total(old(self).nodes(), parts@, parts@.len() as int),
            0 <= two@.0 < parts@.len(),
            0 <= two@.1 < parts@.len(),
            two@.0 != two@.1,
            old(self).len(parts@[two@.0]) != 0,
            old(self).len(parts@[two@.1]) != 0,
        ensures
            final(self).joins(old(self), parts@, node),
    {
        let ghost before = self.nodes@;
        let left = flatten(&self.nodes, parts);
        proof {
            lemma_flat_total(before, parts@, parts@.len() as int);
            let after = before.push(Node::Concat(sum, left));
            assert(grown(before, after));
            lemma_joined_grown(before, after, left@, Seq::empty(), left@.len() as int);
        }
        let node = self.push(Node::Concat(sum, left));
        proof {
            self.lemma_many(old(self), parts@, left@, node, sum, two@);
        }
        node
    }

    /// The node that refers to what is left of the parts is their
    /// concatenation.
    proof fn lemma_many(
        &self,
        before: &Self,
        parts: Seq<usize>,
        left: Seq<usize>,
        node: usize,
        sum: usize,
        two: (int, int),
    )
        requires
            before.wf(),
            self.wf(),
            self.extends(before),
            forall|k: int| 0 <= k < parts.len() ==> before.has(#[trigger] parts[k]),
            sum == total(before.nodes(), parts, parts.len() as int),
            0 <= two.0 < parts.len(),
            0 <= two.1 < parts.len(),
            two.0 != two.1,
            before.len(parts[two.0]) != 0,
            before.len(parts[two.1]) != 0,
            left == flat(before.nodes(), parts, parts.len() as int),
            node == before.nodes().len(),
            self.nodes().len() == before.nodes().len() + 1,
            self.nodes()[node as int] is Concat,
            self.nodes()[node as int]->Concat_0 == sum,
            self.nodes()[node as int]->Concat_1@ == left,
            self.caches() == before.caches().push(None),
        ensures
            self.joins(before, parts, node),
    {
        let after = self.nodes();
        lemma_filled(before.nodes(), parts, parts.len() as int, two.0, two.1);
        assert(kids(after, node as int) =~= Seq::new(left.len(), |k: int| left[k] as int));
        assert forall|at: int|
            0 <= at < parts.len() && before.len(#[trigger] parts[at]) != 0 && (forall|k: int|
                0 <= k < parts.len() && k != at ==> before.len(#[trigger] parts[k])
                    == 0) implies false by {
            if at == two.0 {
                assert(before.len(parts[two.1]) == 0);
            } else {
                assert(before.len(parts[two.0]) == 0);
            }
        }
        self.lemma_many_takes(before, parts, left, node);
        self.lemma_many_slots(before, parts, left, node, sum);
        self.lemma_pushed(before, node, Seq::empty());
        assert forall|base: Seq<Expr>| #[trigger]
            self.ready(node, base) == (forall|k: int|
                0 <= k < kids(self.nodes(), node as int).len() && (#[trigger] kids(
                    self.nodes(),
                    node as int,
                )[k]) < node ==> coherent(
                    before.nodes(),
                    before.caches(),
                    kids(self.nodes(), node as int)[k],
                    base,
                )) by {
            self.lemma_pushed(before, node, base);
        }
        self.lemma_many_caches(before, parts, left, node);
    }

    /// The node that refers to what is left of the parts takes the base
    /// arrays that the parts take.
    proof fn lemma_many_takes(&self, before: &Self, parts: Seq<usize>, left: Seq<usize>, node: usize)
        requires
            before.wf(),
            forall|k: int| 0 <= k < parts.len() ==> before.has(#[trigger] parts[k]),
            left == flat(before.nodes(), parts, parts.len() as int),
            grown(before.nodes(), self.nodes()),
            node == before.nodes().len(),
            self.has(node),
            kids(self.nodes(), node as int) == Seq::new(left.len(), |k: int| left[k] as int),
            !(self.nodes()[node as int] is Id),
        ensures
            forall|base: Seq<Expr>|
                (forall|k: int|
                    0 <= k < parts.len() ==> before.takes(#[trigger] parts[k], base.len()))
                    ==> #[trigger] self.takes(node, base.len()),
    {
        let old_nodes = before.nodes();
        let after = self.nodes();
        assert forall|base: Seq<Expr>|
            (forall|k: int|
                0 <= k < parts.len() ==> before.takes(
                    #[trigger] parts[k],
                    base.len(),
                )) implies #[trigger] self.takes(node, base.len()) by {
            lemma_flat(old_nodes, parts, base, parts.len() as int);
            assert forall|k: int|
                0 <= k < kids(after, node as int).len() && (#[trigger] kids(after, node as int)[k])
                    < node implies fits(after, kids(after, node as int)[k], base.len()) by {
                assert(left[k] < old_nodes.len());
                lemma_grown(old_nodes, after, left[k] as int, base);
            }
        }
    }

    /// The node that refers to what is left of the parts has the slots of
    /// the parts.
    proof fn lemma_many_slots(
        &self,
        before: &Self,
        parts: Seq<usize>,
        left: Seq<usize>,
        node: usize,
        sum: usize,
    )
        requires
            before.wf(),
            forall|k: int| 0 <= k < parts.len() ==> before.has(#[trigger] parts[k]),
            left == flat(before.nodes(), parts, parts.len() as int),
            grown(before.nodes(), self.nodes()),
            node == before.nodes().len(),
            self.has(node),
            self.nodes()[node as int] is Concat,
            self.nodes()[node as int]->Concat_1@ == left,
        ensures
            forall|base: Seq<Expr>|
                (forall|k: int|
                    0 <= k < parts.len() ==> before.takes(#[trigger] parts[k], base.len()))
                    ==> #[trigger] self.slots(node, base) == joined(
                    before.nodes(),
                    parts,
                    base,
                    parts.len() as int,
                ),
    {
        let old_nodes = before.nodes();
        let after = self.nodes();
        lemma_flat_total(old_nodes, parts, parts.len() as int);
        assert forall|base: Seq<Expr>|
            (forall|k: int|
                0 <= k < parts.len() ==> before.takes(
                    #[trigger] parts[k],
                    base.len(),
                )) implies #[trigger] self.slots(node, base) == joined(
            old_nodes,
            parts,
            base,
            parts.len() as int,
        ) by {
            lemma_flat(old_nodes, parts, base, parts.len() as int);
            lemma_parts_joined(after, node as int, base, left.len() as int);
            lemma_joined_grown(old_nodes, after, left, base, left.len() as int);
        }
    }

    /// The node that refers to what is left of the parts reaches the caches
    /// that the parts reach.
    proof fn lemma_many_caches(&self, before: &Self, parts: Seq<usize>, left: Seq<usize>, node: usize)
        requires
            before.wf(),
            forall|k: int| 0 <= k < parts.len() ==> before.has(#[trigger] parts[k]),
            left == flat(before.nodes(), parts, parts.len() as int),
            node == before.nodes().len(),
            self.has(node),
            kids(self.nodes(), node as int) == Seq::new(left.len(), |k: int| left[k] as int),
            self.fresh(node) == (forall|k: int|
                0 <= k < kids(self.nodes(), node as int).len() && (#[trigger] kids(
                    self.nodes(),
                    node as int,
                )[k]) < node ==> cleared(
                    before.nodes(),
                    before.caches(),
                    kids(self.nodes(), node as int)[k],
                )),
            forall|base: Seq<Expr>| #[trigger]
                self.ready(node, base) == (forall|k: int|
                    0 <= k < kids(self.nodes(), node as int).len() && (#[trigger] kids(
                        self.nodes(),
                        node as int,
                    )[k]) < node ==> coherent(
                        before.nodes(),
                        before.caches(),
                        kids(self.nodes(), node as int)[k],
                        base,
                    )),
        ensures
            (forall|k: int| 0 <= k < parts.len() ==> before.fresh(#[trigger] parts[k]))
                ==> self.fresh(node),
            forall|base: Seq<Expr>|
                (forall|k: int| 0 <= k < parts.len() ==> before.ready(#[trigger] parts[k], base))
                    ==> #[trigger] self.ready(node, base),
    {
        let old_nodes = before.nodes();
        let caches = before.caches();
        let after = self.nodes();
        assert forall|base: Seq<Expr>|
            (forall|k: int|
                0 <= k < parts.len() ==> before.ready(
                    #[trigger] parts[k],
                    base,
                )) implies #[trigger] self.ready(node, base) by {
            lemma_flat_caches(old_nodes, caches, parts, base, parts.len() as int);
            assert forall|k: int|
                0 <= k < kids(after, node as int).len() && (#[trigger] kids(after, node as int)[k])
                    < node implies coherent(
                old_nodes,
                caches,
                kids(after, node as int)[k],
                base,
            ) by {
                assert(kids(after, node as int)[k] == left[k]);
            }
        }
        if forall|k: int| 0 <= k < parts.len() ==> before.fresh(#[trigger] parts[k]) {
            lemma_flat_caches(old_nodes, caches, parts, Seq::empty(), parts.len() as int);
            assert forall|k: int|
                0 <= k < kids(after, node as int).len() && (#[trigger] kids(after, node as int)[k])
                    < node implies cleared(old_nodes, caches, kids(after, node as int)[k]) by {
                assert(kids(after, node as int)[k] == left[k]);
            }
        }
    }

    /// A node for the slots of `parts`, one after the other. Where no part
    /// has slots this is a new node without slots; where one part has, and
    /// no other, it is that part itself; otherwise it is a new node that
    /// refers to the parts that have slots, and to the parts of those that
    /// are concatenations themselves.
    pub fn concat(&mut self, parts: &[usize]) -> (node: usize)
        requires
            old(self).wf(),
            forall|k: int| 0 <= k < parts@.len() ==> old(self).has(#[trigger] parts@[k]),
            total(old(self).nodes(), parts@, parts@.len() as int) <= usize::MAX,
        ensures
            final(self).joins(old(self), parts@, node),
    {
        let (sum, none, sole, places) = measure(&self.nodes, parts);
        if none {
            return self.concat_none(parts);
        }
        match sole {
            Some(only) => {
                proof {
                    self.lemma_concat_sole(parts@, only, places@.0);
                }
                only
            },
            None => self.concat_many(parts, sum, places),
        }
    }

    /// Adds a node for what `function` makes of all slots of node `of`:
    /// `count` slots. What the function gave is kept in a cache from the
    /// first time a slot is asked for.
    pub fn map_slice(&mut self, count: usize, function: M, of: usize) -> (node: usize)
        requires
            old(self).wf(),
            old(self).has(of),
            pure_map(function, old(self).len(of), count as nat),
        ensures
            final(self).wf(),
            final(self).extends(old(self)),
            final(self).nodes() == old(self).nodes().push(Node::MapSlice(count, function, of)),
            node == old(self).nodes().len(),
            final(self).len(node) == count,
            old(self).fresh(of) ==> final(self).fresh(node),
            forall|base: Seq<Expr>|
                old(self).takes(of, base.len()) ==> #[trigger] final(self).takes(node, base.len()),
            forall|base: Seq<Expr>| #[trigger]
                final(self).slots(node, base) == sized(
                    image(function, old(self).slots(of, base)),
                    count as nat,
                ),
            forall|base: Seq<Expr>|
                old(self).ready(of, base) ==> #[trigger] final(self).ready(node, base),
    {
        let ghost before = self.nodes@;
        proof {
            let after = before.push(Node::MapSlice(count, function, of));
            assert(grown(before, after));
            lemma_grown_size(before, after, of as int);
        }
        let node = self.push(Node::MapSlice(count, function, of));
        proof {
            let after = self.nodes@;
            assert(kids(after, node as int) =~= seq![of as int]);
            assert(kids(after, node as int)[0] == of);
            self.lemma_pushed(old(self), node, Seq::empty());
            assert forall|base: Seq<Expr>|
                old(self).ready(of, base) implies #[trigger] self.ready(node, base) by {
                self.lemma_pushed(old(self), node, base);
            }
            assert forall|base: Seq<Expr>|
                old(self).takes(of, base.len()) implies #[trigger] self.takes(node, base.len()) by {
                lemma_grown(before, after, of as int, base);
            }
            assert forall|base: Seq<Expr>| #[trigger]
                self.slots(node, base) == sized(
                    image(function, old(self).slots(of, base)),
                    count as nat,
                ) by {
                lemma_grown(before, after, of as int, base);
            }
        }
        node
    }

    /// Adds a node for the slots of node `target` with the `length` slots
    /// from `offset` on replaced by the slots of node `source`.
    pub fn write(&mut self, offset: usize, length: usize, source: usize, target: usize) -> (node:
        usize)
        requires
            old(self).wf(),
            old(self).has(source),
            old(self).has(target),
            offset + length <= old(self).len(target),
            old(self).len(target) - length + old(self).len(source) <= usize::MAX,
        ensures
            final(self).wf(),
            final(self).extends(old(self)),
            node == old(self).nodes().len(),
            final(self).nodes() == old(self).nodes().push(
                Node::Write(
                    (old(self).len(target) - length + old(self).len(source)) as usize,
                    offset,
                    length,
                    source,
                    target,
                ),
            ),
            final(self).len(node) == old(self).len(target) - length + old(self).len(source),
            old(self).fresh(source) && old(self).fresh(target) ==> final(self).fresh(node),
            forall|base: Seq<Expr>|
                old(self).takes(source, base.len()) && old(self).takes(target, base.len())
                    ==> #[trigger] final(self).takes(node, base.len()),
            forall|base: Seq<Expr>| #[trigger]
                final(self).slots(node, base) == old(self).slots(target, base).take(offset as int)
                    + old(self).slots(source, base) + old(self).slots(target, base).skip(
                    offset + length,
                ),
            forall|base: Seq<Expr>|
                old(self).ready(source, base) && old(self).ready(target, base)
                    ==> #[trigger] final(self).ready(node, base),
    {
        let ghost before = self.nodes@;
        let count = size_in(&self.nodes, target) - length + size_in(&self.nodes, source);
        proof {
            let after = before.push(Node::Write(count, offset, length, source, target));
            assert(grown(before, after));
            lemma_grown_size(before, after, source as int);
            lemma_grown_size(before, after, target as int);
        }
        let node = self.push(Node::Write(count, offset, length, source, target));
        proof {
            let after = self.nodes@;
            assert(kids(after, node as int) =~= seq![source as int, target as int]);
            assert(kids(after, node as int)[0] == source);
            assert(kids(after, node as int)[1] == target);
            self.lemma_pushed(old(self), node, Seq::empty());
            assert forall|base: Seq<Expr>|
                old(self).ready(source, base) && old(self).ready(
                    target,
                    base,
                ) implies #[trigger] self.ready(node, base) by {
                self.lemma_pushed(old(self), node, base);
            }
            assert forall|base: Seq<Expr>|
                old(self).takes(source, base.len()) && old(self).takes(
                    target,
                    base.len(),
                ) implies #[trigger] self.takes(node, base.len()) by {
                lemma_grown(before, after, source as int, base);
                lemma_grown(before, after, target as int, base);
            }
            assert forall|base: Seq<Expr>| #[trigger]
                self.slots(node, base) == old(self).slots(target, base).take(offset as int) + old(
                    self,
                ).slots(source, base) + old(self).slots(target, base).skip(offset + length) by {
                lemma_grown(before, after, source as int, base);
                lemma_grown(before, after, target as int, base);
            }
        }
        node
    }

    /// Adds a node for what `function` makes of each slot of node `of`,
    /// given the base array, the position of the slot and the slot.
    pub fn map_by_elem(&mut self, function: B, of: usize) -> (node: usize)
        requires
            old(self).wf(),
            old(self).has(of),
            pure_elem(function),
        ensures
            final(self).wf(),
            final(self).extends(old(self)),
            final(self).nodes() == old(self).nodes().push(
                Node::MapByElem(ElemFn::Custom(function), of),
            ),
            node == old(self).nodes().len(),
            final(self).len(node) == old(self).len(of),
            old(self).fresh(of) ==> final(self).fresh(node),
            forall|base: Seq<Expr>|
                old(self).takes(of, base.len()) ==> #[trigger] final(self).takes(node, base.len()),
            forall|base: Seq<Expr>| #[trigger]
                final(self).slots(node, base) == Seq::new(
                    old(self).len(of),
                    |k: int| image_elem(function, base, k as usize, old(self).slots(of, base)[k]),
                ),
            forall|base: Seq<Expr>|
                old(self).ready(of, base) ==> #[trigger] final(self).ready(node, base),
    {
        let ghost before = self.nodes@;
        let node = self.push(Node::MapByElem(ElemFn::Custom(function), of));
        proof {
            let after = self.nodes@;
            assert(kids(after, node as int) =~= seq![of as int]);
            assert(kids(after, node as int)[0] == of);
            lemma_grown_size(before, after, of as int);
            self.lemma_pushed(old(self), node, Seq::empty());
            assert forall|base: Seq<Expr>|
                old(self).ready(of, base) implies #[trigger] self.ready(node, base) by {
                self.lemma_pushed(old(self), node, base);
            }
            assert forall|base: Seq<Expr>|
                old(self).takes(of, base.len()) implies #[trigger] self.takes(node, base.len()) by {
                lemma_grown(before, after, of as int, base);
            }
            assert forall|base: Seq<Expr>| #[trigger]
                self.slots(node, base) == Seq::new(
                    old(self).len(of),
                    |k: int| image_elem(function, base, k as usize, old(self).slots(of, base)[k]),
                ) by {
                lemma_grown(before, after, of as int, base);
                assert(self.slots(node, base) =~= Seq::new(
                    old(self).len(of),
                    |k: int| image_elem(function, base, k as usize, old(self).slots(of, base)[k]),
                ));
            }
        }
        node
    }

    /// Adds a node that reads each slot of node `of`, an array, at the
    /// index that the `count` slots of node `input` from `offset` on give.
    pub fn select(&mut self, of: usize, input: usize, offset: usize, count: usize) -> (node: usize)
        requires
            old(self).wf(),
            old(self).has(of),
            old(self).has(input),
            offset + count <= old(self).len(input),
        ensures
            final(self).wf(),
            final(self).extends(old(self)),
            final(self).nodes() == old(self).nodes().push(
                Node::MapByElem(ElemFn::Select { input, offset, count }, of),
            ),
            node == old(self).nodes().len(),
            final(self).len(node) == old(self).len(of),
            old(self).fresh(of) && old(self).fresh(input) ==> final(self).fresh(node),
            forall|base: Seq<Expr>|
                old(self).takes(of, base.len()) && old(self).takes(input, base.len())
                    ==> #[trigger] final(self).takes(node, base.len()),
            forall|base: Seq<Expr>| #[trigger]
                final(self).slots(node, base) == Seq::new(
                    old(self).len(of),
                    |k: int|
                        select(
                            old(self).slots(of, base)[k],
                            old(self).slots(input, base).subrange(offset as int, offset + count),
                        ),
                ),
            forall|base: Seq<Expr>|
                old(self).ready(of, base) && old(self).ready(input, base)
                    ==> #[trigger] final(self).ready(node, base),
    {
        let ghost before = self.nodes@;
        proof {
            let after = before.push(Node::MapByElem(ElemFn::Select { input, offset, count }, of));
            assert(grown(before, after));
            lemma_grown_size(before, after, input as int);
        }
        let node = self.push(Node::MapByElem(ElemFn::Select { input, offset, count }, of));
        proof {
            let after = self.nodes@;
            assert(kids(after, node as int) =~= seq![of as int, input as int]);
            assert(kids(after, node as int)[0] == of);
            assert(kids(after, node as int)[1] == input);
            lemma_grown_size(before, after, of as int);
            self.lemma_pushed(old(self), node, Seq::empty());
            assert forall|base: Seq<Expr>|
                old(self).ready(of, base) && old(self).ready(
                    input,
                    base,
                ) implies #[trigger] self.ready(node, base) by {
                self.lemma_pushed(old(self), node, base);
            }
            assert forall|base: Seq<Expr>|
                old(self).takes(of, base.len()) && old(self).takes(
                    input,
                    base.len(),
                ) implies #[trigger] self.takes(node, base.len()) by {
                lemma_grown(before, after, of as int, base);
                lemma_grown(before, after, input as int, base);
            }
            assert forall|base: Seq<Expr>| #[trigger]
                self.slots(node, base) == Seq::new(
                    old(self).len(of),
                    |k: int|
                        select(
                            old(self).slots(of, base)[k],
                            old(self).slots(input, base).subrange(offset as int, offset + count),
                        ),
                ) by {
                lemma_grown(before, after, of as int, base);
                lemma_grown(before, after, input as int, base);
                assert(self.slots(node, base) =~= Seq::new(
                    old(self).len(of),
                    |k: int|
                        select(
                            old(self).slots(of, base)[k],
                            old(self).slots(input, base).subrange(offset as int, offset + count),
                        ),
                ));
            }
        }
        node
    }

    /// The number of nodes.
    pub fn count(&self) -> (count: usize)
        ensures
            count == self.nodes().len(),
    {
        self.nodes.len()
    }

    /// Whether a base array of `length` items is long enough for node `id`.
    pub fn fits(&self, id: usize, length: usize) -> (ok: bool)
        requires
            self.has(id),
        ensures
            ok == self.takes(id, length as nat),
    {
        fits_in(&self.nodes, id, length)
    }

    /// The number of slots of node `id`.
    pub fn size(&self, id: usize) -> (count: usize)
        requires
            self.wf(),
            self.has(id),
        ensures
            count == self.len(id),
    {
        size_in(&self.nodes, id)
    }

    /// All slots of node `id` over `base`, computed anew from the slots of
    /// the nodes that it refers to: no cache is read or filled. What `get`
    /// gives for a slot is the slot of this array.
    pub fn evaluate(&self, id: usize, base: &[Expr]) -> (slots: Vec<Expr>)
        requires
            self.wf(),
            self.has(id),
            self.takes(id, base@.len()),
        ensures
            slots@ == self.slots(id, base@),
            slots@.len() == self.len(id),
    {
        proof {
            lemma_eval_len(self.nodes@, id as int, base@);
        }
        evaluate_in(&self.nodes, id, base)
    }

    /// Slot `idx` of node `id` over `base`. Fills the caches that it comes
    /// by and finds empty.
    pub fn get(&mut self, id: usize, base: &[Expr], idx: usize) -> (slot: Expr)
        requires
            old(self).wf(),
            old(self).has(id),
            idx < old(self).len(id),
            old(self).takes(id, base@.len()),
            old(self).ready(id, base@),
        ensures
            final(self).wf(),
            final(self).filled_from(old(self), base@),
            final(self).ready(id, base@),
            old(self).nodes()[id as int] is MapSlice ==> final(self).caches()[id as int] is Some,
            slot == old(self).slots(id, base@)[idx as int],
    {
        let slot = get_in(&self.nodes, &mut self.caches, id, base, idx);
        proof {
            lemma_fills_coherent(self.nodes@, old(self).caches@, self.caches@, base@, id as int);
        }
        slot
    }

    /// The `length` slots of node `id` from `offset` on as they lie in
    /// memory, where they lie there as one run: in the base array, in a
    /// constant, in a filled cache, in one part of a concatenation or on one
    /// side of a written run. `None` where they do not.
    pub fn as_slice<'a>(&'a self, id: usize, base: &'a [Expr], offset: usize, length: usize) -> (found:
        Option<&'a [Expr]>)
        requires
            self.wf(),
            self.has(id),
            offset + length <= self.len(id),
            self.takes(id, base@.len()),
            self.ready(id, base@),
        ensures
            found is Some == contiguous(
                self.nodes(),
                self.caches(),
                id as int,
                offset as int,
                length as int,
            ),
            match found {
                Some(slice) => slice@ == self.slots(id, base@).subrange(
                    offset as int,
                    offset + length,
                ),
                None => true,
            },
    {
        as_slice_in(&self.nodes, &self.caches, id, base, offset, length)
    }

    /// The `length` slots of node `id` from `offset` on: borrowed where
    /// they lie in memory as one run, and computed one by one otherwise.
    pub fn to_slice<'a>(&'a mut self, id: usize, base: &'a [Expr], offset: usize, length: usize) -> (slice:
        BorrowedSlice<'a, Expr>)
        requires
            old(self).wf(),
            old(self).has(id),
            offset + length <= old(self).len(id),
            old(self).takes(id, base@.len()),
            old(self).ready(id, base@),
        ensures
            final(self).wf(),
            final(self).filled_from(old(self), base@),
            final(self).ready(id, base@),
            slice@ == old(self).slots(id, base@).subrange(offset as int, offset + length),
            slice is Borrowed == contiguous(
                old(self).nodes(),
                old(self).caches(),
                id as int,
                offset as int,
                length as int,
            ),
    {
        to_slice_in(&self.nodes, &mut self.caches, id, base, offset, length)
    }

    /// Empties the cache of node `id` and of every node that it reaches.
    /// After that the node may be asked over any base array.
    pub fn clear_cache(&mut self, id: usize)
        requires
            old(self).wf(),
            old(self).has(id),
        ensures
            final(self).wf(),
            final(self).nodes() == old(self).nodes(),
            wiped_from(old(self).nodes(), old(self).caches(), final(self).caches(), id as int),
            final(self).fresh(id),
            forall|base: Seq<Expr>| #[trigger] final(self).ready(id, base),
    {
        clear_cache_in(&self.nodes, &mut self.caches, id);
        proof {
            assert forall|base: Seq<Expr>| #[trigger]
                coherent(self.nodes@, self.caches@, id as int, base) by {
                lemma_cleared_coherent(self.nodes@, self.caches@, id as int, base);
            }
        }
    }
}

} // verus!
