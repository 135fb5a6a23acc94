//! Operations on a structured value and on the flat array that encodes it.
use vstd::prelude::*;
use crate::array::Array;
use crate::composite::Composite;
use crate::expr::Expr;
use crate::graph::{joined, select, total, ElemFn};
use crate::layout::{lemma_span_ends, lemma_span_take, lemma_two, parts_bounded, two};
use crate::sequence::listed;
use crate::shape::{span, Shape};
use crate::transformation::Transformation;

verus! {

/// A value that is borrowed or owned.
pub enum OptRef<'a, T> {
    Ref(&'a T),
    Owned(T),
}

impl<'a, T> OptRef<'a, T> {
    /// The value.
    pub open spec fn value(self) -> T {
        match self {
            OptRef::Ref(borrowed) => *borrowed,
            OptRef::Owned(owned) => owned,
        }
    }
}

impl<'a, T: Clone> OptRef<'a, T> {
    /// The value, borrowed.
    pub fn as_ref(&'a self) -> (borrowed: &'a T)
        ensures
            *borrowed == self.value(),
    {
        match self {
            OptRef::Ref(borrowed) => borrowed,
            OptRef::Owned(owned) => owned,
        }
    }

    /// The value, owned: the value itself where it was owned, and a clone
    /// of it where it was borrowed.
    pub fn as_obj(self) -> (owned: T)
        ensures
            match self {
                OptRef::Ref(borrowed) => cloned(*borrowed, owned),
                OptRef::Owned(value) => owned == value,
            },
    {
        match self {
            OptRef::Ref(borrowed) => borrowed.clone(),
            OptRef::Owned(owned) => owned,
        }
    }
}

/// An operation that turns a value of type `Src` into one of type `Trg`
/// and, in step with it, the flat array that encodes the one into the flat
/// array that encodes the other.
pub trait Transition<Src: Composite, Trg: Composite> {
    /// Whether the operation can be applied to a value of shape `source`.
    spec fn admits(&self, source: Shape) -> bool;

    /// The shape of what the operation makes of a value of shape `source`.
    spec fn target(&self, source: Shape) -> Shape;

    /// What the operation makes of the flat array `input` that encodes a
    /// value of shape `source`.
    spec fn flat(&self, source: Shape, input: Seq<Expr>) -> Seq<Expr>;

    /// Applies the operation to `value`, whose flat array is node `input`
    /// of `graph`. Gives the new value and a node of `graph` for its flat
    /// array over the same base array.
    fn apply<'a, M: Fn(&[Expr]) -> Vec<Expr>, B: Fn(&[Expr], usize, Expr) -> Expr>(
        &self,
        value: OptRef<'a, Src>,
        graph: &mut Transformation<M, B>,
        input: usize,
    ) -> (result: (OptRef<'a, Trg>, usize))
        requires
            old(graph).wf(),
            old(graph).has(input),
            value.value().shape().bounded(),
            self.admits(value.value().shape()),
            old(graph).len(input) == value.value().shape().leaves(),
        ensures
            final(graph).wf(),
            final(graph).extends(old(graph)),
            final(graph).has(result.1),
            result.0.value().shape() == self.target(value.value().shape()),
            result.0.value().shape().bounded(),
            final(graph).len(result.1) == result.0.value().shape().leaves(),
            old(graph).fresh(input) ==> final(graph).fresh(result.1),
            forall|base: Seq<Expr>|
                old(graph).takes(input, base.len()) ==> #[trigger] final(graph).takes(
                    result.1,
                    base.len(),
                ),
            forall|base: Seq<Expr>|
                old(graph).takes(input, base.len()) ==> #[trigger] final(graph).slots(
                    result.1,
                    base,
                ) == self.flat(value.value().shape(), old(graph).slots(input, base)),
            forall|base: Seq<Expr>|
                old(graph).ready(input, base) ==> #[trigger] final(graph).ready(result.1, base),
    ;
}

/// One operation and then another.
pub struct Chain<Src, Mid, Trg, T1, T2> {
    pub t1: T1,
    pub t2: T2,
    pub phantom: core::marker::PhantomData<(Src, Mid, Trg)>,
}

impl<Src: Composite, Mid: Composite, Trg: Composite, T1: Transition<Src, Mid>, T2: Transition<
    Mid,
    Trg,
>> Transition<Src, Trg> for Chain<Src, Mid, Trg, T1, T2> {
    open spec fn admits(&self, source: Shape) -> bool {
        self.t1.admits(source) && self.t2.admits(self.t1.target(source))
    }

    open spec fn target(&self, source: Shape) -> Shape {
        self.t2.target(self.t1.target(source))
    }

    open spec fn flat(&self, source: Shape, input: Seq<Expr>) -> Seq<Expr> {
        self.t2.flat(self.t1.target(source), self.t1.flat(source, input))
    }

    fn apply<'a, M: Fn(&[Expr]) -> Vec<Expr>, B: Fn(&[Expr], usize, Expr) -> Expr>(
        &self,
        value: OptRef<'a, Src>,
        graph: &mut Transformation<M, B>,
        input: usize,
    ) -> (result: (OptRef<'a, Trg>, usize)) {
        let (middle, node) = self.t1.apply(value, graph, input);
        let ghost between = *graph;
        let result = self.t2.apply(middle, graph, node);
        proof {
            let last = result.1;
            graph.lemma_extends_twice(&between, old(graph));
            assert forall|base: Seq<Expr>|
                old(graph).takes(input, base.len()) implies #[trigger] graph.takes(
                last,
                base.len(),
            ) by {
                assert(between.takes(node, base.len()));
            }
            assert forall|base: Seq<Expr>|
                old(graph).takes(input, base.len()) implies #[trigger] graph.slots(last, base)
                == self.flat(value.value().shape(), old(graph).slots(input, base)) by {
                assert(between.takes(node, base.len()));
                assert(between.slots(node, base) == self.t1.flat(
                    value.value().shape(),
                    old(graph).slots(input, base),
                ));
            }
            assert forall|base: Seq<Expr>|
                old(graph).ready(input, base) implies #[trigger] graph.ready(last, base) by {
                assert(between.ready(node, base));
            }
        }
        result
    }
}

/// The number of leaves of the first `count` items of `items`.
pub fn leaves_before<T: Composite>(items: &Vec<T>, count: usize) -> (leaves: usize)
    requires
        count <= items@.len(),
        items.shape().bounded(),
    ensures
        leaves == span(listed(items@).take(count as int), 0),
        leaves <= span(listed(items@), 0),
{
    let ghost entries = listed(items@);
    let mut leaves: usize = 0;
    let mut k: usize = 0;
    proof {
        lemma_span_ends(entries, 0);
    }
    while k < count
        invariant
            k <= count <= items@.len(),
            entries == listed(items@),
            leaves == span(entries.take(k as int), 0),
            span(entries, 0) <= usize::MAX,
            parts_bounded(entries),
            k > 0 ==> leaves <= span(entries, 0),
        decreases count - k,
    {
        proof {
            lemma_span_take(entries, 0, k as int);
            assert(entries[k as int].1.bounded());
        }
        leaves = leaves + items[k].num_elem();
        k = k + 1;
    }
    leaves
}

/// Takes item `which` out of a sequence.
pub struct GetVecElem {
    pub which: usize,
}

impl<T: Composite> Transition<Vec<T>, T> for GetVecElem {
    open spec fn admits(&self, source: Shape) -> bool {
        source is Record && self.which < source->Record_0.len()
    }

    open spec fn target(&self, source: Shape) -> Shape {
        source->Record_0[self.which as int].1
    }

    open spec fn flat(&self, source: Shape, input: Seq<Expr>) -> Seq<Expr> {
        input.subrange(
            span(source->Record_0.take(self.which as int), 0) as int,
            span(source->Record_0.take(self.which + 1), 0) as int,
        )
    }

    fn apply<'a, M: Fn(&[Expr]) -> Vec<Expr>, B: Fn(&[Expr], usize, Expr) -> Expr>(
        &self,
        value: OptRef<'a, Vec<T>>,
        graph: &mut Transformation<M, B>,
        input: usize,
    ) -> (result: (OptRef<'a, T>, usize))
        ensures
            result.0.value() == value.value()@[self.which as int],
            value is Ref ==> result.0 is Ref,
            final(graph).views(
                old(graph),
                span(listed(value.value()@).take(self.which as int), 0) as usize,
                value.value()@[self.which as int].shape().leaves() as usize,
                input,
                result.1,
            ),
    {
        let ghost entries = listed(value.value()@);
        proof {
            lemma_span_take(entries, 0, self.which as int);
            assert(entries[self.which as int].1.bounded());
        }
        match value {
            OptRef::Ref(items) => {
                let offset = leaves_before(items, self.which);
                let length = items[self.which].num_elem();
                let node = graph.view(offset, length, input);
                (OptRef::Ref(&items[self.which]), node)
            },
            OptRef::Owned(items) => {
                let mut items = items;
                let offset = leaves_before(&items, self.which);
                let length = items[self.which].num_elem();
                let node = graph.view(offset, length, input);
                (OptRef::Owned(items.remove(self.which)), node)
            },
        }
    }
}

/// The flat array of a sequence with item `which` replaced: the slots of
/// the items in front of it, the slots of the new item, which `input` holds
/// behind those of the sequence, and the slots of the items behind it.
pub open spec fn replaced(which: usize, source: Shape, input: Seq<Expr>) -> Seq<Expr> {
    let items = source->Record_0[0].1->Record_0;
    let all = span(items, 0) as int;
    let start = span(items.take(which as int), 0) as int;
    let end = span(items.take(which + 1), 0) as int;
    let new = source->Record_0[1].1.leaves() as int;
    input.subrange(0, start) + input.subrange(all, all + new) + input.subrange(end, all)
}

/// The flat array of what an array holds at an index: each slot of the
/// array, which `input` holds first, read at the slots of the index, which
/// `input` holds behind them.
pub open spec fn selected(source: Shape, input: Seq<Expr>) -> Seq<Expr> {
    let elements = source->Record_0[0].1.leaves();
    let index = source->Record_0[1].1.leaves();
    Seq::new(
        elements,
        |k: int| select(input[k], input.subrange(elements as int, (elements + index) as int)),
    )
}

/// A node for the flat array of `all` slots in which the `gone` slots from
/// `start` on are replaced by the `new` slots that node `input` holds
/// behind them.
pub fn replace_run<M: Fn(&[Expr]) -> Vec<Expr>, B: Fn(&[Expr], usize, Expr) -> Expr>(
    graph: &mut Transformation<M, B>,
    input: usize,
    all: usize,
    start: usize,
    gone: usize,
    new: usize,
) -> (node: usize)
    requires
        old(graph).wf(),
        old(graph).has(input),
        old(graph).len(input) == all + new,
        start + gone <= all,
    ensures
        final(graph).wf(),
        final(graph).extends(old(graph)),
        final(graph).has(node),
        final(graph).len(node) == all - gone + new,
        old(graph).fresh(input) ==> final(graph).fresh(node),
        forall|base: Seq<Expr>|
            old(graph).takes(input, base.len()) ==> #[trigger] final(graph).takes(node, base.len()),
        forall|base: Seq<Expr>|
            old(graph).takes(input, base.len()) ==> #[trigger] final(graph).slots(node, base)
                == old(graph).slots(input, base).subrange(0, start as int) + old(graph).slots(
                input,
                base,
            ).subrange(all as int, all + new) + old(graph).slots(input, base).subrange(
                start + gone,
                all as int,
            ),
        forall|base: Seq<Expr>|
            old(graph).ready(input, base) ==> #[trigger] final(graph).ready(node, base),
{
    let ghost before = *graph;
    let head = graph.view(0, start, input);
    let ghost first = *graph;
    proof {
        first.lemma_extends(&before, input, Seq::empty());
    }
    let middle = graph.view(all, new, input);
    let ghost second = *graph;
    proof {
        second.lemma_extends_twice(&first, &before);
        second.lemma_extends(&before, input, Seq::empty());
    }
    let tail = graph.view(start + gone, all - start - gone, input);
    let ghost third = *graph;
    proof {
        third.lemma_extends_twice(&second, &before);
        third.lemma_extends_twice(&second, &first);
    }
    let mut parts: Vec<usize> = Vec::new();
    parts.push(head);
    parts.push(middle);
    parts.push(tail);
    proof {
        third.lemma_extends(&first, head, Seq::empty());
        third.lemma_extends(&second, middle, Seq::empty());
        assert(total(third.nodes(), parts@, 3) == start + new + (all - start - gone))
            by {
            reveal_with_fuel(total, 4);
        }
        before.lemma_len_bound(input);
    }
    let node = graph.concat(parts.as_slice());
    proof {
        graph.lemma_extends_twice(&third, &before);
        lemma_parts_of_three(&before, &first, &second, &third, graph, input, parts@, node);
        assert forall|base: Seq<Expr>|
            before.takes(input, base.len()) implies #[trigger] graph.slots(node, base)
            == before.slots(input, base).subrange(0, start as int) + before.slots(
            input,
            base,
        ).subrange(all as int, all + new) + before.slots(input, base).subrange(
            start + gone,
            all as int,
        ) by {
            first.lemma_extends(&before, input, base);
            second.lemma_extends(&before, input, base);
            before.lemma_slots_len(input, base);
            assert(first.slots(head, base) == before.slots(input, base).subrange(0, start as int));
            assert(second.slots(middle, base) == before.slots(input, base).subrange(
                all as int,
                all + new,
            ));
            assert(third.slots(tail, base) == before.slots(input, base).subrange(
                start + gone,
                all as int,
            ));
        }
    }
    node
}

/// What three views of one node take and reach, the concatenation of the
/// three takes and reaches.
pub proof fn lemma_parts_of_three<M: Fn(&[Expr]) -> Vec<Expr>, B: Fn(&[Expr], usize, Expr) -> Expr>(
    before: &Transformation<M, B>,
    first: &Transformation<M, B>,
    second: &Transformation<M, B>,
    third: &Transformation<M, B>,
    last: &Transformation<M, B>,
    input: usize,
    parts: Seq<usize>,
    node: usize,
)
    requires
        before.wf(),
        first.wf(),
        second.wf(),
        third.wf(),
        before.has(input),
        first.extends(before),
        second.extends(first),
        third.extends(second),
        parts.len() == 3,
        first.has(parts[0]),
        second.has(parts[1]),
        third.has(parts[2]),
        last.joins(third, parts, node),
        before.fresh(input) ==> first.fresh(parts[0]),
        first.fresh(input) ==> second.fresh(parts[1]),
        second.fresh(input) ==> third.fresh(parts[2]),
        forall|base: Seq<Expr>|
            before.takes(input, base.len()) ==> #[trigger] first.takes(parts[0], base.len()),
        forall|base: Seq<Expr>|
            first.takes(input, base.len()) ==> #[trigger] second.takes(parts[1], base.len()),
        forall|base: Seq<Expr>|
            second.takes(input, base.len()) ==> #[trigger] third.takes(parts[2], base.len()),
        forall|base: Seq<Expr>| before.ready(input, base) ==> #[trigger] first.ready(parts[0], base),
        forall|base: Seq<Expr>| first.ready(input, base) ==> #[trigger] second.ready(parts[1], base),
        forall|base: Seq<Expr>| second.ready(input, base) ==> #[trigger] third.ready(parts[2], base),
    ensures
        before.fresh(input) ==> last.fresh(node),
        forall|base: Seq<Expr>|
            before.takes(input, base.len()) ==> #[trigger] last.takes(node, base.len()),
        forall|base: Seq<Expr>|
            before.takes(input, base.len()) ==> #[trigger] last.slots(node, base) == first.slots(
                parts[0],
                base,
            ) + second.slots(parts[1], base) + third.slots(parts[2], base),
        forall|base: Seq<Expr>| before.ready(input, base) ==> #[trigger] last.ready(node, base),
{
    third.lemma_extends_twice(second, first);
    assert forall|base: Seq<Expr>| before.takes(input, base.len()) implies #[trigger] last.slots(
        node,
        base,
    ) == first.slots(parts[0], base) + second.slots(parts[1], base) + third.slots(
        parts[2],
        base,
    ) by {
        first.lemma_extends(before, input, base);
        second.lemma_extends(first, input, base);
        third.lemma_extends(first, parts[0], base);
        third.lemma_extends(second, parts[1], base);
        assert(first.takes(parts[0], base.len()));
        assert(second.takes(parts[1], base.len()));
        assert(third.takes(parts[2], base.len()));
        assert forall|k: int| 0 <= k < parts.len() implies third.takes(
            #[trigger] parts[k],
            base.len(),
        ) by {
        }
        lemma_three_slots(before, first, second, third, input, parts, base);
    }
    assert forall|base: Seq<Expr>| before.takes(input, base.len()) implies #[trigger] last.takes(
        node,
        base.len(),
    ) by {
        first.lemma_extends(before, input, base);
        second.lemma_extends(first, input, base);
        third.lemma_extends(first, parts[0], base);
        third.lemma_extends(second, parts[1], base);
        assert(first.takes(parts[0], base.len()));
        assert(second.takes(parts[1], base.len()));
        assert(third.takes(parts[2], base.len()));
        assert forall|k: int| 0 <= k < parts.len() implies third.takes(
            #[trigger] parts[k],
            base.len(),
        ) by {
        }
    }
    assert forall|base: Seq<Expr>| before.ready(input, base) implies #[trigger] last.ready(
        node,
        base,
    ) by {
        first.lemma_extends(before, input, base);
        second.lemma_extends(first, input, base);
        third.lemma_extends(first, parts[0], base);
        third.lemma_extends(second, parts[1], base);
        assert(first.ready(parts[0], base));
        assert(second.ready(parts[1], base));
        assert(third.ready(parts[2], base));
        assert forall|k: int| 0 <= k < parts.len() implies third.ready(#[trigger] parts[k], base) by {
        }
    }
    if before.fresh(input) {
        let base = Seq::<Expr>::empty();
        first.lemma_extends(before, input, base);
        second.lemma_extends(first, input, base);
        third.lemma_extends(first, parts[0], base);
        third.lemma_extends(second, parts[1], base);
        assert(first.fresh(parts[0]));
        assert(second.fresh(parts[1]));
        assert(third.fresh(parts[2]));
        assert forall|k: int| 0 <= k < parts.len() implies third.fresh(#[trigger] parts[k]) by {
        }
    }
}

/// The slots of three parts, one after the other, are the slots that each
/// had when it was made.
pub proof fn lemma_three_slots<M: Fn(&[Expr]) -> Vec<Expr>, B: Fn(&[Expr], usize, Expr) -> Expr>(
    before: &Transformation<M, B>,
    first: &Transformation<M, B>,
    second: &Transformation<M, B>,
    third: &Transformation<M, B>,
    input: usize,
    parts: Seq<usize>,
    base: Seq<Expr>,
)
    requires
        first.wf(),
        second.wf(),
        third.wf(),
        second.extends(first),
        third.extends(second),
        parts.len() == 3,
        first.has(parts[0]),
        second.has(parts[1]),
        third.has(parts[2]),
    ensures
        joined(third.nodes(), parts, base, 3) == first.slots(parts[0], base) + second.slots(
            parts[1],
            base,
        ) + third.slots(parts[2], base),
{
    third.lemma_extends_twice(second, first);
    third.lemma_extends(first, parts[0], base);
    third.lemma_extends(second, parts[1], base);
    reveal_with_fuel(joined, 4);
    assert(Seq::<Expr>::empty() + third.slots(parts[0], base) =~= third.slots(parts[0], base));
}

/// Puts a new item in the place of item `which` of a sequence. The value
/// that it is applied to is the sequence and the new item; the flat array
/// holds the slots of the sequence and behind them the slots of the new
/// item.
pub struct SetVecElem {
    pub which: usize,
}

impl<T: Composite> Transition<(Vec<T>, T), Vec<T>> for SetVecElem {
    open spec fn admits(&self, source: Shape) -> bool {
        &&& source is Record
        &&& source->Record_0.len() == 2
        &&& source->Record_0[0].1 is Record
        &&& self.which < source->Record_0[0].1->Record_0.len()
    }

    open spec fn target(&self, source: Shape) -> Shape {
        Shape::Record(
            source->Record_0[0].1->Record_0.update(
                self.which as int,
                (self.which as int, source->Record_0[1].1),
            ),
        )
    }

    open spec fn flat(&self, source: Shape, input: Seq<Expr>) -> Seq<Expr> {
        replaced(self.which, source, input)
    }

    fn apply<'a, M: Fn(&[Expr]) -> Vec<Expr>, B: Fn(&[Expr], usize, Expr) -> Expr>(
        &self,
        value: OptRef<'a, (Vec<T>, T)>,
        graph: &mut Transformation<M, B>,
        input: usize,
    ) -> (result: (OptRef<'a, Vec<T>>, usize))
        ensures
            result.0 is Owned,
            value is Owned ==> result.0.value()@ == value.value().0@.update(
                self.which as int,
                value.value().1,
            ),
    {
        let ghost source = value.value().shape();
        let ghost entries = listed(value.value().0@);
        let ghost fresh = value.value().1.shape();
        let ghost before = *graph;
        proof {
            assert(source->Record_0 == two(Shape::Record(entries), fresh));
            assert(source->Record_0[0].1 == Shape::Record(entries));
            assert(source->Record_0[1].1 == fresh);
            assert(self.which < entries.len());
            lemma_two(Shape::Record(entries), fresh, 0, |n: nat| Expr::Var(0));
            assert(two(Shape::Record(entries), fresh)[0].1.bounded());
            assert(two(Shape::Record(entries), fresh)[1].1.bounded());
            lemma_span_take(entries, 0, self.which as int);
            assert(entries[self.which as int].1.bounded());
        }
        let (items, all, start, gone, new) = match value {
            OptRef::Ref(pair) => {
                let all = pair.0.num_elem();
                let start = leaves_before(&pair.0, self.which);
                let gone = pair.0[self.which].num_elem();
                let new = pair.1.num_elem();
                let mut items = pair.0.duplicate();
                assert(listed(items@).len() == entries.len());
                items.set(self.which, pair.1.duplicate());
                (items, all, start, gone, new)
            },
            OptRef::Owned(pair) => {
                let (mut items, item) = pair;
                let all = items.num_elem();
                let start = leaves_before(&items, self.which);
                let gone = items[self.which].num_elem();
                let new = item.num_elem();
                items.set(self.which, item);
                (items, all, start, gone, new)
            },
        };
        let ghost updated = entries.update(self.which as int, (self.which as int, fresh));
        proof {
            assert(listed(items@) =~= updated) by {
                assert(listed(items@).len() == updated.len());
                assert forall|k: int| 0 <= k < updated.len() implies listed(items@)[k]
                    == updated[k] by {
                    assert(entries[k] == (k, value.value().0@[k].shape()));
                }
            }
            lemma_update_span(entries, self.which as int, fresh);
        }
        let node = replace_run(graph, input, all, start, gone, new);
        proof {
            assert forall|base: Seq<Expr>|
                before.takes(input, base.len()) implies #[trigger] graph.slots(node, base)
                == replaced(self.which, source, before.slots(input, base)) by {
            }
        }
        (OptRef::Owned(items), node)
    }
}

/// Replacing a part changes the leaves by what the new part has more.
pub proof fn lemma_update_span(entries: Seq<(int, Shape)>, which: int, fresh: Shape)
    requires
        0 <= which < entries.len(),
    ensures
        span(entries.update(which, (which, fresh)), 0) + entries[which].1.leaves() == span(
            entries,
            0,
        ) + fresh.leaves(),
        parts_bounded(entries) && fresh.bounded() ==> parts_bounded(
            entries.update(which, (which, fresh)),
        ),
    decreases entries.len(),
{
    let updated = entries.update(which, (which, fresh));
    if which == entries.len() - 1 {
        assert(updated.drop_last() =~= entries.drop_last());
    } else {
        lemma_update_span(entries.drop_last(), which, fresh);
        assert(updated.drop_last() =~= entries.drop_last().update(which, (which, fresh)));
    }
    if parts_bounded(entries) && fresh.bounded() {
        assert forall|k: int| 0 <= k < updated.len() implies (#[trigger] updated[k]).1.bounded() by {
            if k != which {
                assert(entries[k].1.bounded());
            }
        }
    }
}

/// Reads an array at an index. The value that it is applied to is the
/// array and the index, whose shape is the index shape of the array; the
/// flat array holds the slots of the array and behind them the slots of the
/// index.
pub struct GetArrayElem {}

impl<Idx: Composite, T: Composite> Transition<(Array<Idx, T>, Idx), T> for GetArrayElem {
    open spec fn admits(&self, source: Shape) -> bool {
        &&& source is Record
        &&& source->Record_0.len() == 2
        &&& source->Record_0[0].1 is Array
        &&& *source->Record_0[0].1->Array_0 == source->Record_0[1].1
    }

    open spec fn target(&self, source: Shape) -> Shape {
        *source->Record_0[0].1->Array_1
    }

    open spec fn flat(&self, source: Shape, input: Seq<Expr>) -> Seq<Expr> {
        selected(source, input)
    }

    fn apply<'a, M: Fn(&[Expr]) -> Vec<Expr>, B: Fn(&[Expr], usize, Expr) -> Expr>(
        &self,
        value: OptRef<'a, (Array<Idx, T>, Idx)>,
        graph: &mut Transformation<M, B>,
        input: usize,
    ) -> (result: (OptRef<'a, T>, usize))
        ensures
            result.0.value() == value.value().0.element,
            value is Ref ==> result.0 is Ref,
            result.1 == final(graph).nodes().len() - 1,
            final(graph).nodes()[result.1 as int] is MapByElem,
            final(graph).nodes()[result.1 as int]->MapByElem_0 == (ElemFn::<B>::Select {
                input,
                offset: value.value().0.element.shape().leaves() as usize,
                count: value.value().1.shape().leaves() as usize,
            }),
    {
        let ghost source = value.value().shape();
        let ghost array = value.value().0.shape();
        let ghost index = value.value().1.shape();
        let ghost before = *graph;
        proof {
            assert(source->Record_0 == two(array, index));
            assert(source->Record_0[0].1 == array);
            assert(source->Record_0[1].1 == index);
            lemma_two(array, index, 0, |n: nat| Expr::Var(0));
            assert(two(array, index)[0].1.bounded());
            assert(two(array, index)[1].1.bounded());
        }
        let (element, elements, count) = match value {
            OptRef::Ref(pair) => {
                let elements = pair.0.element.num_elem();
                let count = pair.1.num_elem();
                (OptRef::Ref(&pair.0.element), elements, count)
            },
            OptRef::Owned(pair) => {
                let (array, index) = pair;
                let elements = array.element.num_elem();
                let count = index.num_elem();
                (OptRef::Owned(array.element), elements, count)
            },
        };
        let slots = graph.view(0, elements, input);
        let ghost first = *graph;
        proof {
            first.lemma_extends(&before, input, Seq::empty());
        }
        let node = graph.select(slots, input, elements, count);
        proof {
            graph.lemma_extends_twice(&first, &before);
            assert forall|base: Seq<Expr>|
                before.takes(input, base.len()) implies #[trigger] graph.takes(
                node,
                base.len(),
            ) by {
                first.lemma_extends(&before, input, base);
                assert(first.takes(slots, base.len()));
            }
            assert forall|base: Seq<Expr>|
                before.takes(input, base.len()) implies #[trigger] graph.slots(node, base)
                == selected(source, before.slots(input, base)) by {
                first.lemma_extends(&before, input, base);
                assert(first.takes(slots, base.len()));
                assert(first.slots(slots, base) == before.slots(input, base).subrange(
                    0,
                    elements as int,
                ));
                before.lemma_slots_len(input, base);
                assert(graph.slots(node, base) =~= selected(source, before.slots(input, base)));
            }
            assert forall|base: Seq<Expr>|
                before.ready(input, base) implies #[trigger] graph.ready(node, base) by {
                first.lemma_extends(&before, input, base);
                assert(first.ready(slots, base));
            }
            if before.fresh(input) {
                assert(first.fresh(slots));
                assert(first.fresh(input));
            }
        }
        (element, node)
    }
}

} // verus!
