//! Tagged unions.
use vstd::prelude::*;
use crate::composite::Composite;
use crate::expr::{duplicate_all, Expr, Function};
use crate::getter::{leaf_of, GetElem};
use crate::keyed::{
    keyed, keyed_combine, keyed_combine_elem, keyed_duplicate, keyed_elem_sort, keyed_num_elem,
    keyed_same,
};
use crate::laws::{lemma_merge_sorted, lemma_pattern_sides};
use crate::layout::{lemma_gather_take, lemma_span_ends, lemma_span_take, parts_bounded};
use crate::list::List;
use crate::shape::{
    at_least_one, at_most_one, gather_guarded, guarded, implication, selectors, span, Shape,
};
use crate::sort::Sort;

verus! {

/// A tagged union: alternatives under keys, in the order of the keys. In
/// the flat layout each alternative stands behind one boolean selector leaf,
/// which says whether this alternative is the one that holds.
#[derive(Debug)]
pub struct Choice<T> {
    alternatives: Vec<(u64, T)>,
}

/// Puts the items of `out` from position `from` on under `guard`.
pub fn guard_from(out: &mut Vec<Expr>, from: usize, guard: &Expr)
    requires
        from <= old(out)@.len(),
    ensures
        final(out)@ == old(out)@.take(from as int) + guarded(*guard, old(out)@.skip(from as int)),
{
    let ghost start = out@;
    let mut k: usize = from;
    while k < out.len()
        invariant
            from <= k <= out@.len(),
            out@.len() == start.len(),
            forall|m: int| 0 <= m < from ==> out@[m] == start[m],
            forall|m: int| from <= m < k ==> out@[m] == implication(*guard, start[m]),
            forall|m: int| k <= m < out@.len() ==> out@[m] == start[m],
        decreases out.len() - k,
    {
        let body = out[k].duplicate();
        let mut arguments: Vec<Expr> = Vec::new();
        arguments.push(guard.duplicate());
        arguments.push(body);
        proof {
            let pair = arguments@;
            assert(pair.subrange(1, 2) =~= seq![pair[1]]);
            assert(pair.subrange(1, 2).subrange(1, 1) =~= Seq::<Expr>::empty());
            assert(List::of(pair.subrange(1, 2)) == List::Cons(pair[1], Box::new(List::Nil))) by {
                reveal_with_fuel(List::of, 2);
            }
            assert(List::of(pair) == List::Cons(
                pair[0],
                Box::new(List::Cons(pair[1], Box::new(List::Nil))),
            ));
        }
        let wrapped = Expr::app(Function::Implies, arguments);
        out.set(k, wrapped);
        k = k + 1;
    }
    proof {
        assert(out@ =~= start.take(from as int) + guarded(*guard, start.skip(from as int)));
    }
}

impl<T: Composite> Choice<T> {
    /// The keys and the alternatives, in order.
    pub closed spec fn view(&self) -> Seq<(u64, T)> {
        self.alternatives@
    }

    /// The union without alternatives.
    pub fn new() -> (choice: Choice<T>)
        ensures
            choice@ == Seq::<(u64, T)>::empty(),
            choice.shape().sorted(),
    {
        let choice = Choice { alternatives: Vec::new() };
        assert(keyed(choice@) =~= Seq::empty());
        choice
    }

    /// The number of alternatives.
    pub fn len(&self) -> (count: usize)
        ensures
            count == self@.len(),
    {
        self.alternatives.len()
    }

    /// The key of alternative `k`.
    pub fn key(&self, k: usize) -> (key: u64)
        requires
            k < self@.len(),
        ensures
            key == self@[k as int].0,
    {
        self.alternatives[k].0
    }

    /// Alternative `k`.
    pub fn alternative(&self, k: usize) -> (alternative: &T)
        requires
            k < self@.len(),
        ensures
            *alternative == self@[k as int].1,
    {
        &self.alternatives[k].1
    }

    /// Adds `alternative` under `key` behind the alternatives that are
    /// there, where `key` is greater than all their keys, and says whether
    /// it did.
    pub fn add(&mut self, key: u64, alternative: T) -> (added: bool)
        ensures
            added == (old(self)@.len() == 0 || old(self)@.last().0 < key),
            added ==> final(self)@ == old(self)@.push((key, alternative)),
            !added ==> final(self)@ == old(self)@,
            old(self).shape().sorted() && alternative.shape().sorted() ==> final(self).shape().sorted(),
    {
        let count = self.alternatives.len();
        if count == 0 || self.alternatives[count - 1].0 < key {
            let ghost before = keyed(self.alternatives@);
            self.alternatives.push((key, alternative));
            proof {
                let after = keyed(self.alternatives@);
                assert(after =~= before.push((key as int, alternative.shape())));
                if old(self).shape().sorted() && alternative.shape().sorted() {
                    assert forall|a: int, b: int| 0 <= a < b < after.len() implies after[a].0
                        < after[b].0 by {
                        if b == count {
                            if a < count - 1 {
                                assert(before[a].0 < before[count - 1].0);
                            }
                        } else {
                            assert(before[a].0 < before[b].0);
                        }
                    }
                    assert forall|k: int| 0 <= k < after.len() implies (#[trigger] after[k]).1.sorted() by {
                        if k < count {
                            assert(before[k].1.sorted());
                        }
                    }
                }
            }
            true
        } else {
            false
        }
    }
}

impl<T: Composite> Composite for Choice<T> {
    open spec fn shape(&self) -> Shape {
        Shape::Choice(keyed(self@))
    }

    fn num_elem(&self) -> (count: usize) {
        keyed_num_elem(&self.alternatives, 1)
    }

    fn elem_sort(&self, n: usize) -> (sort: Sort) {
        keyed_elem_sort(&self.alternatives, 1, n)
    }

    fn combine(&self, other: &Self) -> (merged: Option<Self>) {
        proof {
            if self.shape().sorted() && other.shape().sorted() && self.shape().merge(
                other.shape(),
            ) is Some {
                lemma_merge_sorted(self.shape(), other.shape());
            }
        }
        match keyed_combine(&self.alternatives, &other.alternatives) {
            Some(alternatives) => Some(Choice { alternatives }),
            None => None,
        }
    }

    fn combine_elem<FComb, FL, FR, Acc>(
        &self,
        other: &Self,
        comb: &FComb,
        onlyl: &FL,
        onlyr: &FR,
        acc: Acc,
        offl: &mut usize,
        offr: &mut usize,
        offn: &mut usize,
    ) -> (res: Acc) where
        FComb: Fn(Acc, usize, usize, usize) -> Acc,
        FL: Fn(Acc, usize, usize) -> Acc,
        FR: Fn(Acc, usize, usize) -> Acc,
     {
        proof {
            lemma_pattern_sides(self.shape(), other.shape());
        }
        keyed_combine_elem(
            &self.alternatives,
            &other.alternatives,
            1,
            comb,
            onlyl,
            onlyr,
            acc,
            offl,
            offr,
            offn,
        )
    }

    fn invariants<G: GetElem>(&self, leaf: &G, off: &mut usize, out: &mut Vec<Expr>) {
        let ghost entries = keyed(self@);
        let ghost from = *off as nat;
        let ghost start = out@;
        let ghost slots = leaf_of(leaf);
        let mut chosen: Vec<Expr> = Vec::new();
        let mut k: usize = 0;
        proof {
            lemma_span_ends(entries, 1);
            assert(start + gather_guarded(entries.take(0), from, slots) =~= start);
            assert(chosen@ =~= selectors(entries, from, slots).take(0));
        }
        while k < self.alternatives.len()
            invariant
                k <= self.alternatives.len(),
                entries == keyed(self.alternatives@),
                slots == leaf_of(leaf),
                parts_bounded(entries),
                from + span(entries, 1) <= usize::MAX,
                forall|n: usize| from <= n < from + span(entries, 1) ==> #[trigger] leaf.covers(n),
                *off == from + span(entries.take(k as int), 1),
                out@ == start + gather_guarded(entries.take(k as int), from, slots),
                chosen@ == selectors(entries, from, slots).take(k as int),
            decreases self.alternatives.len() - k,
        {
            let ghost before = out@;
            proof {
                lemma_span_take(entries, 1, k as int);
                lemma_gather_take(entries, from, slots, k as int);
                assert(entries[k as int].1.bounded());
            }
            let selector = leaf.get_elem(*off);
            *off = *off + 1;
            let position = out.len();
            self.alternatives[k].1.invariants(leaf, off, out);
            let ghost own = entries[k as int].1.constraints(
                from + span(entries.take(k as int), 1) + 1,
                slots,
            );
            proof {
                assert(out@ == before + own);
                assert(out@.take(position as int) =~= before);
                assert(out@.skip(position as int) =~= own);
            }
            guard_from(out, position, &selector);
            chosen.push(selector);
            proof {
                assert(out@ =~= start + gather_guarded(entries.take(k + 1), from, slots));
                assert(chosen@ =~= selectors(entries, from, slots).take(k + 1));
            }
            k = k + 1;
        }
        proof {
            lemma_span_ends(entries, 1);
            assert(chosen@ =~= selectors(entries, from, slots));
        }
        let ghost guarded_part = out@;
        let at_most = Expr::app(Function::AtMost(1), duplicate_all(&chosen));
        let at_least = Expr::app(Function::AtLeast(1), chosen);
        out.push(at_most);
        out.push(at_least);
        proof {
            assert(out@ =~= start + (gather_guarded(entries, from, slots) + seq![
                at_most_one(selectors(entries, from, slots)),
                at_least_one(selectors(entries, from, slots)),
            ]));
        }
    }

    fn duplicate(&self) -> (copy: Self) {
        Choice { alternatives: keyed_duplicate(&self.alternatives) }
    }

    fn same_shape(&self, other: &Self) -> (same: bool) {
        keyed_same(&self.alternatives, &other.alternatives)
    }
}

} // verus!
