//! Walks over parts that stand under integer keys.
use vstd::prelude::*;
use crate::composite::Composite;
use crate::expr::Expr;
use crate::fold::{
    folds_to, lefts, lemma_counts_add, lemma_counts_repeat, lemma_folds_join, lemma_folds_none,
    lemma_folds_push, lemma_runs_first, lemma_runs_head, lemma_runs_rest, lemma_runs_step,
    rights, runs, take_left, take_right,
};
use crate::getter::{leaf_of, GetElem};
use crate::laws::lemma_pattern_sides;
use crate::layout::{
    lemma_extend_twice, lemma_gather_take, lemma_sort_in_part, lemma_span_ends,
    lemma_span_take, parts_bounded,
};
use crate::shape::{extend, gather, join, join_pattern, repeat, sort_in, span, Shape, Step};
use crate::sort::Sort;

verus! {

/// The keys and shapes of `items`.
pub open spec fn keyed<T: Composite>(items: Seq<(u64, T)>) -> Seq<(int, Shape)> {
    Seq::new(items.len(), |k: int| (items[k].0 as int, items[k].1.shape()))
}

/// The keys and shapes of `items`.
pub open spec fn keyed_refs<T: Composite>(items: Seq<(u64, &T)>) -> Seq<(int, Shape)> {
    Seq::new(items.len(), |k: int| (items[k].0 as int, items[k].1.shape()))
}

/// Parts of type `T` that stand under integer keys, in some order.
pub trait Parts<T: Composite> {
    /// The keys and shapes of the parts, in order.
    spec fn parts(&self) -> Seq<(int, Shape)>;

    /// The number of parts.
    fn count(&self) -> (count: usize)
        ensures
            count == self.parts().len(),
    ;

    /// The key of part `k`.
    fn key(&self, k: usize) -> (key: u64)
        requires
            k < self.parts().len(),
        ensures
            key == self.parts()[k as int].0,
    ;

    /// Part `k`.
    fn part(&self, k: usize) -> (part: &T)
        requires
            k < self.parts().len(),
        ensures
            part.shape() == self.parts()[k as int].1,
    ;
}

/// Parts that are held together with their keys.
impl<T: Composite> Parts<T> for Vec<(u64, T)> {
    open spec fn parts(&self) -> Seq<(int, Shape)> {
        keyed(self@)
    }

    fn count(&self) -> (count: usize) {
        self.len()
    }

    fn key(&self, k: usize) -> (key: u64) {
        self[k].0
    }

    fn part(&self, k: usize) -> (part: &T) {
        &self[k].1
    }
}

/// Parts that are borrowed, each with its key.
impl<'a, T: Composite> Parts<T> for Vec<(u64, &'a T)> {
    open spec fn parts(&self) -> Seq<(int, Shape)> {
        keyed_refs(self@)
    }

    fn count(&self) -> (count: usize) {
        self.len()
    }

    fn key(&self, k: usize) -> (key: u64) {
        self[k].0
    }

    fn part(&self, k: usize) -> (part: &T) {
        self[k].1
    }
}

/// The number of leaves of `items`, each behind `extra` leaves of its own.
pub fn keyed_num_elem<T: Composite, P: Parts<T>>(items: &P, extra: usize) -> (count: usize)
    requires
        span(items.parts(), extra as nat) <= usize::MAX,
        parts_bounded(items.parts()),
    ensures
        count == span(items.parts(), extra as nat),
{
    let items_count = items.count();
    let ghost entries = items.parts();
    let mut count: usize = 0;
    let mut k: usize = 0;
    proof {
        lemma_span_ends(entries, extra as nat);
    }
    while k < items_count
        invariant
            items_count == items.parts().len(),
            k <= items.parts().len(),
            entries == items.parts(),
            count == span(entries.take(k as int), extra as nat),
            span(entries, extra as nat) <= usize::MAX,
            parts_bounded(entries),
        decreases items.parts().len() - k,
    {
        proof {
            lemma_span_take(entries, extra as nat, k as int);
            assert(entries[k as int].1.bounded());
        }
        count = count + extra + items.part(k).num_elem();
        k = k + 1;
    }
    proof {
        lemma_span_ends(entries, extra as nat);
    }
    count
}

/// The sort of leaf `n` of `items`, each behind `extra` boolean leaves.
pub fn keyed_elem_sort<T: Composite, P: Parts<T>>(items: &P, extra: usize, n: usize) -> (sort: Sort)
    requires
        span(items.parts(), extra as nat) <= usize::MAX,
        parts_bounded(items.parts()),
        n < span(items.parts(), extra as nat),
    ensures
        sort == sort_in(items.parts(), extra as nat, n as int),
{
    let items_count = items.count();
    let ghost entries = items.parts();
    let mut before: usize = 0;
    let mut k: usize = 0;
    proof {
        lemma_span_ends(entries, extra as nat);
    }
    while k < items_count
        invariant
            items_count == items.parts().len(),
            k <= items.parts().len(),
            entries == items.parts(),
            before == span(entries.take(k as int), extra as nat),
            before <= n,
            n < span(entries, extra as nat),
            span(entries, extra as nat) <= usize::MAX,
            parts_bounded(entries),
        decreases items.parts().len() - k,
    {
        proof {
            lemma_span_take(entries, extra as nat, k as int);
            assert(entries[k as int].1.bounded());
        }
        let own = items.part(k).num_elem();
        if n - before < extra {
            proof {
                lemma_sort_in_part(entries, extra as nat, k as int, n as int);
            }
            return Sort::Bool;
        }
        if n - before - extra < own {
            proof {
                lemma_sort_in_part(entries, extra as nat, k as int, n as int);
            }
            return items.part(k).elem_sort(n - before - extra);
        }
        before = before + extra + own;
        k = k + 1;
    }
    proof {
        lemma_span_ends(entries, extra as nat);
        assert(false);
    }
    Sort::Bool
}

/// The merge of `left` and `right`, both walked in the order in which they
/// stand.
pub fn keyed_combine<T: Composite, P: Parts<T>>(left: &P, right: &P) -> (merged: Option<
    Vec<(u64, T)>,
>)
    ensures
        match merged {
            Some(items) => join(left.parts(), right.parts(), 0, 0) == Some(keyed(items@)),
            None => join(left.parts(), right.parts(), 0, 0) is None,
        },
{
    let left_count = left.count();
    let right_count = right.count();
    let ghost a = left.parts();
    let ghost b = right.parts();
    let mut items: Vec<(u64, T)> = Vec::new();
    let mut i: usize = 0;
    let mut j: usize = 0;
    proof {
        assert(keyed(items@) =~= Seq::empty());
        match join(a, b, 0, 0) {
            Some(rest) => {
                assert(Seq::<(int, Shape)>::empty() + rest =~= rest);
            },
            None => {},
        }
    }
    while i < left_count || j < right_count
        invariant
            left_count == left.parts().len(),
            right_count == right.parts().len(),
            i <= left.parts().len(),
            j <= right.parts().len(),
            a == left.parts(),
            b == right.parts(),
            join(a, b, 0, 0) == extend(keyed(items@), join(a, b, i as int, j as int)),
        decreases left.parts().len() - i + right.parts().len() - j,
    {
        let ghost before = keyed(items@);
        if j >= right_count || (i < left_count && left.key(i) < right.key(j)) {
            items.push((left.key(i), left.part(i).duplicate()));
            proof {
                assert(keyed(items@) =~= before + seq![a[i as int]]);
                lemma_extend_twice(before, seq![a[i as int]], join(a, b, i + 1, j as int));
            }
            i = i + 1;
        } else if i >= left_count || right.key(j) < left.key(i) {
            items.push((right.key(j), right.part(j).duplicate()));
            proof {
                assert(keyed(items@) =~= before + seq![b[j as int]]);
                lemma_extend_twice(before, seq![b[j as int]], join(a, b, i as int, j + 1));
            }
            j = j + 1;
        } else {
            match left.part(i).combine(&right.part(j)) {
                None => {
                    return None;
                },
                Some(value) => {
                    items.push((left.key(i), value));
                    proof {
                        let entry = (a[i as int].0, value.shape());
                        assert(keyed(items@) =~= before + seq![entry]);
                        lemma_extend_twice(before, seq![entry], join(a, b, i + 1, j + 1));
                    }
                    i = i + 1;
                    j = j + 1;
                },
            }
        }
    }
    proof {
        assert(keyed(items@) + Seq::<(int, Shape)>::empty() =~= keyed(items@));
    }
    Some(items)
}

/// Walks the leaves of `left` and `right` in the order in which their merge
/// lays them out, each part behind `extra` leaves of its own, and makes one
/// call for each leaf.
pub fn keyed_combine_elem<T: Composite, P: Parts<T>, FComb, FL, FR, Acc>(
    left: &P,
    right: &P,
    extra: usize,
    comb: &FComb,
    onlyl: &FL,
    onlyr: &FR,
    acc: Acc,
    offl: &mut usize,
    offr: &mut usize,
    offn: &mut usize,
) -> (res: Acc) where
    FComb: Fn(Acc, usize, usize, usize) -> Acc,
    FL: Fn(Acc, usize, usize) -> Acc,
    FR: Fn(Acc, usize, usize) -> Acc,

    requires
        extra <= 1,
        parts_bounded(left.parts()),
        parts_bounded(right.parts()),
        *old(offl) + lefts(join_pattern(left.parts(), right.parts(), extra as nat, 0, 0))
            <= usize::MAX,
        *old(offr) + rights(join_pattern(left.parts(), right.parts(), extra as nat, 0, 0))
            <= usize::MAX,
        *old(offn) + join_pattern(left.parts(), right.parts(), extra as nat, 0, 0).len()
            <= usize::MAX,
        runs(
            comb,
            onlyl,
            onlyr,
            join_pattern(left.parts(), right.parts(), extra as nat, 0, 0),
            *old(offl) as int,
            *old(offr) as int,
            *old(offn) as int,
            acc,
        ),
    ensures
        *final(offl) == *old(offl) + lefts(
            join_pattern(left.parts(), right.parts(), extra as nat, 0, 0),
        ),
        *final(offr) == *old(offr) + rights(
            join_pattern(left.parts(), right.parts(), extra as nat, 0, 0),
        ),
        *final(offn) == *old(offn) + join_pattern(
            left.parts(),
            right.parts(),
            extra as nat,
            0,
            0,
        ).len(),
        folds_to(
            comb,
            onlyl,
            onlyr,
            join_pattern(left.parts(), right.parts(), extra as nat, 0, 0),
            *old(offl) as int,
            *old(offr) as int,
            *old(offn) as int,
            acc,
            res,
        ),
{
    let left_count = left.count();
    let right_count = right.count();
    let ghost a = left.parts();
    let ghost b = right.parts();
    let ghost e = extra as nat;
    let ghost whole = join_pattern(a, b, e, 0, 0);
    let ghost l0 = *offl as int;
    let ghost r0 = *offr as int;
    let ghost n0 = *offn as int;
    let ghost mut done: Seq<Step> = Seq::empty();
    let mut cacc = acc;
    let mut i: usize = 0;
    let mut j: usize = 0;
    proof {
        assert(done + whole =~= whole);
        lemma_folds_none(comb, onlyl, onlyr, l0, r0, n0, acc);
    }
    while i < left_count || j < right_count
        invariant
            left_count == left.parts().len(),
            right_count == right.parts().len(),
            extra <= 1,
            e == extra as nat,
            i <= left.parts().len(),
            j <= right.parts().len(),
            a == left.parts(),
            b == right.parts(),
            parts_bounded(a),
            parts_bounded(b),
            whole == done + join_pattern(a, b, e, i as int, j as int),
            *offl == l0 + lefts(done),
            *offr == r0 + rights(done),
            *offn == n0 + done.len(),
            l0 + lefts(whole) <= usize::MAX,
            r0 + rights(whole) <= usize::MAX,
            n0 + whole.len() <= usize::MAX,
            runs(
                comb,
                onlyl,
                onlyr,
                join_pattern(a, b, e, i as int, j as int),
                *offl as int,
                *offr as int,
                *offn as int,
                cacc,
            ),
            folds_to(comb, onlyl, onlyr, done, l0, r0, n0, acc, cacc),
        decreases left.parts().len() - i + right.parts().len() - j,
    {
        let ghost rest = join_pattern(a, b, e, i as int, j as int);
        let ghost before = cacc;
        let ghost l = *offl as int;
        let ghost r = *offr as int;
        let ghost n = *offn as int;
        proof {
            lemma_counts_add(done, rest);
        }
        if j >= right_count || (i < left_count && left.key(i) < right.key(j)) {
            let ghost run = repeat(Step::Left, e + a[i as int].1.leaves());
            let ghost next = join_pattern(a, b, e, i + 1, j as int);
            proof {
                assert(rest == run + next);
                lemma_counts_add(run, next);
                lemma_counts_repeat(Step::Left, e + a[i as int].1.leaves());
                assert(a[i as int].1.bounded());
                lemma_runs_head(comb, onlyl, onlyr, run, next, l, r, n, cacc);
            }
            let own = left.part(i).num_elem();
            cacc = take_left(extra + own, comb, onlyl, onlyr, cacc, offl, offr, offn);
            proof {
                lemma_runs_rest(comb, onlyl, onlyr, run, next, l, r, n, before, cacc);
                lemma_folds_join(comb, onlyl, onlyr, done, run, l0, r0, n0, acc, before, cacc);
                lemma_counts_add(done, run);
                assert(whole =~= (done + run) + next);
                done = done + run;
            }
            i = i + 1;
        } else if i >= left_count || right.key(j) < left.key(i) {
            let ghost run = repeat(Step::Right, e + b[j as int].1.leaves());
            let ghost next = join_pattern(a, b, e, i as int, j + 1);
            proof {
                assert(rest == run + next);
                lemma_counts_add(run, next);
                lemma_counts_repeat(Step::Right, e + b[j as int].1.leaves());
                assert(b[j as int].1.bounded());
                lemma_runs_head(comb, onlyl, onlyr, run, next, l, r, n, cacc);
            }
            let own = right.part(j).num_elem();
            cacc = take_right(extra + own, comb, onlyl, onlyr, cacc, offl, offr, offn);
            proof {
                lemma_runs_rest(comb, onlyl, onlyr, run, next, l, r, n, before, cacc);
                lemma_folds_join(comb, onlyl, onlyr, done, run, l0, r0, n0, acc, before, cacc);
                lemma_counts_add(done, run);
                assert(whole =~= (done + run) + next);
                done = done + run;
            }
            j = j + 1;
        } else {
            let ghost selector = repeat(Step::Both, e);
            let ghost inner = a[i as int].1.pattern(b[j as int].1);
            let ghost next = join_pattern(a, b, e, i + 1, j + 1);
            proof {
                assert(rest == selector + inner + next);
                lemma_counts_add(selector + inner, next);
                lemma_counts_add(selector, inner);
                lemma_counts_repeat(Step::Both, e);
                lemma_pattern_sides(a[i as int].1, b[j as int].1);
                assert(a[i as int].1.bounded());
                assert(b[j as int].1.bounded());
            }
            if extra == 1 {
                proof {
                    assert(rest[0] == Step::Both);
                    lemma_runs_first(comb, onlyl, onlyr, rest, l, r, n, cacc);
                }
                cacc = comb(cacc, *offl, *offr, *offn);
                proof {
                    lemma_runs_step(comb, onlyl, onlyr, rest, l, r, n, before, cacc);
                    assert(rest.skip(1) =~= inner + next);
                    lemma_folds_push(
                        comb,
                        onlyl,
                        onlyr,
                        done,
                        Step::Both,
                        l0,
                        r0,
                        n0,
                        acc,
                        before,
                        cacc,
                    );
                    assert(done.push(Step::Both) =~= done + selector);
                }
                *offl = *offl + 1;
                *offr = *offr + 1;
                *offn = *offn + 1;
            } else {
                proof {
                    assert(done + selector =~= done);
                    assert(rest =~= inner + next);
                }
            }
            let ghost middle = cacc;
            proof {
                lemma_counts_add(done, selector);
                lemma_runs_head(
                    comb,
                    onlyl,
                    onlyr,
                    inner,
                    next,
                    *offl as int,
                    *offr as int,
                    *offn as int,
                    middle,
                );
            }
            cacc = left.part(i).combine_elem(&right.part(j), comb, onlyl, onlyr, cacc, offl, offr, offn);
            proof {
                lemma_runs_rest(
                    comb,
                    onlyl,
                    onlyr,
                    inner,
                    next,
                    l + e,
                    r + e,
                    n + e,
                    middle,
                    cacc,
                );
                lemma_folds_join(
                    comb,
                    onlyl,
                    onlyr,
                    done + selector,
                    inner,
                    l0,
                    r0,
                    n0,
                    acc,
                    middle,
                    cacc,
                );
                lemma_counts_add(done + selector, inner);
                assert(whole =~= ((done + selector) + inner) + next);
                done = (done + selector) + inner;
            }
            i = i + 1;
            j = j + 1;
        }
    }
    proof {
        assert(done + Seq::<Step>::empty() =~= done);
    }
    cacc
}

/// Appends to `out` the constraints of `items` laid out one after the other
/// from slot `off` on, and moves `off` past them.
pub fn keyed_invariants<T: Composite, P: Parts<T>, G: GetElem>(
    items: &P,
    leaf: &G,
    off: &mut usize,
    out: &mut Vec<Expr>,
)
    requires
        parts_bounded(items.parts()),
        *old(off) + span(items.parts(), 0) <= usize::MAX,
        forall|n: usize|
            *old(off) <= n < *old(off) + span(items.parts(), 0) ==> #[trigger] leaf.covers(n),
    ensures
        *final(off) == *old(off) + span(items.parts(), 0),
        final(out)@ == old(out)@ + gather(items.parts(), *old(off) as nat, leaf_of(leaf)),
{
    let items_count = items.count();
    let ghost entries = items.parts();
    let ghost from = *off as nat;
    let ghost start = out@;
    let mut k: usize = 0;
    proof {
        lemma_span_ends(entries, 0);
        assert(start + gather(entries.take(0), from, leaf_of(leaf)) =~= start);
    }
    while k < items_count
        invariant
            items_count == items.parts().len(),
            k <= items.parts().len(),
            entries == items.parts(),
            parts_bounded(entries),
            from + span(entries, 0) <= usize::MAX,
            forall|n: usize| from <= n < from + span(entries, 0) ==> #[trigger] leaf.covers(n),
            *off == from + span(entries.take(k as int), 0),
            out@ == start + gather(entries.take(k as int), from, leaf_of(leaf)),
        decreases items.parts().len() - k,
    {
        let ghost before = out@;
        proof {
            lemma_span_take(entries, 0, k as int);
            lemma_gather_take(entries, from, leaf_of(leaf), k as int);
            assert(entries[k as int].1.bounded());
        }
        items.part(k).invariants(leaf, off, out);
        proof {
            assert(out@ =~= start + gather(entries.take(k + 1), from, leaf_of(leaf)));
        }
        k = k + 1;
    }
    proof {
        lemma_span_ends(entries, 0);
    }
}

/// A copy of `items`.
pub fn keyed_duplicate<T: Composite, P: Parts<T>>(items: &P) -> (copy: Vec<(u64, T)>)
    ensures
        keyed(copy@) == items.parts(),
{
    let items_count = items.count();
    let mut copy: Vec<(u64, T)> = Vec::new();
    let mut k: usize = 0;
    while k < items_count
        invariant
            items_count == items.parts().len(),
            k <= items.parts().len(),
            copy.len() == k,
            forall|m: int|
                0 <= m < k ==> copy@[m].0 == items.parts()[m].0 && copy@[m].1.shape()
                    == items.parts()[m].1,
        decreases items.parts().len() - k,
    {
        copy.push((items.key(k), items.part(k).duplicate()));
        k = k + 1;
    }
    proof {
        assert(keyed(copy@) =~= items.parts());
    }
    copy
}

/// Whether `left` and `right` have the same keys and shapes.
pub fn keyed_same<T: Composite, P: Parts<T>>(left: &P, right: &P) -> (same: bool)
    ensures
        same == (left.parts() == right.parts()),
{
    let left_count = left.count();
    let right_count = right.count();
    if left_count != right_count {
        proof {
            assert(left.parts().len() != right.parts().len());
        }
        return false;
    }
    let mut k: usize = 0;
    while k < left_count
        invariant
            left_count == left.parts().len(),
            k <= left.parts().len(),
            left.parts().len() == right.parts().len(),
            forall|m: int| 0 <= m < k ==> left.parts()[m] == right.parts()[m],
        decreases left.parts().len() - k,
    {
        if left.key(k) != right.key(k) || !left.part(k).same_shape(&right.part(k)) {
            proof {
                assert(left.parts()[k as int] != right.parts()[k as int]);
            }
            return false;
        }
        k = k + 1;
    }
    proof {
        assert(left.parts() =~= right.parts());
    }
    true
}

} // verus!
