//! What it means to run three leaf callbacks along a sequence of steps.
use vstd::prelude::*;
use crate::shape::{repeat, Step};

verus! {

/// The number of steps of `steps` that take a leaf of the left value.
pub open spec fn lefts(steps: Seq<Step>) -> nat
    decreases steps.len(),
{
    if steps.len() == 0 {
        0
    } else {
        lefts(steps.drop_last()) + if steps.last() is Right {
            0nat
        } else {
            1nat
        }
    }
}

/// The number of steps of `steps` that take a leaf of the right value.
pub open spec fn rights(steps: Seq<Step>) -> nat
    decreases steps.len(),
{
    if steps.len() == 0 {
        0
    } else {
        rights(steps.drop_last()) + if steps.last() is Left {
            0nat
        } else {
            1nat
        }
    }
}

/// One call of the callback that `step` asks for, at the slots `l`, `r` and
/// `n`, may turn the accumulator `before` into `after`.
pub open spec fn step_to<Acc, FComb, FL, FR>(
    comb: &FComb,
    onlyl: &FL,
    onlyr: &FR,
    step: Step,
    l: int,
    r: int,
    n: int,
    before: Acc,
    after: Acc,
) -> bool where
    FComb: Fn(Acc, usize, usize, usize) -> Acc,
    FL: Fn(Acc, usize, usize) -> Acc,
    FR: Fn(Acc, usize, usize) -> Acc,
 {
    match step {
        Step::Both => comb.ensures((before, l as usize, r as usize, n as usize), after),
        Step::Left => onlyl.ensures((before, l as usize, n as usize), after),
        Step::Right => onlyr.ensures((before, r as usize, n as usize), after),
    }
}

/// Calling the callbacks along `steps`, one call for each step, with the
/// cursors starting at `l0`, `r0` and `n0` and each cursor moving on by one
/// with every leaf taken from its side, may turn the accumulator `start`
/// into `end`.
#[verifier::opaque]
pub open spec fn folds_to<Acc, FComb, FL, FR>(
    comb: &FComb,
    onlyl: &FL,
    onlyr: &FR,
    steps: Seq<Step>,
    l0: int,
    r0: int,
    n0: int,
    start: Acc,
    end: Acc,
) -> bool where
    FComb: Fn(Acc, usize, usize, usize) -> Acc,
    FL: Fn(Acc, usize, usize) -> Acc,
    FR: Fn(Acc, usize, usize) -> Acc,

    decreases steps.len(),
{
    if steps.len() == 0 {
        end == start
    } else {
        exists|mid: Acc|
            folds_to(comb, onlyl, onlyr, steps.drop_last(), l0, r0, n0, start, mid)
                && #[trigger] step_to(
                comb,
                onlyl,
                onlyr,
                steps.last(),
                l0 + lefts(steps.drop_last()),
                r0 + rights(steps.drop_last()),
                n0 + steps.len() - 1,
                mid,
                end,
            )
    }
}

/// The callback that `step` asks for may be called at the slots `l`, `r`
/// and `n` with the accumulator `acc`.
pub open spec fn step_ok<Acc, FComb, FL, FR>(
    comb: &FComb,
    onlyl: &FL,
    onlyr: &FR,
    step: Step,
    l: int,
    r: int,
    n: int,
    acc: Acc,
) -> bool where
    FComb: Fn(Acc, usize, usize, usize) -> Acc,
    FL: Fn(Acc, usize, usize) -> Acc,
    FR: Fn(Acc, usize, usize) -> Acc,
 {
    match step {
        Step::Both => comb.requires((acc, l as usize, r as usize, n as usize)),
        Step::Left => onlyl.requires((acc, l as usize, n as usize)),
        Step::Right => onlyr.requires((acc, r as usize, n as usize)),
    }
}

/// The callbacks can be called along `steps` from the accumulator `start`
/// on, with the cursors starting at `l0`, `r0` and `n0`: whatever
/// accumulator the calls for the steps in front of a step may give, the
/// callback that the step asks for may be called with it.
#[verifier::opaque]
pub open spec fn runs<Acc, FComb, FL, FR>(
    comb: &FComb,
    onlyl: &FL,
    onlyr: &FR,
    steps: Seq<Step>,
    l0: int,
    r0: int,
    n0: int,
    start: Acc,
) -> bool where
    FComb: Fn(Acc, usize, usize, usize) -> Acc,
    FL: Fn(Acc, usize, usize) -> Acc,
    FR: Fn(Acc, usize, usize) -> Acc,
 {
    forall|k: int, mid: Acc|
        0 <= k < steps.len() && #[trigger] folds_to(
            comb,
            onlyl,
            onlyr,
            steps.take(k),
            l0,
            r0,
            n0,
            start,
            mid,
        ) ==> step_ok(
            comb,
            onlyl,
            onlyr,
            steps[k],
            l0 + lefts(steps.take(k)),
            r0 + rights(steps.take(k)),
            n0 + k,
            mid,
        )
}

/// The counts of a sequence of steps add up over its parts.
pub proof fn lemma_counts_add(first: Seq<Step>, second: Seq<Step>)
    ensures
        lefts(first + second) == lefts(first) + lefts(second),
        rights(first + second) == rights(first) + rights(second),
    decreases second.len(),
{
    if second.len() == 0 {
        assert(first + second =~= first);
    } else {
        lemma_counts_add(first, second.drop_last());
        assert((first + second).drop_last() =~= first + second.drop_last());
    }
}

/// Running along `first` and then along `second` is running along both.
pub proof fn lemma_folds_join<Acc, FComb, FL, FR>(
    comb: &FComb,
    onlyl: &FL,
    onlyr: &FR,
    first: Seq<Step>,
    second: Seq<Step>,
    l0: int,
    r0: int,
    n0: int,
    start: Acc,
    mid: Acc,
    end: Acc,
) where
    FComb: Fn(Acc, usize, usize, usize) -> Acc,
    FL: Fn(Acc, usize, usize) -> Acc,
    FR: Fn(Acc, usize, usize) -> Acc,

    requires
        folds_to(comb, onlyl, onlyr, first, l0, r0, n0, start, mid),
        folds_to(
            comb,
            onlyl,
            onlyr,
            second,
            l0 + lefts(first),
            r0 + rights(first),
            n0 + first.len(),
            mid,
            end,
        ),
    ensures
        folds_to(comb, onlyl, onlyr, first + second, l0, r0, n0, start, end),
    decreases second.len(),
{
    reveal(folds_to);
    if second.len() == 0 {
        assert(first + second =~= first);
        assert(lefts(second) == 0 && rights(second) == 0);
    } else {
        let l1 = l0 + lefts(first);
        let r1 = r0 + rights(first);
        let n1 = n0 + first.len();
        let inner = choose|inner: Acc|
            folds_to(comb, onlyl, onlyr, second.drop_last(), l1, r1, n1, mid, inner)
                && #[trigger] step_to(
                comb,
                onlyl,
                onlyr,
                second.last(),
                l1 + lefts(second.drop_last()),
                r1 + rights(second.drop_last()),
                n1 + second.len() - 1,
                inner,
                end,
            );
        lemma_folds_join(comb, onlyl, onlyr, first, second.drop_last(), l0, r0, n0, start, mid, inner);
        lemma_counts_add(first, second.drop_last());
        let whole = first + second;
        assert(whole.drop_last() =~= first + second.drop_last());
        assert(whole.last() == second.last());
        assert(step_to(
            comb,
            onlyl,
            onlyr,
            whole.last(),
            l0 + lefts(whole.drop_last()),
            r0 + rights(whole.drop_last()),
            n0 + whole.len() - 1,
            inner,
            end,
        ));
    }
}

/// What running along steps comes to: along no steps the accumulator stays
/// as it is, and along more the last call is made on what running along
/// the steps in front of the last has given.
pub proof fn lemma_folds_last<Acc, FComb, FL, FR>(
    comb: &FComb,
    onlyl: &FL,
    onlyr: &FR,
    steps: Seq<Step>,
    l0: int,
    r0: int,
    n0: int,
    start: Acc,
    end: Acc,
) where
    FComb: Fn(Acc, usize, usize, usize) -> Acc,
    FL: Fn(Acc, usize, usize) -> Acc,
    FR: Fn(Acc, usize, usize) -> Acc,

    requires
        folds_to(comb, onlyl, onlyr, steps, l0, r0, n0, start, end),
    ensures
        steps.len() == 0 ==> end == start,
        steps.len() > 0 ==> exists|mid: Acc|
            folds_to(comb, onlyl, onlyr, steps.drop_last(), l0, r0, n0, start, mid)
                && #[trigger] step_to(
                comb,
                onlyl,
                onlyr,
                steps.last(),
                l0 + lefts(steps.drop_last()),
                r0 + rights(steps.drop_last()),
                n0 + steps.len() - 1,
                mid,
                end,
            ),
{
    reveal(folds_to);
}

/// Running along `steps` and then making the call that `step` asks for is
/// running along `steps` with `step` at its end.
pub proof fn lemma_folds_push<Acc, FComb, FL, FR>(
    comb: &FComb,
    onlyl: &FL,
    onlyr: &FR,
    steps: Seq<Step>,
    step: Step,
    l0: int,
    r0: int,
    n0: int,
    start: Acc,
    mid: Acc,
    end: Acc,
) where
    FComb: Fn(Acc, usize, usize, usize) -> Acc,
    FL: Fn(Acc, usize, usize) -> Acc,
    FR: Fn(Acc, usize, usize) -> Acc,

    requires
        folds_to(comb, onlyl, onlyr, steps, l0, r0, n0, start, mid),
        step_to(
            comb,
            onlyl,
            onlyr,
            step,
            l0 + lefts(steps),
            r0 + rights(steps),
            n0 + steps.len(),
            mid,
            end,
        ),
    ensures
        folds_to(comb, onlyl, onlyr, steps.push(step), l0, r0, n0, start, end),
        lefts(steps.push(step)) == lefts(steps) + if step is Right {
            0nat
        } else {
            1nat
        },
        rights(steps.push(step)) == rights(steps) + if step is Left {
            0nat
        } else {
            1nat
        },
{
    reveal(folds_to);
    let whole = steps.push(step);
    assert(whole.drop_last() =~= steps);
    assert(whole.last() == step);
    assert(folds_to(comb, onlyl, onlyr, whole.drop_last(), l0, r0, n0, start, mid));
    assert(step_to(
        comb,
        onlyl,
        onlyr,
        whole.last(),
        l0 + lefts(whole.drop_last()),
        r0 + rights(whole.drop_last()),
        n0 + whole.len() - 1,
        mid,
        end,
    ));
}

/// Running along no steps leaves the accumulator as it is.
pub proof fn lemma_folds_none<Acc, FComb, FL, FR>(
    comb: &FComb,
    onlyl: &FL,
    onlyr: &FR,
    l0: int,
    r0: int,
    n0: int,
    acc: Acc,
) where
    FComb: Fn(Acc, usize, usize, usize) -> Acc,
    FL: Fn(Acc, usize, usize) -> Acc,
    FR: Fn(Acc, usize, usize) -> Acc,

    ensures
        folds_to(comb, onlyl, onlyr, Seq::empty(), l0, r0, n0, acc, acc),
        lefts(Seq::empty()) == 0,
        rights(Seq::empty()) == 0,
{
    reveal(folds_to);
}

/// Callbacks that can be called along steps can be called for the first
/// of them.
pub proof fn lemma_runs_first<Acc, FComb, FL, FR>(
    comb: &FComb,
    onlyl: &FL,
    onlyr: &FR,
    steps: Seq<Step>,
    l0: int,
    r0: int,
    n0: int,
    start: Acc,
) where
    FComb: Fn(Acc, usize, usize, usize) -> Acc,
    FL: Fn(Acc, usize, usize) -> Acc,
    FR: Fn(Acc, usize, usize) -> Acc,

    requires
        runs(comb, onlyl, onlyr, steps, l0, r0, n0, start),
        steps.len() > 0,
    ensures
        step_ok(comb, onlyl, onlyr, steps[0], l0, r0, n0, start),
{
    reveal(runs);
    lemma_folds_none(comb, onlyl, onlyr, l0, r0, n0, start);
    assert(steps.take(0) =~= Seq::<Step>::empty());
    assert(folds_to(comb, onlyl, onlyr, steps.take(0), l0, r0, n0, start, start));
}

/// Callbacks that can be called along steps can be called along the first
/// of them.
pub proof fn lemma_runs_head<Acc, FComb, FL, FR>(
    comb: &FComb,
    onlyl: &FL,
    onlyr: &FR,
    first: Seq<Step>,
    second: Seq<Step>,
    l0: int,
    r0: int,
    n0: int,
    start: Acc,
) where
    FComb: Fn(Acc, usize, usize, usize) -> Acc,
    FL: Fn(Acc, usize, usize) -> Acc,
    FR: Fn(Acc, usize, usize) -> Acc,

    requires
        runs(comb, onlyl, onlyr, first + second, l0, r0, n0, start),
    ensures
        runs(comb, onlyl, onlyr, first, l0, r0, n0, start),
{
    reveal(runs);
    let whole = first + second;
    assert forall|k: int, mid: Acc|
        0 <= k < first.len() && #[trigger] folds_to(
            comb,
            onlyl,
            onlyr,
            first.take(k),
            l0,
            r0,
            n0,
            start,
            mid,
        ) implies step_ok(
        comb,
        onlyl,
        onlyr,
        first[k],
        l0 + lefts(first.take(k)),
        r0 + rights(first.take(k)),
        n0 + k,
        mid,
    ) by {
        assert(whole.take(k) =~= first.take(k));
        assert(whole[k] == first[k]);
        assert(folds_to(comb, onlyl, onlyr, whole.take(k), l0, r0, n0, start, mid));
    }
}

/// Callbacks that can be called along steps can be called along the rest
/// of them from where the calls along the first of them have led.
pub proof fn lemma_runs_rest<Acc, FComb, FL, FR>(
    comb: &FComb,
    onlyl: &FL,
    onlyr: &FR,
    first: Seq<Step>,
    second: Seq<Step>,
    l0: int,
    r0: int,
    n0: int,
    start: Acc,
    mid: Acc,
) where
    FComb: Fn(Acc, usize, usize, usize) -> Acc,
    FL: Fn(Acc, usize, usize) -> Acc,
    FR: Fn(Acc, usize, usize) -> Acc,

    requires
        runs(comb, onlyl, onlyr, first + second, l0, r0, n0, start),
        folds_to(comb, onlyl, onlyr, first, l0, r0, n0, start, mid),
    ensures
        runs(
            comb,
            onlyl,
            onlyr,
            second,
            l0 + lefts(first),
            r0 + rights(first),
            n0 + first.len(),
            mid,
        ),
{
    reveal(runs);
    let whole = first + second;
    let l1 = l0 + lefts(first);
    let r1 = r0 + rights(first);
    let n1 = n0 + first.len();
    assert forall|k: int, end: Acc|
        0 <= k < second.len() && #[trigger] folds_to(
            comb,
            onlyl,
            onlyr,
            second.take(k),
            l1,
            r1,
            n1,
            mid,
            end,
        ) implies step_ok(
        comb,
        onlyl,
        onlyr,
        second[k],
        l1 + lefts(second.take(k)),
        r1 + rights(second.take(k)),
        n1 + k,
        end,
    ) by {
        lemma_folds_join(comb, onlyl, onlyr, first, second.take(k), l0, r0, n0, start, mid, end);
        lemma_counts_add(first, second.take(k));
        assert(whole.take(first.len() + k) =~= first + second.take(k));
        assert(whole[first.len() + k] == second[k]);
        assert(folds_to(
            comb,
            onlyl,
            onlyr,
            whole.take(first.len() + k),
            l0,
            r0,
            n0,
            start,
            end,
        ));
    }
}

/// Callbacks that can be called along steps can be called along the steps
/// behind the first from where the call for the first has led.
pub proof fn lemma_runs_step<Acc, FComb, FL, FR>(
    comb: &FComb,
    onlyl: &FL,
    onlyr: &FR,
    steps: Seq<Step>,
    l0: int,
    r0: int,
    n0: int,
    start: Acc,
    next: Acc,
) where
    FComb: Fn(Acc, usize, usize, usize) -> Acc,
    FL: Fn(Acc, usize, usize) -> Acc,
    FR: Fn(Acc, usize, usize) -> Acc,

    requires
        runs(comb, onlyl, onlyr, steps, l0, r0, n0, start),
        steps.len() > 0,
        step_to(comb, onlyl, onlyr, steps[0], l0, r0, n0, start, next),
    ensures
        folds_to(comb, onlyl, onlyr, seq![steps[0]], l0, r0, n0, start, next),
        lefts(seq![steps[0]]) == if steps[0] is Right {
            0nat
        } else {
            1nat
        },
        rights(seq![steps[0]]) == if steps[0] is Left {
            0nat
        } else {
            1nat
        },
        runs(
            comb,
            onlyl,
            onlyr,
            steps.skip(1),
            l0 + lefts(seq![steps[0]]),
            r0 + rights(seq![steps[0]]),
            n0 + 1,
            next,
        ),
{
    let head = seq![steps[0]];
    lemma_folds_none(comb, onlyl, onlyr, l0, r0, n0, start);
    lemma_folds_push(comb, onlyl, onlyr, Seq::empty(), steps[0], l0, r0, n0, start, start, next);
    assert(Seq::<Step>::empty().push(steps[0]) =~= head);
    assert(head + steps.skip(1) =~= steps);
    lemma_runs_rest(comb, onlyl, onlyr, head, steps.skip(1), l0, r0, n0, start, next);
}

/// The callbacks may be called with every accumulator on the left slots
/// from `l0` up to `l1`, the right slots from `r0` up to `r1` and the merged
/// slots from `n0` up to `n1`.
pub open spec fn accepts<Acc, FComb, FL, FR>(
    comb: &FComb,
    onlyl: &FL,
    onlyr: &FR,
    l0: int,
    l1: int,
    r0: int,
    r1: int,
    n0: int,
    n1: int,
) -> bool where
    FComb: Fn(Acc, usize, usize, usize) -> Acc,
    FL: Fn(Acc, usize, usize) -> Acc,
    FR: Fn(Acc, usize, usize) -> Acc,
 {
    &&& forall|acc: Acc, l: usize, r: usize, n: usize|
        l0 <= l < l1 && r0 <= r < r1 && n0 <= n < n1 ==> #[trigger] comb.requires((acc, l, r, n))
    &&& forall|acc: Acc, l: usize, n: usize|
        l0 <= l < l1 && n0 <= n < n1 ==> #[trigger] onlyl.requires((acc, l, n))
    &&& forall|acc: Acc, r: usize, n: usize|
        r0 <= r < r1 && n0 <= n < n1 ==> #[trigger] onlyr.requires((acc, r, n))
}

/// The first steps of a walk take no more leaves than the walk, and less
/// on the side that the step behind them takes a leaf from.
pub proof fn lemma_counts_take(steps: Seq<Step>, k: int)
    requires
        0 <= k < steps.len(),
    ensures
        lefts(steps.take(k)) + (if steps[k] is Right {
            0nat
        } else {
            1nat
        }) <= lefts(steps),
        rights(steps.take(k)) + (if steps[k] is Left {
            0nat
        } else {
            1nat
        }) <= rights(steps),
{
    lemma_counts_add(steps.take(k + 1), steps.skip(k + 1));
    assert(steps.take(k + 1) + steps.skip(k + 1) =~= steps);
    assert(steps.take(k + 1).drop_last() =~= steps.take(k));
    assert(steps.take(k + 1).last() == steps[k]);
}

/// Callbacks that may be called with every accumulator on all slots that a
/// walk comes by can be called along the walk, from every accumulator on.
pub proof fn lemma_accepts_runs<Acc, FComb, FL, FR>(
    comb: &FComb,
    onlyl: &FL,
    onlyr: &FR,
    steps: Seq<Step>,
    l0: int,
    r0: int,
    n0: int,
    start: Acc,
) where
    FComb: Fn(Acc, usize, usize, usize) -> Acc,
    FL: Fn(Acc, usize, usize) -> Acc,
    FR: Fn(Acc, usize, usize) -> Acc,

    requires
        0 <= l0,
        0 <= r0,
        0 <= n0,
        l0 + lefts(steps) <= usize::MAX,
        r0 + rights(steps) <= usize::MAX,
        n0 + steps.len() <= usize::MAX,
        accepts(
            comb,
            onlyl,
            onlyr,
            l0,
            l0 + lefts(steps),
            r0,
            r0 + rights(steps),
            n0,
            n0 + steps.len(),
        ),
    ensures
        runs(comb, onlyl, onlyr, steps, l0, r0, n0, start),
{
    reveal(runs);
    assert forall|k: int, mid: Acc|
        0 <= k < steps.len() && #[trigger] folds_to(
            comb,
            onlyl,
            onlyr,
            steps.take(k),
            l0,
            r0,
            n0,
            start,
            mid,
        ) implies step_ok(
        comb,
        onlyl,
        onlyr,
        steps[k],
        l0 + lefts(steps.take(k)),
        r0 + rights(steps.take(k)),
        n0 + k,
        mid,
    ) by {
        lemma_counts_take(steps, k);
        let l = (l0 + lefts(steps.take(k))) as usize;
        let r = (r0 + rights(steps.take(k))) as usize;
        let n = (n0 + k) as usize;
        match steps[k] {
            Step::Both => {
                assert(comb.requires((mid, l, r, n)));
            },
            Step::Left => {
                assert(onlyl.requires((mid, l, n)));
            },
            Step::Right => {
                assert(onlyr.requires((mid, r, n)));
            },
        }
    }
}

/// What a run of one step counts.
pub proof fn lemma_counts_repeat(step: Step, count: nat)
    ensures
        repeat(step, count).len() == count,
        lefts(repeat(step, count)) == if step is Right {
            0nat
        } else {
            count
        },
        rights(repeat(step, count)) == if step is Left {
            0nat
        } else {
            count
        },
    decreases count,
{
    if count > 0 {
        lemma_counts_repeat(step, (count - 1) as nat);
        assert(repeat(step, count).drop_last() =~= repeat(step, (count - 1) as nat));
    }
}

/// Takes one leaf from both values: calls `comb` once and moves all three
/// cursors on by one.
pub fn take_both<Acc, FComb, FL, FR>(
    comb: &FComb,
    onlyl: &FL,
    onlyr: &FR,
    acc: Acc,
    offl: &mut usize,
    offr: &mut usize,
    offn: &mut usize,
) -> (res: Acc) where
    FComb: Fn(Acc, usize, usize, usize) -> Acc,
    FL: Fn(Acc, usize, usize) -> Acc,
    FR: Fn(Acc, usize, usize) -> Acc,

    requires
        *old(offl) < usize::MAX,
        *old(offr) < usize::MAX,
        *old(offn) < usize::MAX,
        runs(
            comb,
            onlyl,
            onlyr,
            seq![Step::Both],
            *old(offl) as int,
            *old(offr) as int,
            *old(offn) as int,
            acc,
        ),
    ensures
        *final(offl) == *old(offl) + 1,
        *final(offr) == *old(offr) + 1,
        *final(offn) == *old(offn) + 1,
        folds_to(
            comb,
            onlyl,
            onlyr,
            seq![Step::Both],
            *old(offl) as int,
            *old(offr) as int,
            *old(offn) as int,
            acc,
            res,
        ),
{
    let ghost steps = seq![Step::Both];
    proof {
        lemma_runs_first(comb, onlyl, onlyr, steps, *offl as int, *offr as int, *offn as int, acc);
    }
    let res = comb(acc, *offl, *offr, *offn);
    proof {
        lemma_runs_step(
            comb,
            onlyl,
            onlyr,
            steps,
            *offl as int,
            *offr as int,
            *offn as int,
            acc,
            res,
        );
    }
    *offl = *offl + 1;
    *offr = *offr + 1;
    *offn = *offn + 1;
    res
}

/// Takes `count` leaves from the left value alone: calls `onlyl` once for
/// each, moving the left and the merged cursor on by one each time.
pub fn take_left<Acc, FComb, FL, FR>(
    count: usize,
    comb: &FComb,
    onlyl: &FL,
    onlyr: &FR,
    acc: Acc,
    offl: &mut usize,
    offr: &usize,
    offn: &mut usize,
) -> (res: Acc) where
    FComb: Fn(Acc, usize, usize, usize) -> Acc,
    FL: Fn(Acc, usize, usize) -> Acc,
    FR: Fn(Acc, usize, usize) -> Acc,

    requires
        *old(offl) + count <= usize::MAX,
        *old(offn) + count <= usize::MAX,
        runs(
            comb,
            onlyl,
            onlyr,
            repeat(Step::Left, count as nat),
            *old(offl) as int,
            *offr as int,
            *old(offn) as int,
            acc,
        ),
    ensures
        *final(offl) == *old(offl) + count,
        *final(offn) == *old(offn) + count,
        folds_to(
            comb,
            onlyl,
            onlyr,
            repeat(Step::Left, count as nat),
            *old(offl) as int,
            *offr as int,
            *old(offn) as int,
            acc,
            res,
        ),
{
    let mut cacc = acc;
    let mut done: usize = 0;
    let ghost l0 = *offl as int;
    let ghost n0 = *offn as int;
    let ghost r0 = *offr as int;
    proof {
        assert(repeat(Step::Left, 0) =~= Seq::empty());
        lemma_folds_none(comb, onlyl, onlyr, l0, r0, n0, acc);
        lemma_counts_repeat(Step::Left, 0);
    }
    while done < count
        invariant
            done <= count,
            l0 + count <= usize::MAX,
            n0 + count <= usize::MAX,
            *offl == l0 + done,
            *offn == n0 + done,
            runs(
                comb,
                onlyl,
                onlyr,
                repeat(Step::Left, (count - done) as nat),
                l0 + done,
                r0,
                n0 + done,
                cacc,
            ),
            folds_to(comb, onlyl, onlyr, repeat(Step::Left, done as nat), l0, r0, n0, acc, cacc),
        decreases count - done,
    {
        let ghost before = cacc;
        let ghost rest = repeat(Step::Left, (count - done) as nat);
        proof {
            lemma_runs_first(comb, onlyl, onlyr, rest, l0 + done, r0, n0 + done, cacc);
        }
        cacc = onlyl(cacc, *offl, *offn);
        proof {
            lemma_runs_step(comb, onlyl, onlyr, rest, l0 + done, r0, n0 + done, before, cacc);
            assert(rest.skip(1) =~= repeat(Step::Left, (count - done - 1) as nat));
            lemma_counts_repeat(Step::Left, done as nat);
            lemma_folds_push(
                comb,
                onlyl,
                onlyr,
                repeat(Step::Left, done as nat),
                Step::Left,
                l0,
                r0,
                n0,
                acc,
                before,
                cacc,
            );
            assert(repeat(Step::Left, done as nat).push(Step::Left) =~= repeat(
                Step::Left,
                (done + 1) as nat,
            ));
        }
        *offl = *offl + 1;
        *offn = *offn + 1;
        done = done + 1;
    }
    cacc
}

/// Takes `count` leaves from the right value alone: calls `onlyr` once for
/// each, moving the right and the merged cursor on by one each time.
pub fn take_right<Acc, FComb, FL, FR>(
    count: usize,
    comb: &FComb,
    onlyl: &FL,
    onlyr: &FR,
    acc: Acc,
    offl: &usize,
    offr: &mut usize,
    offn: &mut usize,
) -> (res: Acc) where
    FComb: Fn(Acc, usize, usize, usize) -> Acc,
    FL: Fn(Acc, usize, usize) -> Acc,
    FR: Fn(Acc, usize, usize) -> Acc,

    requires
        *old(offr) + count <= usize::MAX,
        *old(offn) + count <= usize::MAX,
        runs(
            comb,
            onlyl,
            onlyr,
            repeat(Step::Right, count as nat),
            *offl as int,
            *old(offr) as int,
            *old(offn) as int,
            acc,
        ),
    ensures
        *final(offr) == *old(offr) + count,
        *final(offn) == *old(offn) + count,
        folds_to(
            comb,
            onlyl,
            onlyr,
            repeat(Step::Right, count as nat),
            *offl as int,
            *old(offr) as int,
            *old(offn) as int,
            acc,
            res,
        ),
{
    let mut cacc = acc;
    let mut done: usize = 0;
    let ghost l0 = *offl as int;
    let ghost n0 = *offn as int;
    let ghost r0 = *offr as int;
    proof {
        assert(repeat(Step::Right, 0) =~= Seq::empty());
        lemma_folds_none(comb, onlyl, onlyr, l0, r0, n0, acc);
        lemma_counts_repeat(Step::Right, 0);
    }
    while done < count
        invariant
            done <= count,
            r0 + count <= usize::MAX,
            n0 + count <= usize::MAX,
            *offr == r0 + done,
            *offn == n0 + done,
            runs(
                comb,
                onlyl,
                onlyr,
                repeat(Step::Right, (count - done) as nat),
                l0,
                r0 + done,
                n0 + done,
                cacc,
            ),
            folds_to(comb, onlyl, onlyr, repeat(Step::Right, done as nat), l0, r0, n0, acc, cacc),
        decreases count - done,
    {
        let ghost before = cacc;
        let ghost rest = repeat(Step::Right, (count - done) as nat);
        proof {
            lemma_runs_first(comb, onlyl, onlyr, rest, l0, r0 + done, n0 + done, cacc);
        }
        cacc = onlyr(cacc, *offr, *offn);
        proof {
            lemma_runs_step(comb, onlyl, onlyr, rest, l0, r0 + done, n0 + done, before, cacc);
            assert(rest.skip(1) =~= repeat(Step::Right, (count - done - 1) as nat));
            lemma_counts_repeat(Step::Right, done as nat);
            lemma_folds_push(
                comb,
                onlyl,
                onlyr,
                repeat(Step::Right, done as nat),
                Step::Right,
                l0,
                r0,
                n0,
                acc,
                before,
                cacc,
            );
            assert(repeat(Step::Right, done as nat).push(Step::Right) =~= repeat(
                Step::Right,
                (done + 1) as nat,
            ));
        }
        *offr = *offr + 1;
        *offn = *offn + 1;
        done = done + 1;
    }
    cacc
}

} // verus!
