use vstd::prelude::*;

use crate::control::LoopControl;

verus! {

/// Where a run over `src` stands after the callback has given the first `k`
/// of `answers`: the element that the next call receives (`None` once the run
/// has halted) and how many elements have been pulled from the source.
pub open spec fn cursor<T, B, C>(
    src: Seq<T>,
    answers: Seq<LoopControl<B, C, T>>,
    k: nat,
) -> (Option<T>, nat)
    decreases k,
{
    if k == 0 {
        if src.len() > 0 {
            (Some(src[0]), 1)
        } else {
            (None, 0)
        }
    } else {
        let prev = cursor(src, answers, (k - 1) as nat);
        match answers[k - 1] {
            LoopControl::Break(_) => (None, prev.1),
            LoopControl::Continue(_) => if prev.1 < src.len() {
                (Some(src[prev.1 as int]), prev.1 + 1)
            } else {
                (None, prev.1)
            },
            LoopControl::Repeat(s) => (Some(s), prev.1),
        }
    }
}

/// The element handed to the `k`-th call of the callback.
pub open spec fn arg<T, B, C>(src: Seq<T>, answers: Seq<LoopControl<B, C, T>>, k: int) -> Option<T> {
    cursor(src, answers, k as nat).0
}

/// How many source elements have been pulled once `k` answers were given.
pub open spec fn pulled<T, B, C>(src: Seq<T>, answers: Seq<LoopControl<B, C, T>>, k: int) -> nat {
    cursor(src, answers, k as nat).1
}

/// `answers` is a sequence of calls that the loop can make over `src`: each
/// call receives the element the loop hands it at that point, and `f` may
/// answer it so.
pub open spec fn is_run<T, B, C, F: FnMut(T) -> LoopControl<B, C, T>>(
    f: F,
    src: Seq<T>,
    answers: Seq<LoopControl<B, C, T>>,
) -> bool {
    forall|i: int|
        #![trigger arg(src, answers, i)]
        0 <= i < answers.len() ==> {
            &&& arg(src, answers, i) is Some
            &&& call_ensures(f, (arg(src, answers, i)->0,), answers[i])
        }
}

/// The result of a halted run: the payload of its final `Break`, if any.
pub open spec fn outcome<T, B, C>(answers: Seq<LoopControl<B, C, T>>) -> Option<B> {
    if answers.len() > 0 && answers.last() is Break {
        Some(answers.last()->Break_0)
    } else {
        None
    }
}

/// A whole run: `answers` is a run of `f` over `src` that has halted, it
/// returns `result`, and the source is left with `rest`.
pub open spec fn completes<T, B, C, F: FnMut(T) -> LoopControl<B, C, T>>(
    f: F,
    src: Seq<T>,
    answers: Seq<LoopControl<B, C, T>>,
    result: Option<B>,
    rest: Seq<T>,
) -> bool {
    &&& is_run(f, src, answers)
    &&& arg(src, answers, answers.len() as int) is None
    &&& result == outcome(answers)
    &&& rest == src.skip(pulled(src, answers, answers.len() as int) as int)
}

/// `rank` drops from the value a call of `f` receives to the value that the
/// call hands back with `Repeat`.
pub open spec fn ranked_by<T, B, C, F: FnMut(T) -> LoopControl<B, C, T>>(
    f: F,
    rank: spec_fn(T) -> nat,
) -> bool {
    forall|x: T, s: T|
        #[trigger] call_ensures(f, (x,), LoopControl::<B, C, T>::Repeat(s)) ==> rank(s) < rank(x)
}

/// The loop's termination duty that falls on the callback: a chain of
/// `Repeat`s always ends, as some rank of the repeated value drops on each.
pub open spec fn repeats_settle<T, B, C, F: FnMut(T) -> LoopControl<B, C, T>>(f: F) -> bool {
    exists|rank: spec_fn(T) -> nat| #[trigger] ranked_by::<T, B, C, F>(f, rank)
}

/// The cursor after `k` answers looks at the first `k` answers only.
pub proof fn lemma_cursor_push<T, B, C>(
    src: Seq<T>,
    answers: Seq<LoopControl<B, C, T>>,
    c: LoopControl<B, C, T>,
    k: nat,
)
    requires
        k <= answers.len(),
    ensures
        cursor(src, answers.push(c), k) == cursor(src, answers, k),
    decreases k,
{
    if k > 0 {
        lemma_cursor_push(src, answers, c, (k - 1) as nat);
        assert(answers.push(c)[k - 1] == answers[k - 1]);
    }
}

/// One more call: a run that has not halted, extended by what `f` answers
/// to the element it hands over, is still a run.
pub proof fn lemma_run_push<T, B, C, F: FnMut(T) -> LoopControl<B, C, T>>(
    f: F,
    src: Seq<T>,
    answers: Seq<LoopControl<B, C, T>>,
    c: LoopControl<B, C, T>,
)
    requires
        is_run(f, src, answers),
        arg(src, answers, answers.len() as int) is Some,
        call_ensures(f, (arg(src, answers, answers.len() as int)->0,), c),
    ensures
        is_run(f, src, answers.push(c)),
        cursor(src, answers.push(c), answers.len()) == cursor(src, answers, answers.len()),
{
    let more = answers.push(c);
    assert forall|i: int| 0 <= i < more.len() implies {
        &&& arg(src, more, i) is Some
        &&& call_ensures(f, (arg(src, more, i)->0,), more[i])
    } by {
        lemma_cursor_push(src, answers, c, i as nat);
        if i < answers.len() {
            assert(more[i] == answers[i]);
            assert(arg(src, answers, i) is Some);
        } else {
            assert(more[i] == c);
            assert(i as nat == answers.len());
        }
        assert(arg(src, more, i) is Some);
    }
    assert(is_run(f, src, more));
    lemma_cursor_push(src, answers, c, answers.len());
}

/// The number of pulled elements never exceeds the source's length.
pub proof fn lemma_pulled_bound<T, B, C>(src: Seq<T>, answers: Seq<LoopControl<B, C, T>>, k: nat)
    ensures
        cursor(src, answers, k).1 <= src.len(),
    decreases k,
{
    if k > 0 {
        lemma_pulled_bound(src, answers, (k - 1) as nat);
    }
}

} // verus!
