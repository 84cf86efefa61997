use vstd::prelude::*;

use crate::control::LoopControl;
use crate::run::{arg, completes, cursor, is_run, outcome, pulled};

verus! {

/// A standard early-exiting for-each of `f` over `src`: call `i` receives
/// `src[i]`, every answer but the last is `Continue`, and the loop ends on a
/// `Break` or once the source is used up.
pub open spec fn for_each_break<T, B, C, F: FnMut(T) -> LoopControl<B, C, T>>(
    f: F,
    src: Seq<T>,
    answers: Seq<LoopControl<B, C, T>>,
    result: Option<B>,
) -> bool {
    &&& answers.len() <= src.len()
    &&& forall|i: int|
        0 <= i < answers.len() ==> call_ensures(f, (src[i],), #[trigger] answers[i])
    &&& forall|i: int| 0 <= i < answers.len() - 1 ==> #[trigger] answers[i] is Continue
    &&& answers.len() == src.len() || (answers.len() > 0 && answers.last() is Break)
    &&& result == outcome(answers)
}

/// While every answer so far has been `Continue`, the loop has handed out the
/// source in order, one element per call.
proof fn lemma_continue_prefix<T, B, C>(src: Seq<T>, answers: Seq<LoopControl<B, C, T>>, k: nat)
    requires
        k <= answers.len(),
        forall|j: int| 0 <= j < k ==> #[trigger] answers[j] is Continue,
    ensures
        cursor(src, answers, k) == (if k < src.len() {
            (Some(src[k as int]), k + 1)
        } else {
            (None::<T>, src.len())
        }),
    decreases k,
{
    if k > 0 {
        lemma_continue_prefix(src, answers, (k - 1) as nat);
        assert(answers[k - 1] is Continue);
    }
}

/// A call in a run whose answer is `Break` is the run's last, and the run then
/// returns its payload without pulling another element.
pub proof fn law_break_ends_run<T, B, C, F: FnMut(T) -> LoopControl<B, C, T>>(
    f: F,
    src: Seq<T>,
    answers: Seq<LoopControl<B, C, T>>,
    result: Option<B>,
    rest: Seq<T>,
    k: int,
)
    requires
        completes(f, src, answers, result, rest),
        0 <= k < answers.len(),
        answers[k] is Break,
    ensures
        k == answers.len() - 1,
        result == Some(answers[k]->Break_0),
        rest == src.skip(pulled(src, answers, k) as int),
{
    if k < answers.len() - 1 {
        assert(arg(src, answers, k + 1) is Some);
    }
}

/// If `f` only ever answers `Continue`, a run calls it once on each element of
/// the source, in order, uses the source up and returns `None`.
pub proof fn law_continue_visits_all<T, B, C, F: FnMut(T) -> LoopControl<B, C, T>>(
    f: F,
    src: Seq<T>,
    answers: Seq<LoopControl<B, C, T>>,
    result: Option<B>,
    rest: Seq<T>,
)
    requires
        forall|x: T, c: LoopControl<B, C, T>| call_ensures(f, (x,), c) ==> c is Continue,
        completes(f, src, answers, result, rest),
    ensures
        result is None,
        answers.len() == src.len(),
        forall|i: int| 0 <= i < src.len() ==> arg(src, answers, i) == Some(src[i]),
        rest.len() == 0,
{
    assert forall|j: int| 0 <= j < answers.len() implies #[trigger] answers[j] is Continue by {
        assert(arg(src, answers, j) is Some);
    }
    lemma_continue_prefix(src, answers, answers.len());
    if answers.len() > src.len() {
        assert(arg(src, answers, src.len() as int) is Some);
        lemma_continue_prefix(src, answers, src.len());
    }
    assert forall|i: int| 0 <= i < src.len() implies arg(src, answers, i) == Some(src[i]) by {
        lemma_continue_prefix(src, answers, i as nat);
    }
}

/// `Repeat` does not advance the source: after a call answered
/// `Repeat(s)`, the next call receives `s`; so a stretch of `n` `Repeat`s from
/// call `k` on means `n + 1` calls, `k` to `k + n`, on one source position,
/// and a call after a `Continue` that ends the stretch is on the next one.
pub proof fn law_repeat_stays<T, B, C>(
    src: Seq<T>,
    answers: Seq<LoopControl<B, C, T>>,
    k: int,
    n: nat,
)
    requires
        0 <= k,
        k + n <= answers.len(),
        forall|j: int| k <= j < k + n ==> #[trigger] answers[j] is Repeat,
    ensures
        forall|j: int| k <= j <= k + n ==> #[trigger] pulled(src, answers, j) == pulled(src, answers, k),
        forall|j: int|
            k < j <= k + n ==> #[trigger] arg(src, answers, j) == Some(answers[j - 1]->Repeat_0),
        k + n < answers.len() && answers[k + n] is Continue && arg(src, answers, k + n + 1) is Some
            ==> pulled(src, answers, k + n + 1) == pulled(src, answers, k) + 1,
    decreases n,
{
    if n > 0 {
        law_repeat_stays(src, answers, k, (n - 1) as nat);
        assert(answers[k + n - 1] is Repeat);
        assert(cursor(src, answers, (k + n) as nat) == (
            Some(answers[k + n - 1]->Repeat_0),
            cursor(src, answers, (k + n - 1) as nat).1,
        ));
        assert(pulled(src, answers, k + n) == pulled(src, answers, k + n - 1));
    }
    assert(pulled(src, answers, k + n) == pulled(src, answers, k));
}

/// Where the loop stands after a run without `Repeat` has ended: past the
/// elements it handed out, and halted.
proof fn lemma_plain_end<T, B, C>(src: Seq<T>, answers: Seq<LoopControl<B, C, T>>)
    requires
        answers.len() <= src.len(),
        forall|j: int| 0 <= j < answers.len() - 1 ==> #[trigger] answers[j] is Continue,
        answers.len() == src.len() || (answers.len() > 0 && answers.last() is Break),
        answers.len() > 0 ==> !(answers.last() is Repeat),
    ensures
        arg(src, answers, answers.len() as int) is None,
        pulled(src, answers, answers.len() as int) == answers.len(),
{
    let n = answers.len();
    if n == 0 {
        lemma_continue_prefix(src, answers, 0);
    } else if answers[n - 1] is Break {
        lemma_continue_prefix(src, answers, (n - 1) as nat);
        assert(cursor(src, answers, n) == (None::<T>, cursor(src, answers, (n - 1) as nat).1));
    } else {
        assert(answers[n - 1] is Continue);
        lemma_continue_prefix(src, answers, n);
    }
}

/// A run without `Repeat` is a standard early-exiting for-each.
proof fn lemma_run_is_for_each<T, B, C, F: FnMut(T) -> LoopControl<B, C, T>>(
    f: F,
    src: Seq<T>,
    answers: Seq<LoopControl<B, C, T>>,
    result: Option<B>,
    rest: Seq<T>,
)
    requires
        forall|j: int| 0 <= j < answers.len() ==> !(#[trigger] answers[j] is Repeat),
        completes(f, src, answers, result, rest),
    ensures
        for_each_break(f, src, answers, result),
        rest == src.skip(answers.len() as int),
{
    let n = answers.len();
    assert forall|j: int| 0 <= j < n - 1 implies #[trigger] answers[j] is Continue by {
        if answers[j] is Break {
            law_break_ends_run(f, src, answers, result, rest, j);
        }
    }
    if n == 0 {
        lemma_continue_prefix(src, answers, 0);
    } else {
        lemma_continue_prefix(src, answers, (n - 1) as nat);
        assert(arg(src, answers, n - 1) is Some);
        if answers[n - 1] is Continue {
            lemma_continue_prefix(src, answers, n);
        }
    }
    assert forall|i: int| 0 <= i < n implies call_ensures(f, (src[i],), #[trigger] answers[i]) by {
        lemma_continue_prefix(src, answers, i as nat);
        assert(arg(src, answers, i) is Some);
    }
    lemma_plain_end(src, answers);
}

/// A standard early-exiting for-each is a run.
proof fn lemma_for_each_is_run<T, B, C, F: FnMut(T) -> LoopControl<B, C, T>>(
    f: F,
    src: Seq<T>,
    answers: Seq<LoopControl<B, C, T>>,
    result: Option<B>,
)
    requires
        forall|j: int| 0 <= j < answers.len() ==> !(#[trigger] answers[j] is Repeat),
        for_each_break(f, src, answers, result),
    ensures
        completes(f, src, answers, result, src.skip(answers.len() as int)),
{
    assert forall|i: int| 0 <= i < answers.len() implies {
        &&& arg(src, answers, i) is Some
        &&& call_ensures(f, (arg(src, answers, i)->0,), answers[i])
    } by {
        lemma_continue_prefix(src, answers, i as nat);
    }
    assert(is_run(f, src, answers));
    lemma_plain_end(src, answers);
}

/// Without `Repeat`, a run is exactly a standard early-exiting for-each over
/// the same source and callback, and leaves the source past the elements it
/// handed out.
pub proof fn law_without_repeat<T, B, C, F: FnMut(T) -> LoopControl<B, C, T>>(
    f: F,
    src: Seq<T>,
    answers: Seq<LoopControl<B, C, T>>,
    result: Option<B>,
    rest: Seq<T>,
)
    requires
        forall|j: int| 0 <= j < answers.len() ==> !(#[trigger] answers[j] is Repeat),
    ensures
        completes(f, src, answers, result, rest) <==> {
            &&& for_each_break(f, src, answers, result)
            &&& rest == src.skip(answers.len() as int)
        },
{
    if completes(f, src, answers, result, rest) {
        lemma_run_is_for_each(f, src, answers, result, rest);
    }
    if for_each_break(f, src, answers, result) && rest == src.skip(answers.len() as int) {
        lemma_for_each_is_run(f, src, answers, result);
    }
}

/// On an empty source the loop makes no call and returns `None`.
pub proof fn law_empty_source<T, B, C, F: FnMut(T) -> LoopControl<B, C, T>>(
    f: F,
    answers: Seq<LoopControl<B, C, T>>,
    result: Option<B>,
    rest: Seq<T>,
)
    requires
        completes(f, Seq::<T>::empty(), answers, result, rest),
    ensures
        answers.len() == 0,
        result is None,
        rest.len() == 0,
{
    if answers.len() > 0 {
        assert(arg(Seq::<T>::empty(), answers, 0) is Some);
    }
}

} // verus!
