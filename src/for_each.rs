use vstd::prelude::*;
use vstd::std_specs::iter::IteratorSpec;

use crate::control::LoopControl;
use crate::run::{
    arg, completes, is_run, lemma_pulled_bound, lemma_run_push, pulled, ranked_by, repeats_settle,
};

verus! {

/// A consuming loop over an iterator, steered by [`LoopControl`].
pub trait ForEachRepeat {
    /// Pulls elements from the iterator and calls `f` on each. `f` answers
    /// `Continue` to go on with the next element, `Break(b)` to stop with
    /// `Some(b)`, or `Repeat(s)` to be called again with `s` in place of the
    /// current element, the iterator left where it is. Returns `None` once the
    /// iterator is exhausted without a `Break`.
    ///
    /// The caller owes the loop its end: the iterator is one whose remaining
    /// elements and progress measure are known, and `Repeat`s cannot go on
    /// forever, as some rank of the repeated value drops with each of them.
    /// `f` must accept every element of the iterator and every value it hands
    /// back with `Repeat`. The result is that of some complete run of `f` over
    /// the iterator's elements, which then stands past the elements pulled.
    fn for_each_repeat<B, C, F: FnMut(Self::Item) -> LoopControl<B, C, Self::Item>>(
        &mut self,
        f: F,
    ) -> (r: Option<B>) where Self: Iterator
        requires
            <Self as IteratorSpec>::obeys_prophetic_iter_laws(old(self)),
            <Self as IteratorSpec>::decrease(old(self)) is Some,
            forall|i: int|
                0 <= i < <Self as IteratorSpec>::remaining(old(self)).len() ==> call_requires(
                    f,
                    (#[trigger] <Self as IteratorSpec>::remaining(old(self))[i],),
                ),
            forall|x: Self::Item, s: Self::Item|
                call_ensures(f, (x,), LoopControl::<B, C, Self::Item>::Repeat(s))
                    ==> call_requires(f, (s,)),
            repeats_settle(f),
        ensures
            exists|answers: Seq<LoopControl<B, C, Self::Item>>|
                completes(
                    f,
                    <Self as IteratorSpec>::remaining(old(self)),
                    answers,
                    r,
                    <Self as IteratorSpec>::remaining(final(self)),
                ),
    {
        let ghost src = <Self as IteratorSpec>::remaining(self);
        let ghost rank = choose|rank: spec_fn(Self::Item) -> nat| ranked_by::<Self::Item, B, C, F>(f, rank);
        let ghost mut answers: Seq<LoopControl<B, C, Self::Item>> = Seq::empty();
        let mut call = f;
        let mut cur = match self.next() {
            Some(x) => x,
            None => {
                assert(src.skip(0) =~= src);
                assert(completes(f, src, answers, None, <Self as IteratorSpec>::remaining(self)));
                return None;
            },
        };
        loop
            invariant
                <Self as IteratorSpec>::obeys_prophetic_iter_laws(self),
                <Self as IteratorSpec>::decrease(self) is Some,
                forall|i: int| 0 <= i < src.len() ==> call_requires(f, (#[trigger] src[i],)),
                forall|x: Self::Item, s: Self::Item|
                    call_ensures(f, (x,), LoopControl::<B, C, Self::Item>::Repeat(s))
                        ==> call_requires(f, (s,)),
                call_requires(f, (cur,)),
                ranked_by::<Self::Item, B, C, F>(f, rank),
                call == f,
                src == <Self as IteratorSpec>::remaining(old(self)),
                is_run(f, src, answers),
                arg(src, answers, answers.len() as int) == Some(cur),
                <Self as IteratorSpec>::remaining(self) == src.skip(pulled(src, answers, answers.len() as int) as int),
            decreases <Self as IteratorSpec>::decrease(self)->0, rank(cur),
        {
            let c = call(cur);
            proof {
                lemma_run_push(f, src, answers, c);
                lemma_pulled_bound(src, answers, answers.len());
                answers = answers.push(c);
            }
            match c {
                LoopControl::Break(b) => {
                    assert(completes(f, src, answers, Some(b), <Self as IteratorSpec>::remaining(self)));
                    return Some(b);
                },
                LoopControl::Continue(_) => {
                    match self.next() {
                        Some(x) => {
                            cur = x;
                        },
                        None => {
                            assert(completes(f, src, answers, None, <Self as IteratorSpec>::remaining(self)));
                            return None;
                        },
                    }
                },
                LoopControl::Repeat(s) => {
                    cur = s;
                },
            }
        }
    }
}

impl<T: Iterator> ForEachRepeat for T {}

} // verus!
