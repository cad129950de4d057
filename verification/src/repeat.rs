//! Repetition: zero or more, or one or more, occurrences of a parser, folded
//! into an accumulator.

use vstd::prelude::*;
use crate::contract::{
    is_suffix, lemma_empty_add, lemma_suffix_refl, lemma_suffix_trans, Committed, Consumer,
    Factory, HasOutput, ParseResult, PeekableIterator, Stateful, Uncommitted,
};
use crate::contract::ParseResult::{Continue, Done};
use crate::fragments::{answer_of, parses};

verus! {

/// A repetition in progress: the repeated parser, the occurrence that is
/// suspended (if one is), and what has been accumulated so far.
#[derive(Clone, Debug)]
pub struct StarState<P, PState, T>(pub P, pub Option<PState>, pub T);

/// Every occurrence that `p` completes at once takes at least one token.
/// A repetition of a parser without this property would never end.
pub open spec fn productive<Str, P, O>(p: P) -> bool where
    Str: PeekableIterator,
    P: Uncommitted<Str, O>,
 {
    forall|input: Seq<Str::Item>, x: O, rest: Seq<Str::Item>| #[trigger]
        p.begins(input, Some(Done(x)), rest) ==> rest.len() < input.len()
}

/// What repeating `p` from `input` on, with `acc` accumulated and no
/// occurrence suspended, may give.
///
/// - `p` declines: the repetition is over if tokens are left, and suspends
///   if the fragment is exhausted, since the next fragment may go on.
/// - `p` suspends: so does the repetition, holding the occurrence.
/// - `p` completes an occurrence: it is folded in, and the repetition goes
///   on from what is left.
pub open spec fn star_from<Str, P, O, T>(
    p: P,
    acc: T,
    input: Seq<Str::Item>,
    result: ParseResult<StarState<P, P::State, T>, T>,
    rest: Seq<Str::Item>,
) -> bool where Str: PeekableIterator, P: Uncommitted<Str, O>, T: Consumer<O>
    decreases input.len(),
{
    ||| p.begins(input, None, rest) && result == if input.len() == 0 {
        Continue::<StarState<P, P::State, T>, T>(StarState(p, None, acc))
    } else {
        Done(acc)
    }
    ||| exists|next: P::State|
        result == Continue::<StarState<P, P::State, T>, T>(StarState(p, Some(next), acc))
            && #[trigger] p.begins(input, Some(Continue(next)), rest)
    ||| exists|x: O, mid: Seq<Str::Item>, acc2: T|
        #![trigger p.begins(input, Some(Done(x)), mid), T::folds(acc, x, acc2)]
        mid.len() < input.len() && p.begins(input, Some(Done(x)), mid) && T::folds(acc, x, acc2)
            && star_from::<Str, P, O, T>(p, acc2, mid, result, rest)
}

/// What `star_from` allows takes tokens from the front only and leaves a
/// state that can be resumed.
pub proof fn lemma_star_from_sound<Str, P, O, T>(
    p: P,
    acc: T,
    input: Seq<Str::Item>,
    result: ParseResult<StarState<P, P::State, T>, T>,
    rest: Seq<Str::Item>,
) where Str: PeekableIterator, P: Uncommitted<Str, O>, T: Consumer<O>
    requires
        p.parser_wf(),
        productive::<Str, P, O>(p),
        star_from::<Str, P, O, T>(p, acc, input, result, rest),
    ensures
        is_suffix(rest, input),
        result matches Continue(s) ==> s.0 == p && s.0.parser_wf() && (s.1 matches Some(
            inner,
        ) ==> inner.state_wf()),
    decreases input.len(),
{
    if p.begins(input, None, rest) && result == if input.len() == 0 {
        Continue::<StarState<P, P::State, T>, T>(StarState(p, None, acc))
    } else {
        Done(acc)
    } {
        p.begins_sound(input, None, rest);
    } else if exists|next: P::State|
        result == Continue::<StarState<P, P::State, T>, T>(StarState(p, Some(next), acc))
            && #[trigger] p.begins(input, Some(Continue(next)), rest) {
        let next = choose|next: P::State|
            result == Continue::<StarState<P, P::State, T>, T>(StarState(p, Some(next), acc))
                && #[trigger] p.begins(input, Some(Continue(next)), rest);
        p.begins_sound(input, Some(Continue(next)), rest);
    } else {
        let (x, mid, acc2) = choose|x: O, mid: Seq<Str::Item>, acc2: T|
            #![trigger p.begins(input, Some(Done(x)), mid), T::folds(acc, x, acc2)]
            mid.len() < input.len() && p.begins(input, Some(Done(x)), mid) && T::folds(
                acc,
                x,
                acc2,
            ) && star_from::<Str, P, O, T>(p, acc2, mid, result, rest);
        p.begins_sound(input, Some(Done(x)), mid);
        lemma_star_from_sound::<Str, P, O, T>(p, acc2, mid, result, rest);
        lemma_suffix_trans(rest, mid, input);
    }
}

/// A repetition that is over within a fragment is over in the same way
/// whatever follows the fragment.
pub proof fn lemma_star_from_extended<Str, P, O, T>(
    p: P,
    acc: T,
    input: Seq<Str::Item>,
    out: T,
    rest: Seq<Str::Item>,
    second: Seq<Str::Item>,
) where Str: PeekableIterator, P: Uncommitted<Str, O>, T: Consumer<O>
    requires
        p.parser_wf(),
        productive::<Str, P, O>(p),
        star_from::<Str, P, O, T>(p, acc, input, Done(out), rest),
    ensures
        star_from::<Str, P, O, T>(p, acc, input + second, Done(out), rest + second),
    decreases input.len(),
{
    let r = Done::<StarState<P, P::State, T>, T>(out);
    if p.begins(input, None, rest) && r == if input.len() == 0 {
        Continue::<StarState<P, P::State, T>, T>(StarState(p, None, acc))
    } else {
        Done(acc)
    } {
        p.begins_sound(input, None, rest);
        p.declines_extended(input, rest, second);
    } else {
        let (x, mid, acc2) = choose|x: O, mid: Seq<Str::Item>, acc2: T|
            #![trigger p.begins(input, Some(Done(x)), mid), T::folds(acc, x, acc2)]
            mid.len() < input.len() && p.begins(input, Some(Done(x)), mid) && T::folds(
                acc,
                x,
                acc2,
            ) && star_from::<Str, P, O, T>(p, acc2, mid, r, rest);
        p.begins_extended(input, x, mid, second);
        lemma_star_from_extended::<Str, P, O, T>(p, acc2, mid, out, rest, second);
        assert(p.begins(input + second, Some(Done(x)), mid + second));
    }
}

/// What resuming a repetition may give: where an occurrence is suspended,
/// it is resumed first, and folded in when it is done; then the repetition
/// goes on as `star_from` says.
pub open spec fn star_resumes<Str, P, O, T>(
    state: StarState<P, P::State, T>,
    input: Seq<Str::Item>,
    result: ParseResult<StarState<P, P::State, T>, T>,
    rest: Seq<Str::Item>,
) -> bool where Str: PeekableIterator, P: Uncommitted<Str, O>, T: Consumer<O> {
    match state.1 {
        None => star_from::<Str, P, O, T>(state.0, state.2, input, result, rest),
        Some(inner) => {
            ||| exists|next: P::State|
                result == Continue::<StarState<P, P::State, T>, T>(
                    StarState(state.0, Some(next), state.2),
                ) && #[trigger] inner.resumes(input, Continue(next), rest)
            ||| exists|x: O, mid: Seq<Str::Item>, acc2: T|
                #![trigger inner.resumes(input, Done(x), mid), T::folds(state.2, x, acc2)]
                inner.resumes(input, Done(x), mid) && T::folds(state.2, x, acc2) && star_from::<
                    Str,
                    P,
                    O,
                    T,
                >(state.0, acc2, mid, result, rest)
        },
    }
}

/// Where a repetition takes all of a fragment and suspends, and then goes
/// on with a second fragment, it may do at once on the two joined what it
/// did in two steps.
pub proof fn lemma_star_from_joined<Str, P, O, T>(
    p: P,
    acc: T,
    input: Seq<Str::Item>,
    next: StarState<P, P::State, T>,
    second: Seq<Str::Item>,
    result: ParseResult<StarState<P, P::State, T>, T>,
    rest: Seq<Str::Item>,
) where Str: PeekableIterator, P: Uncommitted<Str, O>, T: Consumer<O>
    requires
        p.parser_wf(),
        productive::<Str, P, O>(p),
        star_from::<Str, P, O, T>(p, acc, input, Continue(next), Seq::empty()),
        star_resumes::<Str, P, O, T>(next, second, result, rest),
    ensures
        star_from::<Str, P, O, T>(p, acc, input + second, result, rest),
    decreases input.len(),
{
    let empty = Seq::<Str::Item>::empty();
    let suspended = Continue::<StarState<P, P::State, T>, T>(next);
    if p.begins(input, None, empty) && suspended == if input.len() == 0 {
        Continue::<StarState<P, P::State, T>, T>(StarState(p, None, acc))
    } else {
        Done(acc)
    } {
        lemma_empty_add(input, second);
    } else if exists|s: P::State|
        suspended == Continue::<StarState<P, P::State, T>, T>(StarState(p, Some(s), acc))
            && #[trigger] p.begins(input, Some(Continue(s)), empty) {
        let s = choose|s: P::State|
            suspended == Continue::<StarState<P, P::State, T>, T>(StarState(p, Some(s), acc))
                && #[trigger] p.begins(input, Some(Continue(s)), empty);
        if exists|after: P::State|
            result == Continue::<StarState<P, P::State, T>, T>(StarState(p, Some(after), acc))
                && #[trigger] s.resumes(second, Continue(after), rest) {
            let after = choose|after: P::State|
                result == Continue::<StarState<P, P::State, T>, T>(
                    StarState(p, Some(after), acc),
                ) && #[trigger] s.resumes(second, Continue(after), rest);
            p.begins_joined(input, s, second, Continue(after), rest);
        } else {
            let (x, mid, acc2) = choose|x: O, mid: Seq<Str::Item>, acc2: T|
                #![trigger s.resumes(second, Done(x), mid), T::folds(acc, x, acc2)]
                s.resumes(second, Done(x), mid) && T::folds(acc, x, acc2) && star_from::<
                    Str,
                    P,
                    O,
                    T,
                >(p, acc2, mid, result, rest);
            p.begins_joined(input, s, second, Done(x), mid);
            assert(p.begins(input + second, Some(Done(x)), mid));
        }
    } else {
        let (x, mid, acc2) = choose|x: O, mid: Seq<Str::Item>, acc2: T|
            #![trigger p.begins(input, Some(Done(x)), mid), T::folds(acc, x, acc2)]
            mid.len() < input.len() && p.begins(input, Some(Done(x)), mid) && T::folds(
                acc,
                x,
                acc2,
            ) && star_from::<Str, P, O, T>(p, acc2, mid, suspended, empty);
        p.begins_extended(input, x, mid, second);
        lemma_star_from_joined::<Str, P, O, T>(p, acc2, mid, next, second, result, rest);
        assert(p.begins(input + second, Some(Done(x)), mid + second));
    }
}

/// Repeats `p` on what is left of the fragment, folding each occurrence
/// into `acc`, until `p` declines or suspends.
pub fn star_run<Str, P, O, T>(p: P, acc: T, string: &mut Str) -> (result: ParseResult<
    StarState<P, P::State, T>,
    T,
>) where Str: PeekableIterator, P: Copy + Uncommitted<Str, O>, T: Consumer<O>
    requires
        p.parser_wf(),
        productive::<Str, P, O>(p),
    ensures
        star_from::<Str, P, O, T>(p, acc, old(string).rest(), result, final(string).rest()),
{
    let mut cur = acc;
    loop
        invariant
            p.parser_wf(),
            productive::<Str, P, O>(p),
            forall|result: ParseResult<StarState<P, P::State, T>, T>, rest: Seq<Str::Item>|
                #[trigger] star_from::<Str, P, O, T>(p, cur, string.rest(), result, rest)
                    ==> star_from::<Str, P, O, T>(p, acc, old(string).rest(), result, rest),
        decreases string.rest().len(),
    {
        let ghost input = string.rest();
        let ghost before = cur;
        match p.init(string) {
            Some(Continue(next)) => {
                let result = Continue(StarState(p, Some(next), cur));
                assert(star_from::<Str, P, O, T>(p, before, input, result, string.rest()));
                return result;
            },
            Some(Done(x)) => {
                cur.accept(x);
                assert forall|result: ParseResult<StarState<P, P::State, T>, T>, rest: Seq<Str::Item>|
                    #[trigger] star_from::<Str, P, O, T>(p, cur, string.rest(), result, rest)
                    implies star_from::<Str, P, O, T>(p, acc, old(string).rest(), result, rest) by {
                    assert(p.begins(input, Some(Done(x)), string.rest()));
                    assert(T::folds(before, x, cur));
                    assert(star_from::<Str, P, O, T>(p, before, input, result, rest));
                }
            },
            None => {
                proof {
                    p.begins_sound(input, None, string.rest());
                }
                let result = if string.is_empty() {
                    Continue(StarState(p, None, cur))
                } else {
                    Done(cur)
                };
                assert(star_from::<Str, P, O, T>(p, before, input, result, string.rest()));
                return result;
            },
        }
    }
}

impl<P, PState, T, Str> HasOutput<Str> for StarState<P, PState, T> {
    type Output = T;
}

impl<P, PState, T, Str> Stateful<Str, T> for StarState<P, PState, T> where
    Str: PeekableIterator,
    P: Copy + HasOutput<Str> + Uncommitted<Str, P::Output, State = PState>,
    PState: Stateful<Str, P::Output>,
    T: Consumer<P::Output>,
 {
    open spec fn state_wf(self) -> bool {
        &&& self.0.parser_wf()
        &&& productive::<Str, P, P::Output>(self.0)
        &&& self.1 matches Some(inner) ==> inner.state_wf()
    }

    open spec fn resumes(
        self,
        input: Seq<Str::Item>,
        result: ParseResult<Self, T>,
        rest: Seq<Str::Item>,
    ) -> bool {
        star_resumes::<Str, P, P::Output, T>(self, input, result, rest)
    }

    open spec fn finishes(self, out: T) -> bool {
        out == self.2
    }

    proof fn resumes_sound(
        self,
        input: Seq<Str::Item>,
        result: ParseResult<Self, T>,
        rest: Seq<Str::Item>,
    ) {
        match self.1 {
            None => {
                lemma_star_from_sound::<Str, P, P::Output, T>(
                    self.0,
                    self.2,
                    input,
                    result,
                    rest,
                );
            },
            Some(inner) => {
                if exists|next: PState|
                    result == Continue::<Self, T>(StarState(self.0, Some(next), self.2))
                        && #[trigger] inner.resumes(input, Continue(next), rest) {
                    let next = choose|next: PState|
                        result == Continue::<Self, T>(StarState(self.0, Some(next), self.2))
                            && #[trigger] inner.resumes(input, Continue(next), rest);
                    inner.resumes_sound(input, Continue(next), rest);
                } else {
                    let (x, mid, acc2) = choose|
                        x: P::Output,
                        mid: Seq<Str::Item>,
                        acc2: T,
                    |
                        #![trigger inner.resumes(input, Done(x), mid), T::folds(self.2, x, acc2)]
                        inner.resumes(input, Done(x), mid) && T::folds(self.2, x, acc2)
                            && star_from::<Str, P, P::Output, T>(
                            self.0,
                            acc2,
                            mid,
                            result,
                            rest,
                        );
                    inner.resumes_sound(input, Done(x), mid);
                    lemma_star_from_sound::<Str, P, P::Output, T>(
                        self.0,
                        acc2,
                        mid,
                        result,
                        rest,
                    );
                    lemma_suffix_trans(rest, mid, input);
                }
            },
        }
    }

    proof fn resumes_prolonged(
        self,
        first: Seq<Str::Item>,
        second: Seq<Str::Item>,
        result: ParseResult<Self, T>,
        rest: Seq<Str::Item>,
    ) {
        let whole = rest;
        if exists|next: Self| #[trigger]
            self.resumes(first, Continue(next), Seq::empty()) && next.resumes(
                second,
                result,
                whole,
            ) {
            let next = choose|next: Self| #[trigger]
                self.resumes(first, Continue(next), Seq::empty()) && next.resumes(
                    second,
                    result,
                    whole,
                );
            let empty = Seq::<Str::Item>::empty();
            let suspended = Continue::<Self, T>(next);
            match self.1 {
                None => lemma_star_from_joined::<Str, P, P::Output, T>(
                    self.0,
                    self.2,
                    first,
                    next,
                    second,
                    result,
                    rest,
                ),
                Some(inner) => {
                    if exists|n: PState|
                        suspended == Continue::<Self, T>(StarState(self.0, Some(n), self.2))
                            && #[trigger] inner.resumes(first, Continue(n), empty) {
                        let n = choose|n: PState|
                            suspended == Continue::<Self, T>(StarState(self.0, Some(n), self.2))
                                && #[trigger] inner.resumes(first, Continue(n), empty);
                        if exists|after: PState|
                            result == Continue::<Self, T>(StarState(self.0, Some(after), self.2))
                                && #[trigger] n.resumes(second, Continue(after), rest) {
                            let after = choose|after: PState|
                                result == Continue::<Self, T>(
                                    StarState(self.0, Some(after), self.2),
                                )
                                    && #[trigger] n.resumes(second, Continue(after), rest);
                            inner.resumes_joined(first, n, second, Continue(after), rest);
                        } else {
                            let (x, mid, acc2) = choose|x: P::Output, mid: Seq<Str::Item>, acc2: T|
                                #![trigger n.resumes(second, Done(x), mid), T::folds(self.2, x, acc2)]
                                n.resumes(second, Done(x), mid) && T::folds(self.2, x, acc2)
                                    && star_from::<Str, P, P::Output, T>(
                                        self.0,
                                        acc2,
                                        mid,
                                        result,
                                        rest,
                                    );
                            inner.resumes_joined(first, n, second, Done(x), mid);
                        }
                    } else {
                        let (x, mid, acc2) = choose|x: P::Output, mid: Seq<Str::Item>, acc2: T|
                            #![trigger inner.resumes(first, Done(x), mid), T::folds(self.2, x, acc2)]
                            inner.resumes(first, Done(x), mid) && T::folds(self.2, x, acc2)
                                && star_from::<Str, P, P::Output, T>(
                                    self.0,
                                    acc2,
                                    mid,
                                    suspended,
                                    empty,
                                );
                        inner.resumes_extended(first, x, mid, second);
                        lemma_star_from_joined::<Str, P, P::Output, T>(
                            self.0,
                            acc2,
                            mid,
                            next,
                            second,
                            result,
                            rest,
                        );
                    }
                },
            }
        } else {
            match result {
                Done(out) => {
                    let rest = choose|left: Seq<Str::Item>| #[trigger]
                        self.resumes(first, result, left) && whole == left + second;
                    let r = Done::<Self, T>(out);
                    match self.1 {
                        None => lemma_star_from_extended::<Str, P, P::Output, T>(
                            self.0,
                            self.2,
                            first,
                            out,
                            rest,
                            second,
                        ),
                        Some(inner) => {
                            let (x, mid, acc2) = choose|x: P::Output, mid: Seq<Str::Item>, acc2: T|
                                #![trigger inner.resumes(first, Done(x), mid), T::folds(self.2, x, acc2)]
                                inner.resumes(first, Done(x), mid) && T::folds(self.2, x, acc2)
                                    && star_from::<Str, P, P::Output, T>(
                                        self.0,
                                        acc2,
                                        mid,
                                        r,
                                        rest,
                                    );
                            inner.resumes_extended(first, x, mid, second);
                            lemma_star_from_extended::<Str, P, P::Output, T>(
                                self.0,
                                acc2,
                                mid,
                                out,
                                rest,
                                second,
                            );
                        },
                    }
                },
                Continue(_) => {},
            }
        }
    }

    fn more(self, string: &mut Str) -> (result: ParseResult<Self, T>) {
        let StarState(p, pending, mut acc) = self;
        match pending {
            None => star_run::<Str, P, P::Output, T>(p, acc, string),
            Some(inner) => {
                match inner.more(string) {
                    Continue(next) => Continue(StarState(p, Some(next), acc)),
                    Done(x) => {
                        acc.accept(x);
                        star_run::<Str, P, P::Output, T>(p, acc, string)
                    },
                }
            },
        }
    }

    fn done(self) -> (out: T) {
        self.2
    }
}

/// One or more occurrences of a parser, folded into an accumulator that
/// the factory creates.
#[derive(Clone, Copy, Debug)]
pub struct Plus<P, F>(pub P, pub F);

/// Zero or more occurrences of a parser, folded into an accumulator that
/// the factory creates.
#[derive(Clone, Copy, Debug)]
pub struct Star<P, F>(pub P, pub F);

impl<P, F> Plus<P, F> {
    pub fn new(parser: P, factory: F) -> (plus: Self)
        ensures
            plus.0 == parser,
            plus.1 == factory,
    {
        Plus(parser, factory)
    }
}

impl<P, F> Star<P, F> {
    pub fn new(parser: P, factory: F) -> (star: Self)
        ensures
            star.0 == parser,
            star.1 == factory,
    {
        Star(parser, factory)
    }
}

impl<P, F, Str> HasOutput<Str> for Plus<P, F> where F: Factory {
    type Output = F::Output;
}

impl<P, F, Str> HasOutput<Str> for Star<P, F> where F: Factory {
    type Output = F::Output;
}

impl<P, F, Str> Uncommitted<Str, F::Output> for Plus<P, F> where
    Str: PeekableIterator,
    P: Copy + HasOutput<Str> + Uncommitted<Str, P::Output>,
    F: Factory,
    F::Output: Consumer<P::Output>,
 {
    type State = StarState<
        P,
        P::State,
        F::Output,
    >;

    open spec fn parser_wf(&self) -> bool {
        &&& self.0.parser_wf()
        &&& productive::<Str, P, P::Output>(self.0)
        &&& self.1.ready()
    }

    open spec fn begins(
        &self,
        input: Seq<Str::Item>,
        result: Option<ParseResult<Self::State, F::Output>>,
        rest: Seq<Str::Item>,
    ) -> bool {
        match result {
            None => self.0.begins(input, None, rest),
            Some(r) => {
                ||| exists|
                    next: P::State,
                    acc: F::Output,
                |
                    #![trigger self.0.begins(input, Some(Continue(next)), rest), self.1.builds(acc)]
                    r == Continue::<Self::State, F::Output>(StarState(self.0, Some(next), acc))
                        && self.0.begins(input, Some(Continue(next)), rest) && self.1.builds(acc)
                ||| exists|
                    x: P::Output,
                    mid: Seq<Str::Item>,
                    acc: F::Output,
                    acc2: F::Output,
                |
                    #![trigger self.0.begins(input, Some(Done(x)), mid), F::Output::folds(acc, x, acc2)]
                    self.0.begins(input, Some(Done(x)), mid) && self.1.builds(acc)
                        && F::Output::folds(acc, x, acc2) && star_from::<
                        Str,
                        P,
                        P::Output,
                        F::Output,
                    >(self.0, acc2, mid, r, rest)
            },
        }
    }

    proof fn begins_sound(
        &self,
        input: Seq<Str::Item>,
        result: Option<ParseResult<Self::State, F::Output>>,
        rest: Seq<Str::Item>,
    ) {
        match result {
            None => self.0.begins_sound(input, None, rest),
            Some(r) => {
                if exists|
                    next: P::State,
                    acc: F::Output,
                |
                    #![trigger self.0.begins(input, Some(Continue(next)), rest), self.1.builds(acc)]
                    r == Continue::<Self::State, F::Output>(StarState(self.0, Some(next), acc))
                        && self.0.begins(input, Some(Continue(next)), rest) && self.1.builds(
                        acc,
                    ) {
                    let (next, acc) = choose|
                        next: P::State,
                        acc: F::Output,
                    |
                        #![trigger self.0.begins(input, Some(Continue(next)), rest), self.1.builds(acc)]
                        r == Continue::<Self::State, F::Output>(
                            StarState(self.0, Some(next), acc),
                        ) && self.0.begins(input, Some(Continue(next)), rest) && self.1.builds(
                            acc,
                        );
                    self.0.begins_sound(input, Some(Continue(next)), rest);
                } else {
                    let (x, mid, acc, acc2) = choose|
                        x: P::Output,
                        mid: Seq<Str::Item>,
                        acc: F::Output,
                        acc2: F::Output,
                    |
                        #![trigger self.0.begins(input, Some(Done(x)), mid), F::Output::folds(acc, x, acc2)]
                        self.0.begins(input, Some(Done(x)), mid) && self.1.builds(acc)
                            && F::Output::folds(acc, x, acc2) && star_from::<
                            Str,
                            P,
                            P::Output,
                            F::Output,
                        >(self.0, acc2, mid, r, rest);
                    self.0.begins_sound(input, Some(Done(x)), mid);
                    lemma_star_from_sound::<Str, P, P::Output, F::Output>(
                        self.0,
                        acc2,
                        mid,
                        r,
                        rest,
                    );
                    lemma_suffix_trans(rest, mid, input);
                }
            },
        }
    }

    proof fn begins_prolonged(
        &self,
        first: Seq<Str::Item>,
        second: Seq<Str::Item>,
        result: Option<ParseResult<Self::State, F::Output>>,
        rest: Seq<Str::Item>,
    ) {
        let whole = rest;
        match result {
            None => {
                let rest = first;
                self.0.begins_sound(first, None, rest);
                self.0.declines_extended(first, rest, second);
            },
            Some(then) => {
                if exists|next: Self::State| #[trigger]
                    self.begins(first, Some(Continue(next)), Seq::empty()) && next.resumes(
                        second,
                        then,
                        whole,
                    ) {
                    let next = choose|next: Self::State| #[trigger]
                        self.begins(first, Some(Continue(next)), Seq::empty()) && next.resumes(
                            second,
                            then,
                            whole,
                        );
                    let result = then;
                    let empty = Seq::<Str::Item>::empty();
                    let suspended = Continue::<Self::State, F::Output>(next);
                    if exists|n: P::State, acc: F::Output|
                        #![trigger self.0.begins(first, Some(Continue(n)), empty), self.1.builds(acc)]
                        suspended == Continue::<Self::State, F::Output>(
                            StarState(self.0, Some(n), acc),
                        )
                            && self.0.begins(first, Some(Continue(n)), empty) && self.1.builds(
                                acc,
                            ) {
                        let (n, acc) = choose|n: P::State, acc: F::Output|
                            #![trigger self.0.begins(first, Some(Continue(n)), empty), self.1.builds(acc)]
                            suspended == Continue::<Self::State, F::Output>(
                                StarState(self.0, Some(n), acc),
                            )
                                && self.0.begins(first, Some(Continue(n)), empty) && self.1.builds(
                                    acc,
                                );
                        if exists|after: P::State|
                            result == Continue::<Self::State, F::Output>(
                                StarState(self.0, Some(after), acc),
                            )
                                && #[trigger] n.resumes(second, Continue(after), rest) {
                            let after = choose|after: P::State|
                                result == Continue::<Self::State, F::Output>(
                                    StarState(self.0, Some(after), acc),
                                ) && #[trigger] n.resumes(second, Continue(after), rest);
                            self.0.begins_joined(first, n, second, Continue(after), rest);
                            assert(self.0.begins(first + second, Some(Continue(after)), rest));
                        } else {
                            let (x, mid, acc2) = choose|x: P::Output, mid: Seq<Str::Item>, acc2: F::Output|
                                #![trigger n.resumes(second, Done(x), mid), F::Output::folds(acc, x, acc2)]
                                n.resumes(second, Done(x), mid) && F::Output::folds(acc, x, acc2)
                                    && star_from::<Str, P, P::Output, F::Output>(
                                        self.0,
                                        acc2,
                                        mid,
                                        result,
                                        rest,
                                    );
                            self.0.begins_joined(first, n, second, Done(x), mid);
                            assert(self.0.begins(first + second, Some(Done(x)), mid));
                        }
                    } else {
                        let (x, mid, acc, acc2) = choose|
                            x: P::Output,
                            mid: Seq<Str::Item>,
                            acc: F::Output,
                            acc2: F::Output,
                        |
                            #![trigger self.0.begins(first, Some(Done(x)), mid), F::Output::folds(acc, x, acc2)]
                            self.0.begins(first, Some(Done(x)), mid) && self.1.builds(acc)
                                && F::Output::folds(acc, x, acc2) && star_from::<Str, P, P::Output, F::Output>(
                                self.0,
                                acc2,
                                mid,
                                suspended,
                                empty,
                            );
                        self.0.begins_extended(first, x, mid, second);
                        lemma_star_from_joined::<Str, P, P::Output, F::Output>(
                            self.0,
                            acc2,
                            mid,
                            next,
                            second,
                            result,
                            rest,
                        );
                        assert(self.0.begins(first + second, Some(Done(x)), mid + second));
                    }
                } else {
                    match then {
                        Done(out) => {
                            let rest = choose|left: Seq<Str::Item>| #[trigger]
                                self.begins(first, result, left) && whole == left + second;
                            let r = Done::<Self::State, F::Output>(out);
                            let (x, mid, acc, acc2) = choose|
                                x: P::Output,
                                mid: Seq<Str::Item>,
                                acc: F::Output,
                                acc2: F::Output,
                            |
                                #![trigger self.0.begins(first, Some(Done(x)), mid), F::Output::folds(acc, x, acc2)]
                                self.0.begins(first, Some(Done(x)), mid) && self.1.builds(acc) && F::Output::folds(
                                    acc,
                                    x,
                                    acc2,
                                ) && star_from::<Str, P, P::Output, F::Output>(
                                    self.0,
                                    acc2,
                                    mid,
                                    r,
                                    rest,
                                );
                            self.0.begins_extended(first, x, mid, second);
                            lemma_star_from_extended::<Str, P, P::Output, F::Output>(
                                self.0,
                                acc2,
                                mid,
                                out,
                                rest,
                                second,
                            );
                        },
                        Continue(_) => {},
                    }
                }
            },
        }
    }

    fn init(&self, string: &mut Str) -> (result: Option<ParseResult<Self::State, F::Output>>) {
        match self.0.init(string) {
            None => None,
            Some(Continue(next)) => Some(Continue(StarState(self.0, Some(next), self.1.build()))),
            Some(Done(x)) => {
                let mut buffer = self.1.build();
                buffer.accept(x);
                Some(StarState(self.0, None, buffer).more(string))
            },
        }
    }
}

impl<P, F, Str> Uncommitted<Str, F::Output> for Star<P, F> where
    Str: PeekableIterator,
    P: Copy + HasOutput<Str> + Uncommitted<Str, P::Output>,
    F: Factory,
    F::Output: Consumer<P::Output>,
 {
    type State = StarState<
        P,
        P::State,
        F::Output,
    >;

    open spec fn parser_wf(&self) -> bool {
        &&& self.0.parser_wf()
        &&& productive::<Str, P, P::Output>(self.0)
        &&& self.1.ready()
    }

    open spec fn begins(
        &self,
        input: Seq<Str::Item>,
        result: Option<ParseResult<Self::State, F::Output>>,
        rest: Seq<Str::Item>,
    ) -> bool {
        match result {
            None => input.len() == 0 && rest == input,
            Some(r) => input.len() > 0 && exists|acc: F::Output|
                #![trigger self.1.builds(acc)]
                self.1.builds(acc) && star_from::<
                    Str,
                    P,
                    P::Output,
                    F::Output,
                >(self.0, acc, input, r, rest),
        }
    }

    proof fn begins_sound(
        &self,
        input: Seq<Str::Item>,
        result: Option<ParseResult<Self::State, F::Output>>,
        rest: Seq<Str::Item>,
    ) {
        match result {
            None => lemma_suffix_refl(input),
            Some(r) => {
                let acc = choose|acc: F::Output|
                    #![trigger self.1.builds(acc)]
                    self.1.builds(acc) && star_from::<
                        Str,
                        P,
                        P::Output,
                        F::Output,
                    >(self.0, acc, input, r, rest);
                lemma_star_from_sound::<Str, P, P::Output, F::Output>(
                    self.0,
                    acc,
                    input,
                    r,
                    rest,
                );
            },
        }
    }

    proof fn begins_prolonged(
        &self,
        first: Seq<Str::Item>,
        second: Seq<Str::Item>,
        result: Option<ParseResult<Self::State, F::Output>>,
        rest: Seq<Str::Item>,
    ) {
        let whole = rest;
        match result {
            None => {
                let rest = first;
            },
            Some(then) => {
                if exists|next: Self::State| #[trigger]
                    self.begins(first, Some(Continue(next)), Seq::empty()) && next.resumes(
                        second,
                        then,
                        whole,
                    ) {
                    let next = choose|next: Self::State| #[trigger]
                        self.begins(first, Some(Continue(next)), Seq::empty()) && next.resumes(
                            second,
                            then,
                            whole,
                        );
                    let result = then;
                    let suspended = Continue::<Self::State, F::Output>(next);
                    let acc = choose|acc: F::Output|
                        #![trigger self.1.builds(acc)]
                        self.1.builds(acc) && star_from::<Str, P, P::Output, F::Output>(
                            self.0,
                            acc,
                            first,
                            suspended,
                            Seq::empty(),
                        );
                    lemma_star_from_joined::<Str, P, P::Output, F::Output>(
                        self.0,
                        acc,
                        first,
                        next,
                        second,
                        result,
                        rest,
                    );
                } else {
                    match then {
                        Done(out) => {
                            let rest = choose|left: Seq<Str::Item>| #[trigger]
                                self.begins(first, result, left) && whole == left + second;
                            let r = Done::<Self::State, F::Output>(out);
                            let acc = choose|acc: F::Output|
                                #![trigger self.1.builds(acc)]
                                self.1.builds(acc) && star_from::<Str, P, P::Output, F::Output>(
                                    self.0,
                                    acc,
                                    first,
                                    r,
                                    rest,
                                );
                            lemma_star_from_extended::<Str, P, P::Output, F::Output>(
                                self.0,
                                acc,
                                first,
                                out,
                                rest,
                                second,
                            );
                        },
                        Continue(_) => {},
                    }
                }
            },
        }
    }

    fn init(&self, string: &mut Str) -> (result: Option<ParseResult<Self::State, F::Output>>)
        ensures
            result.is_none() <==> old(string).rest().len() == 0,
    {
        if string.is_empty() {
            None
        } else {
            Some(StarState(self.0, None, self.1.build()).more(string))
        }
    }
}

impl<P, F, Str> Committed<Str, F::Output> for Star<P, F> where
    Str: PeekableIterator,
    P: Copy + HasOutput<Str> + Uncommitted<Str, P::Output>,
    F: Factory,
    F::Output: Consumer<P::Output>,
 {
    open spec fn answer_wf(&self) -> bool {
        true
    }

    open spec fn answers(&self, out: F::Output) -> bool {
        self.1.builds(out)
    }

    fn empty(&self) -> (out: F::Output) {
        self.1.build()
    }
}

/// On an input without tokens, zero or more occurrences yield a fresh
/// accumulator, and nothing else.
pub proof fn lemma_star_on_empty_input<Str, P, F>(star: Star<P, F>, out: F::Output) where
    Str: PeekableIterator,
    P: Copy + HasOutput<Str> + Uncommitted<Str, P::Output>,
    F: Factory,
    F::Output: Consumer<P::Output>,

    ensures
        parses::<Str, Star<P, F>, F::Output>(
            star,
            answer_of::<Str, Star<P, F>, F::Output>(star),
            seq![Seq::empty()],
            out,
        ) <==> star.1.builds(out),
        parses::<Str, Star<P, F>, F::Output>(
            star,
            answer_of::<Str, Star<P, F>, F::Output>(star),
            Seq::empty(),
            out,
        ) <==> star.1.builds(out),
{
    let at_end = answer_of::<Str, Star<P, F>, F::Output>(star);
    let one = seq![Seq::<Str::Item>::empty()];
    assert(one.skip(1) =~= Seq::<Seq<Str::Item>>::empty());
    assert(parses::<Str, Star<P, F>, F::Output>(star, at_end, one.skip(1), out) <==> star.1.builds(
        out,
    ));
    if star.1.builds(out) {
        assert(star.begins(one[0], None, Seq::empty()));
    }
}

/// Zero or more occurrences never decline an input with tokens in it.
pub proof fn lemma_star_never_declines<Str, P, F>(
    star: Star<P, F>,
    input: Seq<Str::Item>,
    rest: Seq<Str::Item>,
) where
    Str: PeekableIterator,
    P: Copy + HasOutput<Str> + Uncommitted<Str, P::Output>,
    F: Factory,
    F::Output: Consumer<P::Output>,

    requires
        input.len() > 0,
    ensures
        !star.begins(input, None, rest),
{
}

/// One or more occurrences decline exactly where the repeated parser
/// declines; so on an input that the parser can only decline, they can
/// only decline.
pub proof fn lemma_plus_declines_with_its_parser<Str, P, F>(
    plus: Plus<P, F>,
    input: Seq<Str::Item>,
    rest: Seq<Str::Item>,
) where
    Str: PeekableIterator,
    P: Copy + HasOutput<Str> + Uncommitted<Str, P::Output>,
    F: Factory,
    F::Output: Consumer<P::Output>,

    ensures
        plus.begins(input, None, rest) <==> plus.0.begins(input, None, rest),
        (forall|
            r: Option<ParseResult<P::State, P::Output>>,
            left: Seq<Str::Item>,
        | #[trigger] plus.0.begins(input, r, left) ==> r.is_none()) ==> (forall|
            r: Option<
                ParseResult<StarState<P, P::State, F::Output>, F::Output>,
            >,
            left: Seq<Str::Item>,
        | #[trigger] plus.begins(input, r, left) ==> r.is_none()),
{
}

} // verus!