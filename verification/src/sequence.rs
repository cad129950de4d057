//! Sequencing: one parser, then another, with the pair of their outputs.

use vstd::prelude::*;
use crate::contract::{
    is_suffix, lemma_empty_add, lemma_suffix_trans, Committed, HasOutput, ParseResult,
    PeekableIterator, Stateful, Uncommitted,
};
use crate::contract::ParseResult::{Continue, Done};
use crate::fragments::{answer_of, feeds, feeds_done, no_answer, parses, parses_done};
use self::AndThenState::{InBetween, InLhs, InRhs};

verus! {

/// `p` followed by `q`.
#[derive(Clone, Copy, Debug)]
pub struct AndThen<P, Q>(pub P, pub Q);

/// Where a suspended sequence stands: still inside the left parser; the
/// left output in hand and the right parser not started; or the left output
/// in hand and the right parser suspended.
#[derive(Clone, Copy, Debug)]
pub enum AndThenState<PState, Q, POutput, QState> {
    InLhs(PState, Q),
    InBetween(POutput, Q),
    InRhs(POutput, QState),
}

/// What starting `q` on `input`, with the left output `fst` in hand, may
/// give: the pair when `q` is done at once, `InBetween` when `q` declines,
/// `InRhs` when `q` suspends.
pub open spec fn then_begins<Str, PState, Q, POutput, QOutput>(
    q: Q,
    fst: POutput,
    input: Seq<Str::Item>,
    result: ParseResult<AndThenState<PState, Q, POutput, Q::State>, (POutput, QOutput)>,
    rest: Seq<Str::Item>,
) -> bool where Str: PeekableIterator, Q: Committed<Str, QOutput> {
    match result {
        Done((a, b)) => a == fst && q.begins(input, Some(Done(b)), rest),
        Continue(InBetween(a, q2)) => a == fst && q2 == q && q.begins(input, None, rest),
        Continue(InRhs(a, snd)) => a == fst && q.begins(input, Some(Continue(snd)), rest),
        Continue(InLhs(_, _)) => false,
    }
}

/// Starts `q` right after the left parser is done, on what is left of the
/// same fragment.
pub fn begin_rhs<Str, PState, Q, POutput, QOutput>(q: Q, fst: POutput, string: &mut Str) -> (result:
    ParseResult<AndThenState<PState, Q, POutput, Q::State>, (POutput, QOutput)>) where
    Str: PeekableIterator,
    Q: Copy + Committed<Str, QOutput>,

    requires
        q.parser_wf(),
    ensures
        then_begins::<Str, PState, Q, POutput, QOutput>(
            q,
            fst,
            old(string).rest(),
            result,
            final(string).rest(),
        ),
{
    match q.init(string) {
        None => Continue(InBetween(fst, q)),
        Some(Done(snd)) => Done((fst, snd)),
        Some(Continue(snd)) => Continue(InRhs(fst, snd)),
    }
}

/// What `then_begins` allows takes tokens from the front only and leaves a
/// state that can be resumed.
pub proof fn lemma_then_begins_sound<Str, PState, Q, POutput, QOutput>(
    q: Q,
    fst: POutput,
    input: Seq<Str::Item>,
    result: ParseResult<AndThenState<PState, Q, POutput, Q::State>, (POutput, QOutput)>,
    rest: Seq<Str::Item>,
) where
    Str: PeekableIterator,
    PState: Stateful<Str, POutput>,
    Q: Copy + Committed<Str, QOutput>,

    requires
        q.parser_wf(),
        q.answer_wf(),
        then_begins::<Str, PState, Q, POutput, QOutput>(q, fst, input, result, rest),
    ensures
        is_suffix(rest, input),
        result matches Continue(s) ==> s.state_wf(),
{
    match result {
        Done((a, b)) => q.begins_sound(input, Some(Done(b)), rest),
        Continue(InBetween(a, q2)) => q.begins_sound(input, None, rest),
        Continue(InRhs(a, snd)) => q.begins_sound(input, Some(Continue(snd)), rest),
        Continue(InLhs(_, _)) => {},
    }
}

/// Where the right parser is done within a fragment, it is done in the same
/// way whatever follows.
pub proof fn lemma_then_begins_extended<Str, PState, Q, POutput, QOutput>(
    q: Q,
    fst: POutput,
    input: Seq<Str::Item>,
    out: (POutput, QOutput),
    rest: Seq<Str::Item>,
    second: Seq<Str::Item>,
) where
    Str: PeekableIterator,
    PState: Stateful<Str, POutput>,
    Q: Copy + Committed<Str, QOutput>,

    requires
        q.parser_wf(),
        then_begins::<Str, PState, Q, POutput, QOutput>(q, fst, input, Done(out), rest),
    ensures
        then_begins::<Str, PState, Q, POutput, QOutput>(
            q,
            fst,
            input + second,
            Done(out),
            rest + second,
        ),
{
    q.begins_extended(input, out.1, rest, second);
}

/// Where the right parser was started on the last of a fragment and the
/// sequence suspended, and the sequence then goes on with a second
/// fragment, the right parser may do at once on the two joined what was
/// done in two steps.
pub proof fn lemma_then_begins_joined<Str, PState, Q, POutput, QOutput>(
    q: Q,
    fst: POutput,
    input: Seq<Str::Item>,
    next: AndThenState<PState, Q, POutput, Q::State>,
    second: Seq<Str::Item>,
    result: ParseResult<AndThenState<PState, Q, POutput, Q::State>, (POutput, QOutput)>,
    rest: Seq<Str::Item>,
) where
    Str: PeekableIterator,
    PState: Stateful<Str, POutput>,
    Q: Copy + Committed<Str, QOutput>,

    requires
        q.parser_wf(),
        then_begins::<Str, PState, Q, POutput, QOutput>(
            q,
            fst,
            input,
            Continue(next),
            Seq::empty(),
        ),
        next.resumes(second, result, rest),
    ensures
        then_begins::<Str, PState, Q, POutput, QOutput>(q, fst, input + second, result, rest),
{
    match next {
        InBetween(_, _) => {
            q.begins_sound(input, None, Seq::empty());
            lemma_empty_add(input, second);
        },
        InRhs(_, snd) => match result {
            Done((_, b)) => q.begins_joined(input, snd, second, Done(b), rest),
            Continue(InRhs(_, after)) => q.begins_joined(input, snd, second, Continue(after), rest),
            Continue(_) => {},
        },
        InLhs(_, _) => {},
    }
}

/// A sequence whose right parser is suspended yields, over any fragments,
/// the left output that it holds paired with what the right parse yields
/// over them.
pub proof fn lemma_in_rhs_feeds<Str, PState, Q, POutput, QOutput>(
    fst: POutput,
    snd: Q::State,
    frags: Seq<Seq<Str::Item>>,
    b: QOutput,
) where
    Str: PeekableIterator,
    PState: Stateful<Str, POutput>,
    Q: Copy + Committed<Str, QOutput>,

    requires
        feeds::<Str, Q::State, QOutput>(snd, frags, b),
    ensures
        feeds::<Str, AndThenState<PState, Q, POutput, Q::State>, (POutput, QOutput)>(
            InRhs(fst, snd),
            frags,
            (fst, b),
        ),
    decreases frags.len(),
{
    let state: AndThenState<PState, Q, POutput, Q::State> = InRhs(fst, snd);
    if frags.len() > 0 {
        let (result, rest) = choose|result: ParseResult<Q::State, QOutput>, rest: Seq<Str::Item>|
            #[trigger] snd.resumes(frags[0], result, rest) && match result {
                Done(o) => o == b,
                Continue(next) => rest.len() == 0 && feeds::<Str, Q::State, QOutput>(
                    next,
                    frags.skip(1),
                    b,
                ),
            };
        match result {
            Done(o) => {
                assert(state.resumes(frags[0], Done((fst, b)), rest));
            },
            Continue(next) => {
                lemma_in_rhs_feeds::<Str, PState, Q, POutput, QOutput>(
                    fst,
                    next,
                    frags.skip(1),
                    b,
                );
                assert(state.resumes(frags[0], Continue(InRhs(fst, next)), rest));
            },
        }
    }
}

/// A sequence that holds its left output and has not started its right
/// parser yields, over any fragments, that output paired with what the
/// right parser yields over them.
pub proof fn lemma_in_between_feeds<Str, PState, Q, POutput, QOutput>(
    fst: POutput,
    q: Q,
    frags: Seq<Seq<Str::Item>>,
    b: QOutput,
) where
    Str: PeekableIterator,
    PState: Stateful<Str, POutput>,
    Q: Copy + Committed<Str, QOutput>,

    requires
        q.parser_wf(),
        parses::<Str, Q, QOutput>(q, answer_of::<Str, Q, QOutput>(q), frags, b),
    ensures
        feeds::<Str, AndThenState<PState, Q, POutput, Q::State>, (POutput, QOutput)>(
            InBetween(fst, q),
            frags,
            (fst, b),
        ),
    decreases frags.len(),
{
    let state: AndThenState<PState, Q, POutput, Q::State> = InBetween(fst, q);
    if frags.len() > 0 {
        let (result, rest) = choose|
            result: Option<ParseResult<Q::State, QOutput>>,
            rest: Seq<Str::Item>,
        | #[trigger]
            q.begins(frags[0], result, rest) && match result {
                None => frags[0].len() == 0 && parses::<Str, Q, QOutput>(
                    q,
                    answer_of::<Str, Q, QOutput>(q),
                    frags.skip(1),
                    b,
                ),
                Some(Done(o)) => o == b,
                Some(Continue(next)) => rest.len() == 0 && feeds::<Str, Q::State, QOutput>(
                    next,
                    frags.skip(1),
                    b,
                ),
            };
        q.begins_sound(frags[0], result, rest);
        match result {
            None => {
                lemma_in_between_feeds::<Str, PState, Q, POutput, QOutput>(
                    fst,
                    q,
                    frags.skip(1),
                    b,
                );
                assert(state.resumes(frags[0], Continue(InBetween(fst, q)), rest));
            },
            Some(Done(o)) => {
                assert(state.resumes(frags[0], Done((fst, b)), rest));
            },
            Some(Continue(next)) => {
                lemma_in_rhs_feeds::<Str, PState, Q, POutput, QOutput>(
                    fst,
                    next,
                    frags.skip(1),
                    b,
                );
                assert(state.resumes(frags[0], Continue(InRhs(fst, next)), rest));
            },
        }
    }
}

/// A sequence inside its left parser suspends where the left parse does.
pub proof fn lemma_in_lhs_suspends<Str, PState, Q, POutput, QOutput>(
    fst: PState,
    q: Q,
    input: Seq<Str::Item>,
    next: PState,
    rest: Seq<Str::Item>,
) where
    Str: PeekableIterator,
    PState: Stateful<Str, POutput>,
    Q: Copy + Committed<Str, QOutput>,

    requires
        fst.resumes(input, Continue(next), rest),
    ensures
        (InLhs::<PState, Q, POutput, Q::State>(fst, q)).resumes(
            input,
            Continue(InLhs(next, q)),
            rest,
        ),
{
    let state = InLhs::<PState, Q, POutput, Q::State>(fst, q);
    assert(state->InLhs_0 == fst && state->InLhs_1 == q);
}

/// A sequence inside its left parser goes on to its right parser where the
/// left parse is done.
pub proof fn lemma_in_lhs_goes_on<Str, PState, Q, POutput, QOutput>(
    fst: PState,
    q: Q,
    input: Seq<Str::Item>,
    a: POutput,
    mid: Seq<Str::Item>,
    result: ParseResult<AndThenState<PState, Q, POutput, Q::State>, (POutput, QOutput)>,
    rest: Seq<Str::Item>,
) where
    Str: PeekableIterator,
    PState: Stateful<Str, POutput>,
    Q: Copy + Committed<Str, QOutput>,

    requires
        fst.resumes(input, Done(a), mid),
        then_begins::<Str, PState, Q, POutput, QOutput>(q, a, mid, result, rest),
    ensures
        (InLhs::<PState, Q, POutput, Q::State>(fst, q)).resumes(input, result, rest),
{
    let state = InLhs::<PState, Q, POutput, Q::State>(fst, q);
    assert(state->InLhs_0 == fst && state->InLhs_1 == q);
}

/// A sequence whose left parse is done over some fragments, leaving `left`
/// of the last, and whose right parser yields `b` over `left` and the
/// fragments that follow, yields the pair over all the fragments.
pub proof fn lemma_in_lhs_feeds<Str, PState, Q, POutput, QOutput>(
    fst: PState,
    q: Q,
    left_frags: Seq<Seq<Str::Item>>,
    a: POutput,
    left: Seq<Str::Item>,
    right_frags: Seq<Seq<Str::Item>>,
    b: QOutput,
) where
    Str: PeekableIterator,
    PState: Stateful<Str, POutput>,
    Q: Copy + Committed<Str, QOutput>,

    requires
        fst.state_wf(),
        q.parser_wf(),
        feeds_done::<Str, PState, POutput>(fst, left_frags, a, left),
        parses::<Str, Q, QOutput>(
            q,
            answer_of::<Str, Q, QOutput>(q),
            seq![left] + right_frags,
            b,
        ),
    ensures
        feeds::<Str, AndThenState<PState, Q, POutput, Q::State>, (POutput, QOutput)>(
            InLhs(fst, q),
            left_frags + right_frags,
            (a, b),
        ),
    decreases left_frags.len(),
{
    let state: AndThenState<PState, Q, POutput, Q::State> = InLhs(fst, q);
    let frags = left_frags + right_frags;
    assert(frags[0] == left_frags[0]);
    if left_frags.len() == 1 {
        assert(frags.skip(1) =~= right_frags);
        assert((seq![left] + right_frags).skip(1) =~= right_frags);
        lemma_in_between_feeds::<Str, PState, Q, POutput, QOutput>(
            a,
            q,
            seq![left] + right_frags,
            b,
        );
        let held: AndThenState<PState, Q, POutput, Q::State> = InBetween(a, q);
        let (result, rest) = choose|
            result: ParseResult<AndThenState<PState, Q, POutput, Q::State>, (POutput, QOutput)>,
            rest: Seq<Str::Item>,
        | #[trigger]
            held.resumes(left, result, rest) && match result {
                Done(o) => o == (a, b),
                Continue(next) => rest.len() == 0 && feeds::<Str, AndThenState<PState, Q, POutput, Q::State>, (POutput, QOutput)>(
                    next,
                    right_frags,
                    (a, b),
                ),
            };
        lemma_in_lhs_goes_on::<Str, PState, Q, POutput, QOutput>(
            fst,
            q,
            frags[0],
            a,
            left,
            result,
            rest,
        );
    } else {
        let tail = left_frags.skip(1);
        let next = choose|next: PState| #[trigger]
            fst.resumes(left_frags[0], Continue(next), Seq::empty()) && feeds_done::<
                Str,
                PState,
                POutput,
            >(next, tail, a, left);
        fst.resumes_sound(left_frags[0], Continue(next), Seq::empty());
        lemma_in_lhs_feeds::<Str, PState, Q, POutput, QOutput>(
            next,
            q,
            tail,
            a,
            left,
            right_frags,
            b,
        );
        assert(frags.skip(1) =~= tail + right_frags);
        lemma_in_lhs_suspends::<Str, PState, Q, POutput, QOutput>(
            fst,
            q,
            frags[0],
            next,
            Seq::empty(),
        );
    }
}

impl<PState, Q, POutput, Str, QOutput> Stateful<Str, (POutput, QOutput)> for AndThenState<
    PState,
    Q,
    POutput,
    Q::State,
> where Str: PeekableIterator, PState: Stateful<Str, POutput>, Q: Copy + Committed<Str, QOutput> {
    open spec fn state_wf(self) -> bool {
        match self {
            InLhs(fst, snd) => fst.state_wf() && snd.parser_wf() && snd.answer_wf(),
            InBetween(_, snd) => snd.parser_wf() && snd.answer_wf(),
            InRhs(_, snd) => snd.state_wf(),
        }
    }

    open spec fn resumes(
        self,
        input: Seq<Str::Item>,
        result: ParseResult<Self, (POutput, QOutput)>,
        rest: Seq<Str::Item>,
    ) -> bool {
        match self {
            InLhs(fst, snd) => {
                ||| exists|next: PState|
                    result == Continue::<Self, (POutput, QOutput)>(InLhs(next, snd))
                        && #[trigger] fst.resumes(input, Continue(next), rest)
                ||| exists|a: POutput, mid: Seq<Str::Item>|
                    #[trigger] fst.resumes(input, Done(a), mid) && then_begins::<
                        Str,
                        PState,
                        Q,
                        POutput,
                        QOutput,
                    >(snd, a, mid, result, rest)
            },
            InBetween(fst, snd) => then_begins::<Str, PState, Q, POutput, QOutput>(
                snd,
                fst,
                input,
                result,
                rest,
            ),
            InRhs(fst, snd) => match result {
                Done((a, b)) => a == fst && snd.resumes(input, Done(b), rest),
                Continue(InRhs(a, next)) => a == fst && snd.resumes(input, Continue(next), rest),
                Continue(_) => false,
            },
        }
    }

    open spec fn finishes(self, out: (POutput, QOutput)) -> bool {
        match self {
            InLhs(fst, snd) => fst.finishes(out.0) && snd.answers(out.1),
            InBetween(fst, snd) => out.0 == fst && snd.answers(out.1),
            InRhs(fst, snd) => out.0 == fst && snd.finishes(out.1),
        }
    }

    proof fn resumes_sound(
        self,
        input: Seq<Str::Item>,
        result: ParseResult<Self, (POutput, QOutput)>,
        rest: Seq<Str::Item>,
    ) {
        match self {
            InLhs(fst, snd) => {
                if exists|next: PState|
                    result == Continue::<Self, (POutput, QOutput)>(InLhs(next, snd))
                        && #[trigger] fst.resumes(input, Continue(next), rest) {
                    let next = choose|next: PState|
                        result == Continue::<Self, (POutput, QOutput)>(InLhs(next, snd))
                            && #[trigger] fst.resumes(input, Continue(next), rest);
                    fst.resumes_sound(input, Continue(next), rest);
                } else {
                    let (a, mid) = choose|a: POutput, mid: Seq<Str::Item>|
                        #[trigger] fst.resumes(input, Done(a), mid) && then_begins::<
                            Str,
                            PState,
                            Q,
                            POutput,
                            QOutput,
                        >(snd, a, mid, result, rest);
                    fst.resumes_sound(input, Done(a), mid);
                    lemma_then_begins_sound::<Str, PState, Q, POutput, QOutput>(
                        snd,
                        a,
                        mid,
                        result,
                        rest,
                    );
                    lemma_suffix_trans(rest, mid, input);
                }
            },
            InBetween(fst, snd) => {
                lemma_then_begins_sound::<Str, PState, Q, POutput, QOutput>(
                    snd,
                    fst,
                    input,
                    result,
                    rest,
                );
            },
            InRhs(fst, snd) => match result {
                Done((a, b)) => snd.resumes_sound(input, Done(b), rest),
                Continue(InRhs(a, next)) => snd.resumes_sound(input, Continue(next), rest),
                Continue(_) => {},
            },
        }
    }

    proof fn resumes_prolonged(
        self,
        first: Seq<Str::Item>,
        second: Seq<Str::Item>,
        result: ParseResult<Self, (POutput, QOutput)>,
        rest: Seq<Str::Item>,
    ) {
        let whole = rest;
        if exists|next: Self| #[trigger]
            self.resumes(first, Continue(next), Seq::empty()) && next.resumes(
                second,
                result,
                whole,
            ) {
            let next = choose|next: Self| #[trigger]
                self.resumes(first, Continue(next), Seq::empty()) && next.resumes(
                    second,
                    result,
                    whole,
                );
            let empty = Seq::<Str::Item>::empty();
            let suspended = Continue::<Self, (POutput, QOutput)>(next);
            match self {
                InLhs(fst, snd) => {
                    if exists|n: PState|
                        suspended == Continue::<Self, (POutput, QOutput)>(InLhs(n, snd))
                            && #[trigger] fst.resumes(first, Continue(n), empty) {
                        let n = choose|n: PState|
                            suspended == Continue::<Self, (POutput, QOutput)>(InLhs(n, snd))
                                && #[trigger] fst.resumes(first, Continue(n), empty);
                        if exists|after: PState|
                            result == Continue::<Self, (POutput, QOutput)>(InLhs(after, snd))
                                && #[trigger] n.resumes(second, Continue(after), rest) {
                            let after = choose|after: PState|
                                result == Continue::<Self, (POutput, QOutput)>(InLhs(after, snd))
                                    && #[trigger] n.resumes(second, Continue(after), rest);
                            fst.resumes_joined(first, n, second, Continue(after), rest);
                        } else {
                            let (a, mid) = choose|a: POutput, mid: Seq<Str::Item>|
                                #[trigger] n.resumes(second, Done(a), mid) && then_begins::<Str, PState, Q, POutput, QOutput>(
                                    snd,
                                    a,
                                    mid,
                                    result,
                                    rest,
                                );
                            fst.resumes_joined(first, n, second, Done(a), mid);
                        }
                    } else {
                        let (a, mid) = choose|a: POutput, mid: Seq<Str::Item>|
                            #[trigger] fst.resumes(first, Done(a), mid) && then_begins::<Str, PState, Q, POutput, QOutput>(
                                snd,
                                a,
                                mid,
                                suspended,
                                empty,
                            );
                        fst.resumes_extended(first, a, mid, second);
                        lemma_then_begins_joined::<Str, PState, Q, POutput, QOutput>(
                            snd,
                            a,
                            mid,
                            next,
                            second,
                            result,
                            rest,
                        );
                    }
                },
                InBetween(fst, snd) => lemma_then_begins_joined::<Str, PState, Q, POutput, QOutput>(
                    snd,
                    fst,
                    first,
                    next,
                    second,
                    result,
                    rest,
                ),
                InRhs(fst, snd) => match (next, result) {
                    (InRhs(_, n), Done((_, b))) => snd.resumes_joined(
                        first,
                        n,
                        second,
                        Done(b),
                        rest,
                    ),
                    (InRhs(_, n), Continue(InRhs(_, after))) => snd.resumes_joined(
                        first,
                        n,
                        second,
                        Continue(after),
                        rest,
                    ),
                    _ => {},
                },
            }
        } else {
            match result {
                Done(out) => {
                    let rest = choose|left: Seq<Str::Item>| #[trigger]
                        self.resumes(first, result, left) && whole == left + second;
                    let r = Done::<Self, (POutput, QOutput)>(out);
                    match self {
                        InLhs(fst, snd) => {
                            let (a, mid) = choose|a: POutput, mid: Seq<Str::Item>|
                                #[trigger] fst.resumes(first, Done(a), mid) && then_begins::<Str, PState, Q, POutput, QOutput>(snd, a, mid, r, rest);
                            fst.resumes_extended(first, a, mid, second);
                            lemma_then_begins_extended::<Str, PState, Q, POutput, QOutput>(
                                snd,
                                a,
                                mid,
                                out,
                                rest,
                                second,
                            );
                        },
                        InBetween(fst, snd) => lemma_then_begins_extended::<Str, PState, Q, POutput, QOutput>(
                            snd,
                            fst,
                            first,
                            out,
                            rest,
                            second,
                        ),
                        InRhs(fst, snd) => snd.resumes_extended(first, out.1, rest, second),
                    }
                },
                Continue(_) => {},
            }
        }
    }

    fn more(self, string: &mut Str) -> (result: ParseResult<Self, (POutput, QOutput)>) {
        match self {
            InLhs(fst, snd) => {
                match fst.more(string) {
                    Done(a) => begin_rhs::<Str, PState, Q, POutput, QOutput>(snd, a, string),
                    Continue(next) => Continue(InLhs(next, snd)),
                }
            },
            InBetween(fst, snd) => begin_rhs::<Str, PState, Q, POutput, QOutput>(snd, fst, string),
            InRhs(fst, snd) => {
                match snd.more(string) {
                    Done(b) => Done((fst, b)),
                    Continue(next) => Continue(InRhs(fst, next)),
                }
            },
        }
    }

    fn done(self) -> (out: (POutput, QOutput)) {
        match self {
            InLhs(fst, snd) => (fst.done(), snd.empty()),
            InBetween(fst, snd) => (fst, snd.empty()),
            InRhs(fst, snd) => (fst, snd.done()),
        }
    }
}

impl<P, Q, Str> HasOutput<Str> for AndThen<P, Q> where P: HasOutput<Str>, Q: HasOutput<Str> {
    type Output = (P::Output, Q::Output);
}

impl<PState, Q, POutput, QState, Str> HasOutput<Str> for AndThenState<
    PState,
    Q,
    POutput,
    QState,
> where PState: HasOutput<Str>, Q: HasOutput<Str> {
    type Output = (PState::Output, Q::Output);
}

impl<P, Q> AndThen<P, Q> {
    pub fn new(p: P, q: Q) -> (parser: Self)
        ensures
            parser.0 == p,
            parser.1 == q,
    {
        AndThen(p, q)
    }
}

impl<P, Q, Str, POutput, QOutput> Uncommitted<Str, (POutput, QOutput)> for AndThen<P, Q> where
    Str: PeekableIterator,
    P: Uncommitted<Str, POutput>,
    Q: Copy + Committed<Str, QOutput>,
 {
    type State = AndThenState<P::State, Q, POutput, Q::State>;

    open spec fn parser_wf(&self) -> bool {
        self.0.parser_wf() && self.1.parser_wf() && self.1.answer_wf()
    }

    open spec fn begins(
        &self,
        input: Seq<Str::Item>,
        result: Option<ParseResult<Self::State, (POutput, QOutput)>>,
        rest: Seq<Str::Item>,
    ) -> bool {
        match result {
            None => self.0.begins(input, None, rest),
            Some(r) => {
                ||| exists|next: P::State|
                    r == Continue::<Self::State, (POutput, QOutput)>(InLhs(next, self.1))
                        && #[trigger] self.0.begins(input, Some(Continue(next)), rest)
                ||| exists|a: POutput, mid: Seq<Str::Item>|
                    #[trigger] self.0.begins(input, Some(Done(a)), mid) && then_begins::<
                        Str,
                        P::State,
                        Q,
                        POutput,
                        QOutput,
                    >(self.1, a, mid, r, rest)
            },
        }
    }

    proof fn begins_sound(
        &self,
        input: Seq<Str::Item>,
        result: Option<ParseResult<Self::State, (POutput, QOutput)>>,
        rest: Seq<Str::Item>,
    ) {
        match result {
            None => self.0.begins_sound(input, None, rest),
            Some(r) => {
                if exists|next: P::State|
                    r == Continue::<Self::State, (POutput, QOutput)>(InLhs(next, self.1))
                        && #[trigger] self.0.begins(input, Some(Continue(next)), rest) {
                    let next = choose|next: P::State|
                        r == Continue::<Self::State, (POutput, QOutput)>(InLhs(next, self.1))
                            && #[trigger] self.0.begins(input, Some(Continue(next)), rest);
                    self.0.begins_sound(input, Some(Continue(next)), rest);
                } else {
                    let (a, mid) = choose|a: POutput, mid: Seq<Str::Item>|
                        #[trigger] self.0.begins(input, Some(Done(a)), mid) && then_begins::<
                            Str,
                            P::State,
                            Q,
                            POutput,
                            QOutput,
                        >(self.1, a, mid, r, rest);
                    self.0.begins_sound(input, Some(Done(a)), mid);
                    lemma_then_begins_sound::<Str, P::State, Q, POutput, QOutput>(
                        self.1,
                        a,
                        mid,
                        r,
                        rest,
                    );
                    lemma_suffix_trans(rest, mid, input);
                }
            },
        }
    }

    proof fn begins_prolonged(
        &self,
        first: Seq<Str::Item>,
        second: Seq<Str::Item>,
        result: Option<ParseResult<Self::State, (POutput, QOutput)>>,
        rest: Seq<Str::Item>,
    ) {
        let whole = rest;
        match result {
            None => {
                let rest = first;
                self.0.begins_sound(first, None, rest);
                self.0.declines_extended(first, rest, second);
            },
            Some(then) => {
                if exists|next: Self::State| #[trigger]
                    self.begins(first, Some(Continue(next)), Seq::empty()) && next.resumes(
                        second,
                        then,
                        whole,
                    ) {
                    let next = choose|next: Self::State| #[trigger]
                        self.begins(first, Some(Continue(next)), Seq::empty()) && next.resumes(
                            second,
                            then,
                            whole,
                        );
                    let result = then;
                    let empty = Seq::<Str::Item>::empty();
                    let suspended = Continue::<Self::State, (POutput, QOutput)>(next);
                    if exists|n: P::State|
                        suspended == Continue::<Self::State, (POutput, QOutput)>(InLhs(n, self.1))
                            && #[trigger] self.0.begins(first, Some(Continue(n)), empty) {
                        let n = choose|n: P::State|
                            suspended == Continue::<Self::State, (POutput, QOutput)>(
                                InLhs(n, self.1),
                            )
                                && #[trigger] self.0.begins(first, Some(Continue(n)), empty);
                        if exists|after: P::State|
                            result == Continue::<Self::State, (POutput, QOutput)>(
                                InLhs(after, self.1),
                            )
                                && #[trigger] n.resumes(second, Continue(after), rest) {
                            let after = choose|after: P::State|
                                result == Continue::<Self::State, (POutput, QOutput)>(
                                    InLhs(after, self.1),
                                )
                                    && #[trigger] n.resumes(second, Continue(after), rest);
                            self.0.begins_joined(first, n, second, Continue(after), rest);
                        } else {
                            let (a, mid) = choose|a: POutput, mid: Seq<Str::Item>|
                                #[trigger] n.resumes(second, Done(a), mid) && then_begins::<Str, P::State, Q, POutput, QOutput>(self.1, a, mid, result, rest);
                            self.0.begins_joined(first, n, second, Done(a), mid);
                        }
                    } else {
                        let (a, mid) = choose|a: POutput, mid: Seq<Str::Item>|
                            #[trigger] self.0.begins(first, Some(Done(a)), mid) && then_begins::<Str, P::State, Q, POutput, QOutput>(
                                self.1,
                                a,
                                mid,
                                suspended,
                                empty,
                            );
                        self.0.begins_extended(first, a, mid, second);
                        lemma_then_begins_joined::<Str, P::State, Q, POutput, QOutput>(
                            self.1,
                            a,
                            mid,
                            next,
                            second,
                            result,
                            rest,
                        );
                    }
                } else {
                    match then {
                        Done(out) => {
                            let rest = choose|left: Seq<Str::Item>| #[trigger]
                                self.begins(first, result, left) && whole == left + second;
                            let r = Done::<Self::State, (POutput, QOutput)>(out);
                            let (a, mid) = choose|a: POutput, mid: Seq<Str::Item>|
                                #[trigger] self.0.begins(first, Some(Done(a)), mid) && then_begins::<
                                    Str,
                                    P::State,
                                    Q,
                                    POutput,
                                    QOutput,
                                >(self.1, a, mid, r, rest);
                            self.0.begins_extended(first, a, mid, second);
                            self.1.begins_extended(mid, out.1, rest, second);
                            assert(then_begins::<Str, P::State, Q, POutput, QOutput>(
                                self.1,
                                a,
                                mid + second,
                                r,
                                rest + second,
                            ));
                        },
                        Continue(_) => {},
                    }
                }
            },
        }
    }

    fn init(&self, string: &mut Str) -> (result: Option<
        ParseResult<Self::State, (POutput, QOutput)>,
    >) {
        match self.0.init(string) {
            None => None,
            Some(Done(a)) => Some(
                begin_rhs::<Str, P::State, Q, POutput, QOutput>(self.1, a, string),
            ),
            Some(Continue(next)) => Some(Continue(InLhs(next, self.1))),
        }
    }
}

impl<P, Q, Str, POutput, QOutput> Committed<Str, (POutput, QOutput)> for AndThen<P, Q> where
    Str: PeekableIterator,
    P: Committed<Str, POutput>,
    Q: Copy + Committed<Str, QOutput>,
 {
    open spec fn answer_wf(&self) -> bool {
        self.0.answer_wf()
    }

    open spec fn answers(&self, out: (POutput, QOutput)) -> bool {
        self.0.answers(out.0) && self.1.answers(out.1)
    }

    fn empty(&self) -> (out: (POutput, QOutput)) {
        (self.0.empty(), self.1.empty())
    }
}

/// Where `p` is done over some fragments with the output `a`, leaving
/// `left` of the last of them, and `q` yields `b` over `left` and the
/// fragments that follow, the sequence of `p` and `q` yields `(a, b)` over
/// all the fragments, wherever they are cut.
pub proof fn lemma_and_then_sequence<Str, P, Q, POutput, QOutput>(
    parser: AndThen<P, Q>,
    left_frags: Seq<Seq<Str::Item>>,
    a: POutput,
    left: Seq<Str::Item>,
    right_frags: Seq<Seq<Str::Item>>,
    b: QOutput,
) where Str: PeekableIterator, P: Uncommitted<Str, POutput>, Q: Copy + Committed<Str, QOutput>
    requires
        parser.parser_wf(),
        parses_done::<Str, P, POutput>(parser.0, left_frags, a, left),
        parses::<Str, Q, QOutput>(
            parser.1,
            answer_of::<Str, Q, QOutput>(parser.1),
            seq![left] + right_frags,
            b,
        ),
    ensures
        parses::<Str, AndThen<P, Q>, (POutput, QOutput)>(
            parser,
            no_answer(),
            left_frags + right_frags,
            (a, b),
        ),
    decreases left_frags.len(),
{
    let p = parser.0;
    let q = parser.1;
    let frags = left_frags + right_frags;
    let empty = Seq::<Str::Item>::empty();
    assert(frags[0] == left_frags[0]);
    if left_frags.len() == 1 {
        assert(frags.skip(1) =~= right_frags);
        assert((seq![left] + right_frags).skip(1) =~= right_frags);
        lemma_in_between_feeds::<Str, P::State, Q, POutput, QOutput>(
            a,
            q,
            seq![left] + right_frags,
            b,
        );
        let held: AndThenState<P::State, Q, POutput, Q::State> = InBetween(a, q);
        let (result, rest) = choose|
            result: ParseResult<AndThenState<P::State, Q, POutput, Q::State>, (POutput, QOutput)>,
            rest: Seq<Str::Item>,
        | #[trigger]
            held.resumes(left, result, rest) && match result {
                Done(o) => o == (a, b),
                Continue(next) => rest.len() == 0 && feeds::<
                    Str,
                    AndThenState<P::State, Q, POutput, Q::State>,
                    (POutput, QOutput),
                >(next, right_frags, (a, b)),
            };
        assert(p.begins(frags[0], Some(Done(a)), left) && then_begins::<
            Str,
            P::State,
            Q,
            POutput,
            QOutput,
        >(q, a, left, result, rest));
        assert(parser.begins(frags[0], Some(result), rest));
    } else {
        let tail = left_frags.skip(1);
        assert(frags.skip(1) =~= tail + right_frags);
        if left_frags[0].len() == 0 && p.begins(left_frags[0], None, left_frags[0])
            && parses_done::<Str, P, POutput>(p, tail, a, left) {
            lemma_and_then_sequence::<Str, P, Q, POutput, QOutput>(
                parser,
                tail,
                a,
                left,
                right_frags,
                b,
            );
            assert(parser.begins(frags[0], None, frags[0]));
        } else {
            let next = choose|next: P::State| #[trigger]
                p.begins(left_frags[0], Some(Continue(next)), empty) && feeds_done::<
                    Str,
                    P::State,
                    POutput,
                >(next, tail, a, left);
            p.begins_sound(left_frags[0], Some(Continue(next)), empty);
            lemma_in_lhs_feeds::<Str, P::State, Q, POutput, QOutput>(
                next,
                q,
                tail,
                a,
                left,
                right_frags,
                b,
            );
            let state: AndThenState<P::State, Q, POutput, Q::State> = InLhs(next, q);
            assert(parser.begins(frags[0], Some(Continue(state)), empty));
        }
    }
}

} // verus!
