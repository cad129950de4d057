//! Parsing a whole input that arrives in fragments: what a parse over a
//! sequence of fragments may yield, and the proof that it yields nothing
//! that the parse of the same input in one fragment could not yield.

use vstd::prelude::*;
use crate::contract::{
    lemma_empty_add, Committed, ParseResult, PeekableIterator, Stateful, Uncommitted,
};
use crate::contract::ParseResult::{Continue, Done};

verus! {

/// The fragments joined, in order.
pub open spec fn joined<T>(frags: Seq<Seq<T>>) -> Seq<T>
    decreases frags.len(),
{
    if frags.len() == 0 {
        Seq::empty()
    } else {
        frags[0] + joined(frags.skip(1))
    }
}

/// One fragment joined is the fragment.
pub proof fn lemma_joined_one<T>(frags: Seq<Seq<T>>)
    requires
        frags.len() == 1,
    ensures
        joined(frags) == frags[0],
        frags == seq![frags[0]],
{
    assert(joined(frags.skip(1)) == Seq::<T>::empty());
    lemma_empty_add(Seq::<T>::empty(), frags[0]);
    assert(frags =~= seq![frags[0]]);
}

/// The state `s` is handed the fragments one after the other and, if it is
/// still suspended after the last, is finished; `out` is the output.
///
/// The parse goes on to the next fragment only where it suspended with the
/// fragment used up. Once it is done, the fragments that follow are not
/// looked at.
pub open spec fn feeds<Str, S, O>(s: S, frags: Seq<Seq<Str::Item>>, out: O) -> bool where
    Str: PeekableIterator,
    S: Stateful<Str, O>,

    decreases frags.len(),
{
    if frags.len() == 0 {
        s.finishes(out)
    } else {
        exists|result: ParseResult<S, O>, rest: Seq<Str::Item>| #[trigger]
            s.resumes(frags[0], result, rest) && match result {
                Done(o) => o == out,
                Continue(next) => rest.len() == 0 && feeds::<Str, S, O>(next, frags.skip(1), out),
            }
    }
}

/// The parser `p` is started on the fragments one after the other; `out`
/// is the output.
///
/// A fragment without tokens that the parser declines is passed over, and
/// the parser is started again on the next. Where the fragments run out
/// before the parser has started, `at_end` says what the output may be:
/// nothing for a parser that may decline, its answer for one that cannot.
pub open spec fn parses<Str, P, O>(
    p: P,
    at_end: spec_fn(O) -> bool,
    frags: Seq<Seq<Str::Item>>,
    out: O,
) -> bool where Str: PeekableIterator, P: Uncommitted<Str, O>
    decreases frags.len(),
{
    if frags.len() == 0 {
        at_end(out)
    } else {
        exists|result: Option<ParseResult<P::State, O>>, rest: Seq<Str::Item>| #[trigger]
            p.begins(frags[0], result, rest) && match result {
                None => frags[0].len() == 0 && parses::<Str, P, O>(
                    p,
                    at_end,
                    frags.skip(1),
                    out,
                ),
                Some(Done(o)) => o == out,
                Some(Continue(next)) => rest.len() == 0 && feeds::<Str, P::State, O>(
                    next,
                    frags.skip(1),
                    out,
                ),
            }
    }
}

/// What is allowed as the output of a parser that never got to start, where
/// the parser cannot say what its output is then: nothing.
pub open spec fn no_answer<O>() -> spec_fn(O) -> bool {
    |out: O| false
}

/// What is allowed as the output of a parser that never got to start, where
/// the parser can say what its output is then: what it answers.
pub open spec fn answer_of<Str, P, O>(p: P) -> spec_fn(O) -> bool where
    Str: PeekableIterator,
    P: Committed<Str, O>,
 {
    |out: O| p.answers(out)
}

/// The state `s` is handed the fragments one after the other, suspends
/// with each but the last used up, and is done within the last with the
/// output `out`, leaving `left` of it.
pub open spec fn feeds_done<Str, S, O>(
    s: S,
    frags: Seq<Seq<Str::Item>>,
    out: O,
    left: Seq<Str::Item>,
) -> bool where Str: PeekableIterator, S: Stateful<Str, O>
    decreases frags.len(),
{
    if frags.len() == 0 {
        false
    } else if frags.len() == 1 {
        s.resumes(frags[0], Done(out), left)
    } else {
        exists|next: S| #[trigger]
            s.resumes(frags[0], Continue(next), Seq::empty()) && feeds_done::<Str, S, O>(
                next,
                frags.skip(1),
                out,
                left,
            )
    }
}

/// The parser `p` is started on the fragments one after the other and is
/// done within the last with the output `out`, leaving `left` of it.
pub open spec fn parses_done<Str, P, O>(
    p: P,
    frags: Seq<Seq<Str::Item>>,
    out: O,
    left: Seq<Str::Item>,
) -> bool where Str: PeekableIterator, P: Uncommitted<Str, O>
    decreases frags.len(),
{
    if frags.len() == 0 {
        false
    } else if frags.len() == 1 {
        p.begins(frags[0], Some(Done(out)), left)
    } else {
        ||| frags[0].len() == 0 && p.begins(frags[0], None, frags[0]) && parses_done::<Str, P, O>(
            p,
            frags.skip(1),
            out,
            left,
        )
        ||| exists|next: P::State| #[trigger]
            p.begins(frags[0], Some(Continue(next)), Seq::empty()) && feeds_done::<
                Str,
                P::State,
                O,
            >(next, frags.skip(1), out, left)
    }
}

/// A parse in progress that is done over several fragments, leaving some
/// of the last, may be done in the same way, leaving the same, over the
/// fragments joined.
pub proof fn lemma_feeds_done_joined<Str, S, O>(
    s: S,
    frags: Seq<Seq<Str::Item>>,
    out: O,
    left: Seq<Str::Item>,
) where Str: PeekableIterator, S: Stateful<Str, O>
    requires
        s.state_wf(),
        feeds_done::<Str, S, O>(s, frags, out, left),
    ensures
        s.resumes(joined(frags), Done(out), left),
    decreases frags.len(),
{
    if frags.len() == 1 {
        lemma_joined_one(frags);
    } else {
        let tail = frags.skip(1);
        let next = choose|next: S| #[trigger]
            s.resumes(frags[0], Continue(next), Seq::empty()) && feeds_done::<Str, S, O>(
                next,
                tail,
                out,
                left,
            );
        s.resumes_sound(frags[0], Continue(next), Seq::empty());
        lemma_feeds_done_joined::<Str, S, O>(next, tail, out, left);
        s.resumes_joined(frags[0], next, joined(tail), Done(out), left);
    }
}

/// A parser that is done over several fragments, leaving some of the last,
/// may be done in the same way, leaving the same, over the fragments
/// joined.
pub proof fn lemma_parses_done_joined<Str, P, O>(
    p: P,
    frags: Seq<Seq<Str::Item>>,
    out: O,
    left: Seq<Str::Item>,
) where Str: PeekableIterator, P: Uncommitted<Str, O>
    requires
        p.parser_wf(),
        parses_done::<Str, P, O>(p, frags, out, left),
    ensures
        p.begins(joined(frags), Some(Done(out)), left),
    decreases frags.len(),
{
    if frags.len() == 1 {
        lemma_joined_one(frags);
    } else {
        let tail = frags.skip(1);
        if frags[0].len() == 0 && p.begins(frags[0], None, frags[0]) && parses_done::<Str, P, O>(
            p,
            tail,
            out,
            left,
        ) {
            lemma_parses_done_joined::<Str, P, O>(p, tail, out, left);
            lemma_empty_add(frags[0], joined(tail));
        } else {
            let next = choose|next: P::State| #[trigger]
                p.begins(frags[0], Some(Continue(next)), Seq::empty()) && feeds_done::<
                    Str,
                    P::State,
                    O,
                >(next, tail, out, left);
            p.begins_sound(frags[0], Some(Continue(next)), Seq::empty());
            lemma_feeds_done_joined::<Str, P::State, O>(next, tail, out, left);
            p.begins_joined(frags[0], next, joined(tail), Done(out), left);
        }
    }
}

/// How the input is cut into fragments does not matter to a parse in
/// progress: an output that it may yield over the fragments, it may yield
/// over the same input in one fragment.
pub proof fn lemma_feeds_joined<Str, S, O>(s: S, frags: Seq<Seq<Str::Item>>, out: O) where
    Str: PeekableIterator,
    S: Stateful<Str, O>,

    requires
        s.state_wf(),
        frags.len() >= 1,
        feeds::<Str, S, O>(s, frags, out),
    ensures
        feeds::<Str, S, O>(s, seq![joined(frags)], out),
    decreases frags.len(),
{
    if frags.len() == 1 {
        lemma_joined_one(frags);
    } else {
        let tail = frags.skip(1);
        let whole = seq![joined(frags)];
        let (result, rest) = choose|result: ParseResult<S, O>, rest: Seq<Str::Item>| #[trigger]
            s.resumes(frags[0], result, rest) && match result {
                Done(o) => o == out,
                Continue(next) => rest.len() == 0 && feeds::<Str, S, O>(next, tail, out),
            };
        match result {
            Done(o) => {
                s.resumes_extended(frags[0], o, rest, joined(tail));
                assert(s.resumes(whole[0], Done(o), rest + joined(tail)));
            },
            Continue(next) => {
                assert(rest =~= Seq::empty());
                s.resumes_sound(frags[0], result, rest);
                lemma_feeds_joined::<Str, S, O>(next, tail, out);
                let one = seq![joined(tail)];
                let (then, left) = choose|then: ParseResult<S, O>, left: Seq<Str::Item>|
                    #[trigger] next.resumes(one[0], then, left) && match then {
                        Done(o) => o == out,
                        Continue(after) => left.len() == 0 && feeds::<Str, S, O>(
                            after,
                            one.skip(1),
                            out,
                        ),
                    };
                s.resumes_joined(frags[0], next, joined(tail), then, left);
                assert(one.skip(1) =~= whole.skip(1));
                assert(s.resumes(whole[0], then, left));
            },
        }
    }
}

/// How the input is cut into fragments does not matter to a parser: an
/// output that it may yield over the fragments, it may yield over the same
/// input in one fragment.
pub proof fn lemma_parses_joined<Str, P, O>(
    p: P,
    at_end: spec_fn(O) -> bool,
    frags: Seq<Seq<Str::Item>>,
    out: O,
) where Str: PeekableIterator, P: Uncommitted<Str, O>
    requires
        p.parser_wf(),
        frags.len() >= 1,
        parses::<Str, P, O>(p, at_end, frags, out),
    ensures
        parses::<Str, P, O>(p, at_end, seq![joined(frags)], out),
    decreases frags.len(),
{
    if frags.len() == 1 {
        lemma_joined_one(frags);
    } else {
        let tail = frags.skip(1);
        let whole = seq![joined(frags)];
        let (result, rest) = choose|
            result: Option<ParseResult<P::State, O>>,
            rest: Seq<Str::Item>,
        | #[trigger]
            p.begins(frags[0], result, rest) && match result {
                None => frags[0].len() == 0 && parses::<Str, P, O>(p, at_end, tail, out),
                Some(Done(o)) => o == out,
                Some(Continue(next)) => rest.len() == 0 && feeds::<Str, P::State, O>(
                    next,
                    tail,
                    out,
                ),
            };
        match result {
            None => {
                lemma_parses_joined::<Str, P, O>(p, at_end, tail, out);
                lemma_empty_add(frags[0], joined(tail));
                assert(whole =~= seq![joined(tail)]);
            },
            Some(Done(o)) => {
                p.begins_extended(frags[0], o, rest, joined(tail));
                assert(p.begins(whole[0], Some(Done(o)), rest + joined(tail)));
            },
            Some(Continue(next)) => {
                assert(rest =~= Seq::empty());
                p.begins_sound(frags[0], result, rest);
                lemma_feeds_joined::<Str, P::State, O>(next, tail, out);
                let one = seq![joined(tail)];
                let (then, left) = choose|
                    then: ParseResult<P::State, O>,
                    left: Seq<Str::Item>,
                |
                    #[trigger] next.resumes(one[0], then, left) && match then {
                        Done(o) => o == out,
                        Continue(after) => left.len() == 0 && feeds::<Str, P::State, O>(
                            after,
                            one.skip(1),
                            out,
                        ),
                    };
                p.begins_joined(frags[0], next, joined(tail), then, left);
                assert(one.skip(1) =~= whole.skip(1));
                assert(p.begins(whole[0], Some(then), left));
            },
        }
    }
}

/// The state `s` is handed the fragments one after the other, suspends
/// with each of them used up, and is left as `last`.
pub open spec fn feeds_through<Str, S, O>(s: S, frags: Seq<Seq<Str::Item>>, last: S) -> bool where
    Str: PeekableIterator,
    S: Stateful<Str, O>,

    decreases frags.len(),
{
    if frags.len() == 0 {
        last == s
    } else {
        exists|next: S| #[trigger]
            s.resumes(frags[0], Continue(next), Seq::empty()) && feeds_through::<Str, S, O>(
                next,
                frags.skip(1),
                last,
            )
    }
}

/// A parse in progress that suspends with each of several fragments used
/// up may suspend in the same state with the fragments joined used up.
pub proof fn lemma_feeds_through_joined<Str, S, O>(s: S, frags: Seq<Seq<Str::Item>>, last: S) where
    Str: PeekableIterator,
    S: Stateful<Str, O>,

    requires
        s.state_wf(),
        frags.len() >= 1,
        feeds_through::<Str, S, O>(s, frags, last),
    ensures
        s.resumes(joined(frags), Continue(last), Seq::empty()),
        last.state_wf(),
    decreases frags.len(),
{
    let tail = frags.skip(1);
    let next = choose|next: S| #[trigger]
        s.resumes(frags[0], Continue(next), Seq::empty()) && feeds_through::<Str, S, O>(
            next,
            tail,
            last,
        );
    s.resumes_sound(frags[0], Continue(next), Seq::empty());
    if frags.len() == 1 {
        lemma_joined_one(frags);
    } else {
        lemma_feeds_through_joined::<Str, S, O>(next, tail, last);
        s.resumes_joined(frags[0], next, joined(tail), Continue(last), Seq::empty());
    }
}

} // verus!