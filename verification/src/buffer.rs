//! Buffering: the span of tokens that a parser matched, borrowed from the
//! fragment where the match lies within one, owned where it straddles
//! several.

use vstd::prelude::*;
use vstd::slice::slice_subrange;
use crate::contract::{
    is_suffix, lemma_empty_add, lemma_suffix_of_joined, Committed, HasOutput, ParseResult,
    PeekableIterator, Stateful, Uncommitted,
};
use crate::contract::ParseResult::{Continue, Done};
use crate::fragments::{feeds_done, feeds_through, joined, lemma_joined_one, parses_done};
use crate::stream::Stream;

verus! {

/// A run of characters, either borrowed from the input or owned.
#[derive(Clone, Debug)]
pub enum Span<'a> {
    Borrowed(&'a [char]),
    Owned(Vec<char>),
}

impl<'a> View for Span<'a> {
    type V = Seq<char>;

    open spec fn view(&self) -> Seq<char> {
        match self {
            Span::Borrowed(slice) => slice@,
            Span::Owned(buffer) => buffer@,
        }
    }
}

impl<'a> Span<'a> {
    /// The characters of the span.
    pub fn as_slice(&self) -> (slice: &[char])
        ensures
            slice@ == self@,
    {
        match self {
            Span::Borrowed(slice) => slice,
            Span::Owned(buffer) => buffer.as_slice(),
        }
    }

    /// The span in an owned buffer: the buffer itself where the span owns
    /// one, a copy of the borrowed characters where it does not.
    pub fn into_owned(self) -> (buffer: Vec<char>)
        ensures
            buffer@ == self@,
    {
        match self {
            Span::Borrowed(slice) => {
                let mut buffer = Vec::new();
                append(&mut buffer, slice);
                buffer
            },
            Span::Owned(buffer) => buffer,
        }
    }
}

/// The tokens that were taken from the front of `input` to leave `rest`.
pub open spec fn consumed<T>(input: Seq<T>, rest: Seq<T>) -> Seq<T> {
    input.take(input.len() - rest.len())
}

/// What was taken from a fragment does not depend on what follows it.
pub proof fn lemma_consumed_extended<T>(first: Seq<T>, rest: Seq<T>, second: Seq<T>)
    requires
        is_suffix(rest, first),
    ensures
        consumed(first + second, rest + second) == consumed(first, rest),
{
    assert(consumed(first + second, rest + second) =~= consumed(first, rest));
}

/// What was taken from two fragments, of which the first was taken whole,
/// is what was taken from the two joined.
pub proof fn lemma_consumed_joined<T>(first: Seq<T>, second: Seq<T>, rest: Seq<T>)
    requires
        is_suffix(rest, second),
    ensures
        consumed(first, Seq::empty()) + consumed(second, rest) == consumed(first + second, rest),
{
    assert(consumed(first, Seq::empty()) + consumed(second, rest) =~= consumed(
        first + second,
        rest,
    ));
}

/// Copies the characters of `tokens` to the end of `buffer`.
pub fn append(buffer: &mut Vec<char>, tokens: &[char])
    ensures
        final(buffer)@ == old(buffer)@ + tokens@,
{
    let mut i: usize = 0;
    while i < tokens.len()
        invariant
            i <= tokens.len(),
            buffer@ == old(buffer)@ + tokens@.take(i as int),
        decreases tokens.len() - i,
    {
        buffer.push(tokens[i]);
        i += 1;
        assert(tokens@.take(i as int) =~= tokens@.take(i - 1).push(tokens@[i - 1]));
    }
    assert(tokens@.take(i as int) =~= tokens@);
}

/// The front of `before` that is no longer in `after`, where `after` is
/// what was left of `before`.
pub fn taken<'a>(before: &'a [char], after: &Stream<'a, char>) -> (span: &'a [char])
    requires
        after.rest().len() <= before@.len(),
    ensures
        span@ == consumed(before@, after.rest()),
{
    slice_subrange(before, 0, before.len() - after.rest.len())
}

/// `p`, yielding the characters that it matched in place of its output.
#[derive(Clone, Copy, Debug)]
pub struct Buffered<P>(pub P);

/// A buffered parse in progress: the inner state, and the characters
/// matched in the fragments that are gone.
#[derive(Clone, Debug)]
pub struct BufferedState<P>(pub P, pub Vec<char>);

impl<P> Buffered<P> {
    pub fn new(parser: P) -> (buffered: Self)
        ensures
            buffered.0 == parser,
    {
        Buffered(parser)
    }
}

impl<'a, P> HasOutput<Stream<'a, char>> for Buffered<P> {
    type Output = Span<'a>;
}

impl<'a, P> HasOutput<Stream<'a, char>> for BufferedState<P> {
    type Output = Span<'a>;
}

impl<'a, P> Stateful<Stream<'a, char>, Span<'a>> for BufferedState<P> where
    P: HasOutput<Stream<'a, char>> + Stateful<
        Stream<'a, char>,
        P::Output,
    >,
 {
    open spec fn state_wf(self) -> bool {
        self.0.state_wf()
    }

    open spec fn resumes(
        self,
        input: Seq<char>,
        result: ParseResult<Self, Span<'a>>,
        rest: Seq<char>,
    ) -> bool {
        match result {
            Done(span) => {
                &&& span@ == self.1@ + consumed(input, rest)
                &&& exists|x: P::Output| #[trigger]
                    self.0.resumes(input, Done(x), rest)
            },
            Continue(BufferedState(next, buffer)) => {
                &&& buffer@ == self.1@ + consumed(input, rest)
                &&& self.0.resumes(input, Continue(next), rest)
            },
        }
    }

    open spec fn finishes(self, out: Span<'a>) -> bool {
        out@ == self.1@
    }

    proof fn resumes_sound(
        self,
        input: Seq<char>,
        result: ParseResult<Self, Span<'a>>,
        rest: Seq<char>,
    ) {
        match result {
            Done(span) => {
                let x = choose|x: P::Output| #[trigger]
                    self.0.resumes(input, Done(x), rest);
                self.0.resumes_sound(input, Done(x), rest);
            },
            Continue(BufferedState(next, buffer)) => {
                self.0.resumes_sound(input, Continue(next), rest);
            },
        }
    }

    proof fn resumes_prolonged(
        self,
        first: Seq<char>,
        second: Seq<char>,
        result: ParseResult<Self, Span<'a>>,
        rest: Seq<char>,
    ) {
        let whole = rest;
        if exists|next: Self| #[trigger]
            self.resumes(first, Continue(next), Seq::empty()) && next.resumes(
                second,
                result,
                whole,
            ) {
            let next = choose|next: Self| #[trigger]
                self.resumes(first, Continue(next), Seq::empty()) && next.resumes(
                    second,
                    result,
                    whole,
                );
            assert(self.1@ + consumed(first, Seq::empty()) + consumed(second, rest) =~= self.1@ + (
            consumed(first, Seq::empty()) + consumed(second, rest)));
            self.0.resumes_sound(first, Continue(next.0), Seq::empty());
            match result {
                Done(span) => {
                    let x = choose|x: P::Output| #[trigger] next.0.resumes(second, Done(x), rest);
                    next.0.resumes_sound(second, Done(x), rest);
                    self.0.resumes_joined(first, next.0, second, Done(x), rest);
                    lemma_consumed_joined(first, second, rest);
                },
                Continue(after) => {
                    next.0.resumes_sound(second, Continue(after.0), rest);
                    self.0.resumes_joined(first, next.0, second, Continue(after.0), rest);
                    lemma_consumed_joined(first, second, rest);
                },
            }
        } else {
            match result {
                Done(out) => {
                    let rest = choose|left: Seq<char>| #[trigger]
                        self.resumes(first, result, left) && whole == left + second;
                    let x = choose|x: P::Output| #[trigger] self.0.resumes(first, Done(x), rest);
                    self.0.resumes_sound(first, Done(x), rest);
                    self.0.resumes_extended(first, x, rest, second);
                    lemma_consumed_extended(first, rest, second);
                },
                Continue(_) => {},
            }
        }
    }

    fn more(self, string: &mut Stream<'a, char>) -> (result: ParseResult<Self, Span<'a>>)
        ensures
            result matches Done(span) ==> span is Owned,
    {
        let before = string.rest;
        let BufferedState(inner, mut buffer) = self;
        match inner.more(string) {
            Done(x) => {
                proof {
                    inner.resumes_sound(before@, Done(x), string.rest());
                }
                append(&mut buffer, taken(before, string));
                Done(Span::Owned(buffer))
            },
            Continue(next) => {
                proof {
                    inner.resumes_sound(before@, Continue(next), string.rest());
                }
                append(&mut buffer, taken(before, string));
                Continue(BufferedState(next, buffer))
            },
        }
    }

    fn done(self) -> (out: Span<'a>)
        ensures
            out is Owned,
    {
        Span::Owned(self.1)
    }
}

impl<'a, P> Uncommitted<Stream<'a, char>, Span<'a>> for Buffered<P> where
    P: HasOutput<Stream<'a, char>> + Uncommitted<
        Stream<'a, char>,
        P::Output,
    >,
    P::State:
        HasOutput<Stream<'a, char>, Output = P::Output>,
 {
    type State = BufferedState<
        P::State,
    >;

    open spec fn parser_wf(&self) -> bool {
        self.0.parser_wf()
    }

    open spec fn begins(
        &self,
        input: Seq<char>,
        result: Option<ParseResult<Self::State, Span<'a>>>,
        rest: Seq<char>,
    ) -> bool {
        match result {
            None => self.0.begins(input, None, rest),
            Some(Done(span)) => {
                &&& span@ == consumed(input, rest)
                &&& exists|x: P::Output| #[trigger]
                    self.0.begins(input, Some(Done(x)), rest)
            },
            Some(Continue(BufferedState(next, buffer))) => {
                &&& buffer@ == consumed(input, rest)
                &&& self.0.begins(input, Some(Continue(next)), rest)
            },
        }
    }

    proof fn begins_sound(
        &self,
        input: Seq<char>,
        result: Option<ParseResult<Self::State, Span<'a>>>,
        rest: Seq<char>,
    ) {
        match result {
            None => self.0.begins_sound(input, None, rest),
            Some(Done(span)) => {
                let x = choose|x: P::Output| #[trigger]
                    self.0.begins(input, Some(Done(x)), rest);
                self.0.begins_sound(input, Some(Done(x)), rest);
            },
            Some(Continue(BufferedState(next, buffer))) => {
                self.0.begins_sound(input, Some(Continue(next)), rest);
            },
        }
    }

    proof fn begins_prolonged(
        &self,
        first: Seq<char>,
        second: Seq<char>,
        result: Option<ParseResult<Self::State, Span<'a>>>,
        rest: Seq<char>,
    ) {
        let whole = rest;
        match result {
            None => {
                let rest = first;
                self.0.begins_sound(first, None, rest);
                self.0.declines_extended(first, rest, second);
            },
            Some(then) => {
                if exists|next: Self::State| #[trigger]
                    self.begins(first, Some(Continue(next)), Seq::empty()) && next.resumes(
                        second,
                        then,
                        whole,
                    ) {
                    let next = choose|next: Self::State| #[trigger]
                        self.begins(first, Some(Continue(next)), Seq::empty()) && next.resumes(
                            second,
                            then,
                            whole,
                        );
                    let result = then;
                    self.0.begins_sound(first, Some(Continue(next.0)), Seq::empty());
                    match result {
                        Done(span) => {
                            let x = choose|x: P::Output| #[trigger] next.0.resumes(
                                second,
                                Done(x),
                                rest,
                            );
                            next.0.resumes_sound(second, Done(x), rest);
                            self.0.begins_joined(first, next.0, second, Done(x), rest);
                            lemma_consumed_joined(first, second, rest);
                        },
                        Continue(after) => {
                            next.0.resumes_sound(second, Continue(after.0), rest);
                            self.0.begins_joined(first, next.0, second, Continue(after.0), rest);
                            lemma_consumed_joined(first, second, rest);
                        },
                    }
                } else {
                    match then {
                        Done(out) => {
                            let rest = choose|left: Seq<char>| #[trigger]
                                self.begins(first, result, left) && whole == left + second;
                            let x = choose|x: P::Output| #[trigger]
                                self.0.begins(first, Some(Done(x)), rest);
                            self.0.begins_sound(first, Some(Done(x)), rest);
                            self.0.begins_extended(first, x, rest, second);
                            lemma_consumed_extended(first, rest, second);
                        },
                        Continue(_) => {},
                    }
                }
            },
        }
    }

    fn init(&self, string: &mut Stream<'a, char>) -> (result: Option<
        ParseResult<Self::State, Span<'a>>,
    >)
        ensures
            result matches Some(Done(span)) ==> span is Borrowed,
    {
        let before = string.rest;
        match self.0.init(string) {
            Some(Done(x)) => {
                proof {
                    self.0.begins_sound(before@, Some(Done(x)), string.rest());
                }
                Some(Done(Span::Borrowed(taken(before, string))))
            },
            Some(Continue(next)) => {
                proof {
                    self.0.begins_sound(before@, Some(Continue(next)), string.rest());
                }
                let mut buffer = Vec::new();
                append(&mut buffer, taken(before, string));
                Some(Continue(BufferedState(next, buffer)))
            },
            None => None,
        }
    }
}

impl<'a, P> Committed<Stream<'a, char>, Span<'a>> for Buffered<P> where
    P: HasOutput<Stream<'a, char>> + Committed<
        Stream<'a, char>,
        P::Output,
    >,
    P::State:
        HasOutput<Stream<'a, char>, Output = P::Output>,
 {
    open spec fn answer_wf(&self) -> bool {
        true
    }

    open spec fn answers(&self, out: Span<'a>) -> bool {
        out@.len() == 0
    }

    fn empty(&self) -> (out: Span<'a>)
        ensures
            out is Borrowed,
    {
        let nothing: &'a [char] = vstd::array::array_as_slice::<char, 0>(&[]);
        Span::Borrowed(nothing)
    }
}

/// Over any fragments, a buffered parse that is done holds what it held
/// before and, after that, exactly the characters that were taken from the
/// fragments; and the inner parse, handed the fragments joined, is done
/// leaving the same.
pub proof fn lemma_buffered_state_done<'a, P>(
    state: BufferedState<P>,
    frags: Seq<Seq<char>>,
    span: Span<'a>,
    left: Seq<char>,
) where P: HasOutput<Stream<'a, char>> + Stateful<Stream<'a, char>, P::Output>
    requires
        state.state_wf(),
        feeds_done::<Stream<'a, char>, BufferedState<P>, Span<'a>>(state, frags, span, left),
    ensures
        is_suffix(left, joined(frags)),
        span@ == state.1@ + consumed(joined(frags), left),
        exists|x: P::Output| #[trigger] state.0.resumes(joined(frags), Done(x), left),
    decreases frags.len(),
{
    if frags.len() == 1 {
        lemma_joined_one(frags);
        state.resumes_sound(frags[0], Done(span), left);
    } else {
        let tail = frags.skip(1);
        let empty = Seq::<char>::empty();
        let next = choose|next: BufferedState<P>| #[trigger]
            state.resumes(frags[0], Continue(next), empty) && feeds_done::<
                Stream<'a, char>,
                BufferedState<P>,
                Span<'a>,
            >(next, tail, span, left);
        state.resumes_sound(frags[0], Continue(next), empty);
        lemma_buffered_state_done::<P>(next, tail, span, left);
        let x = choose|x: P::Output| #[trigger] next.0.resumes(joined(tail), Done(x), left);
        state.0.resumes_joined(frags[0], next.0, joined(tail), Done(x), left);
        lemma_consumed_joined(frags[0], joined(tail), left);
        lemma_suffix_of_joined(left, frags[0], joined(tail));
        assert(state.1@ + consumed(frags[0], empty) + consumed(joined(tail), left) =~= state.1@
            + (consumed(frags[0], empty) + consumed(joined(tail), left)));
    }
}

/// Over any fragments, a buffered parse that suspends with each fragment
/// used up holds what it held before and, after that, the fragments
/// joined; and the inner parse suspends in the same way.
pub proof fn lemma_buffered_state_through<'a, P>(
    state: BufferedState<P>,
    frags: Seq<Seq<char>>,
    last: BufferedState<P>,
) where P: HasOutput<Stream<'a, char>> + Stateful<Stream<'a, char>, P::Output>
    requires
        state.state_wf(),
        feeds_through::<Stream<'a, char>, BufferedState<P>, Span<'a>>(state, frags, last),
    ensures
        last.1@ == state.1@ + joined(frags),
        feeds_through::<Stream<'a, char>, P, P::Output>(state.0, frags, last.0),
    decreases frags.len(),
{
    if frags.len() == 0 {
        assert(state.1@ + joined(frags) =~= state.1@);
    } else {
        let tail = frags.skip(1);
        let empty = Seq::<char>::empty();
        let next = choose|next: BufferedState<P>| #[trigger]
            state.resumes(frags[0], Continue(next), empty) && feeds_through::<
                Stream<'a, char>,
                BufferedState<P>,
                Span<'a>,
            >(next, tail, last);
        state.resumes_sound(frags[0], Continue(next), empty);
        lemma_buffered_state_through::<P>(next, tail, last);
        assert(consumed(frags[0], empty) =~= frags[0]);
        assert(state.1@ + frags[0] + joined(tail) =~= state.1@ + (frags[0] + joined(tail)));
        assert(state.0.resumes(frags[0], Continue(next.0), empty));
    }
}

/// Buffering gives back what was read: where the buffered parser is done
/// over any fragments, leaving `left` of the last, the span holds exactly
/// the characters of the fragments before `left`, whether it borrows them
/// or owns them; and the inner parser, handed the fragments joined as one,
/// is done leaving the same, so these are the characters that it takes from
/// the whole input.
pub proof fn lemma_buffered_round_trip<'a, P>(
    parser: Buffered<P>,
    frags: Seq<Seq<char>>,
    span: Span<'a>,
    left: Seq<char>,
) where
    P: HasOutput<Stream<'a, char>> + Uncommitted<Stream<'a, char>, P::Output>,
    P::State: HasOutput<Stream<'a, char>, Output = P::Output>,

    requires
        parser.parser_wf(),
        parses_done::<Stream<'a, char>, Buffered<P>, Span<'a>>(parser, frags, span, left),
    ensures
        is_suffix(left, joined(frags)),
        span@ == consumed(joined(frags), left),
        exists|x: P::Output| #[trigger] parser.0.begins(joined(frags), Some(Done(x)), left),
    decreases frags.len(),
{
    if frags.len() == 1 {
        lemma_joined_one(frags);
        parser.begins_sound(frags[0], Some(Done(span)), left);
    } else {
        let tail = frags.skip(1);
        let empty = Seq::<char>::empty();
        if frags[0].len() == 0 && parser.begins(frags[0], None, frags[0]) && parses_done::<
            Stream<'a, char>,
            Buffered<P>,
            Span<'a>,
        >(parser, tail, span, left) {
            lemma_buffered_round_trip::<P>(parser, tail, span, left);
            lemma_empty_add(frags[0], joined(tail));
        } else {
            let next = choose|
                next: BufferedState<P::State>,
            | #[trigger]
                parser.begins(frags[0], Some(Continue(next)), empty) && feeds_done::<
                    Stream<'a, char>,
                    BufferedState<P::State>,
                    Span<'a>,
                >(next, tail, span, left);
            parser.begins_sound(frags[0], Some(Continue(next)), empty);
            lemma_buffered_state_done::<P::State>(
                next,
                tail,
                span,
                left,
            );
            let x = choose|x: P::Output| #[trigger] next.0.resumes(joined(tail), Done(x), left);
            parser.0.begins_joined(frags[0], next.0, joined(tail), Done(x), left);
            lemma_consumed_joined(frags[0], joined(tail), left);
            lemma_suffix_of_joined(left, frags[0], joined(tail));
        }
    }
}

} // verus!