//! Ordered choice: the first parser, or else the second.

use vstd::prelude::*;
use crate::contract::{Committed, HasOutput, ParseResult, PeekableIterator, Stateful, Uncommitted};
use crate::contract::ParseResult::{Continue, Done};
use self::OrElseState::{Lhs, Rhs};

verus! {

/// `p`, or `q` where `p` declines.
#[derive(Clone, Copy, Debug)]
pub struct OrElse<P, Q>(pub P, pub Q);

/// The side that a suspended choice has committed to. Only that side is
/// ever resumed.
#[derive(Clone, Copy, Debug)]
pub enum OrElseState<P, Q> {
    Lhs(P),
    Rhs(Q),
}

impl<P, Q> OrElse<P, Q> {
    pub fn new(lhs: P, rhs: Q) -> (parser: Self)
        ensures
            parser.0 == lhs,
            parser.1 == rhs,
    {
        OrElse(lhs, rhs)
    }
}

impl<P, Q, Str> HasOutput<Str> for OrElse<P, Q> where P: HasOutput<Str> {
    type Output = P::Output;
}

impl<P, Q, Str> HasOutput<Str> for OrElseState<P, Q> where P: HasOutput<Str> {
    type Output = P::Output;
}

impl<P, Q, Str, Output> Stateful<Str, Output> for OrElseState<P, Q> where
    Str: PeekableIterator,
    P: Stateful<Str, Output>,
    Q: Stateful<Str, Output>,
 {
    open spec fn state_wf(self) -> bool {
        match self {
            Lhs(lhs) => lhs.state_wf(),
            Rhs(rhs) => rhs.state_wf(),
        }
    }

    open spec fn resumes(
        self,
        input: Seq<Str::Item>,
        result: ParseResult<Self, Output>,
        rest: Seq<Str::Item>,
    ) -> bool {
        match (self, result) {
            (Lhs(lhs), Done(out)) => lhs.resumes(input, Done(out), rest),
            (Lhs(lhs), Continue(Lhs(next))) => lhs.resumes(input, Continue(next), rest),
            (Rhs(rhs), Done(out)) => rhs.resumes(input, Done(out), rest),
            (Rhs(rhs), Continue(Rhs(next))) => rhs.resumes(input, Continue(next), rest),
            _ => false,
        }
    }

    open spec fn finishes(self, out: Output) -> bool {
        match self {
            Lhs(lhs) => lhs.finishes(out),
            Rhs(rhs) => rhs.finishes(out),
        }
    }

    proof fn resumes_sound(
        self,
        input: Seq<Str::Item>,
        result: ParseResult<Self, Output>,
        rest: Seq<Str::Item>,
    ) {
        match (self, result) {
            (Lhs(lhs), Done(out)) => lhs.resumes_sound(input, Done(out), rest),
            (Lhs(lhs), Continue(Lhs(next))) => lhs.resumes_sound(input, Continue(next), rest),
            (Rhs(rhs), Done(out)) => rhs.resumes_sound(input, Done(out), rest),
            (Rhs(rhs), Continue(Rhs(next))) => rhs.resumes_sound(input, Continue(next), rest),
            _ => {},
        }
    }

    proof fn resumes_prolonged(
        self,
        first: Seq<Str::Item>,
        second: Seq<Str::Item>,
        result: ParseResult<Self, Output>,
        rest: Seq<Str::Item>,
    ) {
        let whole = rest;
        if exists|next: Self| #[trigger]
            self.resumes(first, Continue(next), Seq::empty()) && next.resumes(
                second,
                result,
                whole,
            ) {
            let next = choose|next: Self| #[trigger]
                self.resumes(first, Continue(next), Seq::empty()) && next.resumes(
                    second,
                    result,
                    whole,
                );
            match (self, next, result) {
                (Lhs(lhs), Lhs(n), Done(out)) => lhs.resumes_joined(
                    first,
                    n,
                    second,
                    Done(out),
                    rest,
                ),
                (Lhs(lhs), Lhs(n), Continue(Lhs(after))) => lhs.resumes_joined(
                    first,
                    n,
                    second,
                    Continue(after),
                    rest,
                ),
                (Rhs(rhs), Rhs(n), Done(out)) => rhs.resumes_joined(
                    first,
                    n,
                    second,
                    Done(out),
                    rest,
                ),
                (Rhs(rhs), Rhs(n), Continue(Rhs(after))) => rhs.resumes_joined(
                    first,
                    n,
                    second,
                    Continue(after),
                    rest,
                ),
                _ => {},
            }
        } else {
            match result {
                Done(out) => {
                    let rest = choose|left: Seq<Str::Item>| #[trigger]
                        self.resumes(first, result, left) && whole == left + second;
                    match self {
                        Lhs(lhs) => lhs.resumes_extended(first, out, rest, second),
                        Rhs(rhs) => rhs.resumes_extended(first, out, rest, second),
                    }
                },
                Continue(_) => {},
            }
        }
    }

    fn more(self, string: &mut Str) -> (result: ParseResult<Self, Output>) {
        match self {
            Lhs(lhs) => match lhs.more(string) {
                Done(out) => Done(out),
                Continue(next) => Continue(Lhs(next)),
            },
            Rhs(rhs) => match rhs.more(string) {
                Done(out) => Done(out),
                Continue(next) => Continue(Rhs(next)),
            },
        }
    }

    fn done(self) -> (out: Output) {
        match self {
            Lhs(lhs) => lhs.done(),
            Rhs(rhs) => rhs.done(),
        }
    }
}

impl<P, Q, Str, Output> Uncommitted<Str, Output> for OrElse<P, Q> where
    Str: PeekableIterator,
    P: Uncommitted<Str, Output>,
    Q: Uncommitted<Str, Output>,
 {
    type State = OrElseState<P::State, Q::State>;

    open spec fn parser_wf(&self) -> bool {
        self.0.parser_wf() && self.1.parser_wf()
    }

    open spec fn begins(
        &self,
        input: Seq<Str::Item>,
        result: Option<ParseResult<Self::State, Output>>,
        rest: Seq<Str::Item>,
    ) -> bool {
        match result {
            Some(Done(out)) => {
                ||| self.0.begins(input, Some(Done(out)), rest)
                ||| self.0.begins(input, None, input) && self.1.begins(
                    input,
                    Some(Done(out)),
                    rest,
                )
            },
            Some(Continue(Lhs(next))) => self.0.begins(input, Some(Continue(next)), rest),
            Some(Continue(Rhs(next))) => self.0.begins(input, None, input) && self.1.begins(
                input,
                Some(Continue(next)),
                rest,
            ),
            None => self.0.begins(input, None, input) && self.1.begins(input, None, rest),
        }
    }

    proof fn begins_sound(
        &self,
        input: Seq<Str::Item>,
        result: Option<ParseResult<Self::State, Output>>,
        rest: Seq<Str::Item>,
    ) {
        match result {
            Some(Done(out)) => {
                if self.0.begins(input, Some(Done(out)), rest) {
                    self.0.begins_sound(input, Some(Done(out)), rest);
                } else {
                    self.1.begins_sound(input, Some(Done(out)), rest);
                }
            },
            Some(Continue(Lhs(next))) => self.0.begins_sound(input, Some(Continue(next)), rest),
            Some(Continue(Rhs(next))) => self.1.begins_sound(input, Some(Continue(next)), rest),
            None => self.1.begins_sound(input, None, rest),
        }
    }

    proof fn begins_prolonged(
        &self,
        first: Seq<Str::Item>,
        second: Seq<Str::Item>,
        result: Option<ParseResult<Self::State, Output>>,
        rest: Seq<Str::Item>,
    ) {
        let whole = rest;
        match result {
            None => {
                let rest = first;
                self.0.declines_extended(first, first, second);
                self.1.declines_extended(first, rest, second);
            },
            Some(then) => {
                if exists|next: Self::State| #[trigger]
                    self.begins(first, Some(Continue(next)), Seq::empty()) && next.resumes(
                        second,
                        then,
                        whole,
                    ) {
                    let next = choose|next: Self::State| #[trigger]
                        self.begins(first, Some(Continue(next)), Seq::empty()) && next.resumes(
                            second,
                            then,
                            whole,
                        );
                    let result = then;
                    match (next, result) {
                        (Lhs(n), Done(out)) => self.0.begins_joined(
                            first,
                            n,
                            second,
                            Done(out),
                            rest,
                        ),
                        (Lhs(n), Continue(Lhs(after))) => self.0.begins_joined(
                            first,
                            n,
                            second,
                            Continue(after),
                            rest,
                        ),
                        (Rhs(n), Done(out)) => {
                            self.1.begins_sound(first, Some(Continue(n)), Seq::empty());
                            self.0.declines_extended(first, first, second);
                            self.1.begins_joined(first, n, second, Done(out), rest);
                        },
                        (Rhs(n), Continue(Rhs(after))) => {
                            self.1.begins_sound(first, Some(Continue(n)), Seq::empty());
                            self.0.declines_extended(first, first, second);
                            self.1.begins_joined(first, n, second, Continue(after), rest);
                        },
                        _ => {},
                    }
                } else {
                    match then {
                        Done(out) => {
                            let rest = choose|left: Seq<Str::Item>| #[trigger]
                                self.begins(first, result, left) && whole == left + second;
                            if self.0.begins(first, Some(Done(out)), rest) {
                                self.0.begins_extended(first, out, rest, second);
                            } else {
                                self.1.begins_sound(first, Some(Done(out)), rest);
                                self.0.declines_extended(first, first, second);
                                self.1.begins_extended(first, out, rest, second);
                            }
                        },
                        Continue(_) => {},
                    }
                }
            },
        }
    }

    fn init(&self, string: &mut Str) -> (result: Option<ParseResult<Self::State, Output>>) {
        let ghost input = string.rest();
        match self.0.init(string) {
            Some(Done(out)) => Some(Done(out)),
            Some(Continue(lhs)) => Some(Continue(Lhs(lhs))),
            None => {
                proof {
                    self.0.begins_sound(input, None, string.rest());
                }
                match self.1.init(string) {
                    Some(Done(out)) => Some(Done(out)),
                    Some(Continue(rhs)) => Some(Continue(Rhs(rhs))),
                    None => None,
                }
            },
        }
    }
}

impl<P, Q, Str, Output> Committed<Str, Output> for OrElse<P, Q> where
    Str: PeekableIterator,
    P: Uncommitted<Str, Output>,
    Q: Committed<Str, Output>,
 {
    open spec fn answer_wf(&self) -> bool {
        self.1.answer_wf()
    }

    open spec fn answers(&self, out: Output) -> bool {
        self.1.answers(out)
    }

    fn empty(&self) -> (out: Output) {
        self.1.empty()
    }
}

/// What the choice hands back where its second parser hands back `result`.
pub open spec fn on_rhs<P, Q, Output>(result: Option<ParseResult<Q, Output>>) -> Option<
    ParseResult<OrElseState<P, Q>, Output>,
> {
    match result {
        None => None,
        Some(Done(out)) => Some(Done(out)),
        Some(Continue(next)) => Some(Continue(Rhs(next))),
    }
}

/// What a choice committed to its first side hands back where that side
/// hands back `result`.
pub open spec fn on_lhs<P, Q, Output>(result: ParseResult<P, Output>) -> ParseResult<
    OrElseState<P, Q>,
    Output,
> {
    match result {
        Done(out) => Done(out),
        Continue(next) => Continue(Lhs(next)),
    }
}

/// On an input that the first parser declines outright, the choice does
/// exactly what the second parser does: it hands back what the second
/// hands back, leaves what the second leaves, and never commits to the
/// first.
pub proof fn lemma_or_else_as_second<Str, P, Q, Output>(
    parser: OrElse<P, Q>,
    input: Seq<Str::Item>,
    result: Option<ParseResult<Q::State, Output>>,
    rest: Seq<Str::Item>,
) where Str: PeekableIterator, P: Uncommitted<Str, Output>, Q: Uncommitted<Str, Output>
    requires
        parser.0.begins(input, None, input),
        forall|r: Option<ParseResult<P::State, Output>>, left: Seq<Str::Item>| #[trigger]
            parser.0.begins(input, r, left) ==> r.is_none(),
    ensures
        parser.begins(input, on_rhs::<P::State, Q::State, Output>(result), rest)
            <==> parser.1.begins(input, result, rest),
        forall|any: Option<ParseResult<OrElseState<P::State, Q::State>, Output>>, left: Seq<Str::Item>|
            #[trigger] parser.begins(input, any, left) ==> !(any matches Some(Continue(Lhs(_)))),
{
}

/// Once the choice has committed to its first side, it does exactly what
/// that side does, to the end of the parse: it hands back what the side
/// hands back, never changes sides, and finishes as the side finishes.
/// The second parser has no part in it.
pub proof fn lemma_lhs_committed<Str, P, Q, Output>(
    lhs: P,
    input: Seq<Str::Item>,
    result: ParseResult<P, Output>,
    rest: Seq<Str::Item>,
    out: Output,
) where Str: PeekableIterator, P: Stateful<Str, Output>, Q: Stateful<Str, Output>
    ensures
        (Lhs::<P, Q>(lhs)).resumes(input, on_lhs::<P, Q, Output>(result), rest) <==> lhs.resumes(
            input,
            result,
            rest,
        ),
        forall|any: ParseResult<OrElseState<P, Q>, Output>, left: Seq<Str::Item>| #[trigger]
            (Lhs::<P, Q>(lhs)).resumes(input, any, left) ==> !(any matches Continue(Rhs(_))),
        (Lhs::<P, Q>(lhs)).finishes(out) <==> lhs.finishes(out),
{
}

} // verus!