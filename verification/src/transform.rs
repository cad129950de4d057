//! Combinators that keep a parser's control flow and change its output.

use vstd::prelude::*;
use crate::contract::{
    admits, lemma_admits_suspend, lemma_suffix_refl, run_output, Committed, Function, HasOutput,
    ParseResult, PeekableIterator, Run, Stateful, Uncommitted, VariantFunction,
};
use crate::contract::ParseResult::{Continue, Done};

verus! {

/// `p`, with the function applied to its output.
#[derive(Clone, Copy, Debug)]
pub struct Mapped<P, F>(pub P, pub F);

impl<P, F> Mapped<P, F> {
    pub fn new(p: P, f: F) -> (parser: Self)
        ensures
            parser.0 == p,
            parser.1 == f,
    {
        Mapped(p, f)
    }
}

impl<P, F, Str> HasOutput<Str> for Mapped<P, F> where P: HasOutput<Str>, F: Function<P::Output> {
    type Output = F::Output;
}

impl<P, F, Str, Output> Stateful<Str, Output> for Mapped<P, F> where
    Str: PeekableIterator,
    P: HasOutput<Str> + Stateful<Str, P::Output>,
    F: Function<P::Output, Output = Output>,
 {
    open spec fn state_wf(self) -> bool {
        &&& self.0.state_wf()
        &&& forall|run: Run<Str::Item, P::Output>| #[trigger]
            admits::<Str, P, P::Output>(self.0, run) ==> self.1.defined_on(run_output(run))
    }

    open spec fn resumes(
        self,
        input: Seq<Str::Item>,
        result: ParseResult<Self, Output>,
        rest: Seq<Str::Item>,
    ) -> bool {
        match result {
            Done(out) => exists|x: P::Output|
                #![trigger self.0.resumes(input, Done(x), rest)]
                self.0.resumes(input, Done(x), rest) && self.1.maps(x, out),
            Continue(Mapped(next, f)) => f == self.1 && self.0.resumes(
                input,
                Continue(next),
                rest,
            ),
        }
    }

    open spec fn finishes(self, out: Output) -> bool {
        exists|x: P::Output|
            #![trigger self.0.finishes(x)]
            self.0.finishes(x) && self.1.maps(x, out)
    }

    proof fn resumes_sound(
        self,
        input: Seq<Str::Item>,
        result: ParseResult<Self, Output>,
        rest: Seq<Str::Item>,
    ) {
        match result {
            Done(out) => {
                let x = choose|x: P::Output|
                    #![trigger self.0.resumes(input, Done(x), rest)]
                    self.0.resumes(input, Done(x), rest) && self.1.maps(x, out);
                self.0.resumes_sound(input, Done(x), rest);
            },
            Continue(Mapped(next, f)) => {
                self.0.resumes_sound(input, Continue(next), rest);
                assert forall|run: Run<Str::Item, P::Output>| #[trigger]
                    admits::<Str, P, P::Output>(next, run) implies self.1.defined_on(
                    run_output(run),
                ) by {
                    lemma_admits_suspend::<Str, P, P::Output>(self.0, input, rest, next, run);
                    assert(run_output(Run::Suspend(input, rest, Box::new(run))) == run_output(run));
                }
            },
        }
    }

    proof fn resumes_prolonged(
        self,
        first: Seq<Str::Item>,
        second: Seq<Str::Item>,
        result: ParseResult<Self, Output>,
        rest: Seq<Str::Item>,
    ) {
        let whole = rest;
        if exists|next: Self| #[trigger]
            self.resumes(first, Continue(next), Seq::empty()) && next.resumes(
                second,
                result,
                whole,
            ) {
            let next = choose|next: Self| #[trigger]
                self.resumes(first, Continue(next), Seq::empty()) && next.resumes(
                    second,
                    result,
                    whole,
                );
            match result {
                Done(out) => {
                    let x = choose|x: P::Output|
                        #![trigger next.0.resumes(second, Done(x), rest)]
                        next.0.resumes(second, Done(x), rest) && next.1.maps(x, out);
                    self.0.resumes_joined(first, next.0, second, Done(x), rest);
                },
                Continue(after) => self.0.resumes_joined(
                    first,
                    next.0,
                    second,
                    Continue(after.0),
                    rest,
                ),
            }
        } else {
            match result {
                Done(out) => {
                    let rest = choose|left: Seq<Str::Item>| #[trigger]
                        self.resumes(first, result, left) && whole == left + second;
                    let x = choose|x: P::Output|
                        #![trigger self.0.resumes(first, Done(x), rest)]
                        self.0.resumes(first, Done(x), rest) && self.1.maps(x, out);
                    self.0.resumes_extended(first, x, rest, second);
                },
                Continue(_) => {},
            }
        }
    }

    fn more(self, string: &mut Str) -> (result: ParseResult<Self, Output>) {
        let ghost input = string.rest();
        match self.0.more(string) {
            Done(x) => {
                assert(admits::<Str, P, P::Output>(self.0, Run::Complete(input, x, string.rest())));
                Done(self.1.apply(x))
            },
            Continue(next) => Continue(Mapped(next, self.1)),
        }
    }

    fn done(self) -> (out: Output) {
        let x = self.0.done();
        assert(admits::<Str, P, P::Output>(self.0, Run::Close(x)));
        self.1.apply(x)
    }
}

impl<P, F, Str, Output> Uncommitted<Str, Output> for Mapped<P, F> where
    Str: PeekableIterator,
    P: HasOutput<Str> + Uncommitted<Str, P::Output>,
    P::State: HasOutput<
        Str,
        Output = P::Output,
    >,
    F: Copy + Function<P::Output, Output = Output>,
 {
    type State = Mapped<P::State, F>;

    open spec fn parser_wf(&self) -> bool {
        &&& self.0.parser_wf()
        &&& forall|input: Seq<Str::Item>, x: P::Output, rest: Seq<Str::Item>| #[trigger]
            self.0.begins(input, Some(Done(x)), rest) ==> self.1.defined_on(x)
        &&& forall|
            input: Seq<Str::Item>,
            next: P::State,
            rest: Seq<Str::Item>,
            run: Run<Str::Item, P::Output>,
        |
            #![trigger self.0.begins(input, Some(Continue(next)), rest), admits::<Str, P::State, P::Output>(next, run)]
            self.0.begins(input, Some(Continue(next)), rest) && admits::<Str, P::State, P::Output>(
                next,
                run,
            ) ==> self.1.defined_on(run_output(run))
    }

    open spec fn begins(
        &self,
        input: Seq<Str::Item>,
        result: Option<ParseResult<Self::State, Output>>,
        rest: Seq<Str::Item>,
    ) -> bool {
        match result {
            None => self.0.begins(input, None, rest),
            Some(Done(out)) => exists|x: P::Output|
                #![trigger self.0.begins(input, Some(Done(x)), rest)]
                self.0.begins(input, Some(Done(x)), rest) && self.1.maps(x, out),
            Some(Continue(Mapped(next, f))) => f == self.1 && self.0.begins(
                input,
                Some(Continue(next)),
                rest,
            ),
        }
    }

    proof fn begins_sound(
        &self,
        input: Seq<Str::Item>,
        result: Option<ParseResult<Self::State, Output>>,
        rest: Seq<Str::Item>,
    ) {
        match result {
            None => self.0.begins_sound(input, None, rest),
            Some(Done(out)) => {
                let x = choose|x: P::Output|
                    #![trigger self.0.begins(input, Some(Done(x)), rest)]
                    self.0.begins(input, Some(Done(x)), rest) && self.1.maps(x, out);
                self.0.begins_sound(input, Some(Done(x)), rest);
            },
            Some(Continue(Mapped(next, f))) => self.0.begins_sound(
                input,
                Some(Continue(next)),
                rest,
            ),
        }
    }

    proof fn begins_prolonged(
        &self,
        first: Seq<Str::Item>,
        second: Seq<Str::Item>,
        result: Option<ParseResult<Self::State, Output>>,
        rest: Seq<Str::Item>,
    ) {
        let whole = rest;
        match result {
            None => {
                let rest = first;
                self.0.begins_sound(first, None, rest);
                self.0.declines_extended(first, rest, second);
            },
            Some(then) => {
                if exists|next: Self::State| #[trigger]
                    self.begins(first, Some(Continue(next)), Seq::empty()) && next.resumes(
                        second,
                        then,
                        whole,
                    ) {
                    let next = choose|next: Self::State| #[trigger]
                        self.begins(first, Some(Continue(next)), Seq::empty()) && next.resumes(
                            second,
                            then,
                            whole,
                        );
                    let result = then;
                    match result {
                        Done(out) => {
                            let x = choose|x: P::Output|
                                #![trigger next.0.resumes(second, Done(x), rest)]
                                next.0.resumes(second, Done(x), rest) && next.1.maps(x, out);
                            self.0.begins_joined(first, next.0, second, Done(x), rest);
                        },
                        Continue(after) => self.0.begins_joined(
                            first,
                            next.0,
                            second,
                            Continue(after.0),
                            rest,
                        ),
                    }
                } else {
                    match then {
                        Done(out) => {
                            let rest = choose|left: Seq<Str::Item>| #[trigger]
                                self.begins(first, result, left) && whole == left + second;
                            let x = choose|x: P::Output|
                                #![trigger self.0.begins(first, Some(Done(x)), rest)]
                                self.0.begins(first, Some(Done(x)), rest) && self.1.maps(x, out);
                            self.0.begins_extended(first, x, rest, second);
                        },
                        Continue(_) => {},
                    }
                }
            },
        }
    }

    fn init(&self, string: &mut Str) -> (result: Option<ParseResult<Self::State, Output>>) {
        match self.0.init(string) {
            None => None,
            Some(Done(x)) => Some(Done(self.1.apply(x))),
            Some(Continue(next)) => Some(Continue(Mapped(next, self.1))),
        }
    }
}

impl<P, F, Str, Output> Committed<Str, Output> for Mapped<P, F> where
    Str: PeekableIterator,
    P: HasOutput<Str> + Committed<Str, P::Output>,
    P::State: HasOutput<
        Str,
        Output = P::Output,
    >,
    F: Copy + Function<P::Output, Output = Output>,
 {
    open spec fn answer_wf(&self) -> bool {
        self.0.answer_wf() && forall|x: P::Output| #[trigger]
            self.0.answers(x) ==> self.1.defined_on(x)
    }

    open spec fn answers(&self, out: Output) -> bool {
        exists|x: P::Output|
            #![trigger self.0.answers(x)]
            self.0.answers(x) && self.1.maps(x, out)
    }

    fn empty(&self) -> (out: Output) {
        self.1.apply(self.0.empty())
    }
}

/// `p`, with a function applied to its output, where the function's
/// argument type follows from the output type that is asked for.
#[derive(Clone, Copy, Debug)]
pub struct VariantMap<P, F>(pub P, pub F);

impl<P, F> VariantMap<P, F> {
    pub fn new(p: P, f: F) -> (parser: Self)
        ensures
            parser.0 == p,
            parser.1 == f,
    {
        VariantMap(p, f)
    }
}

impl<P, F, Str> HasOutput<Str> for VariantMap<P, F> where
    P: HasOutput<Str>,
    F: Function<P::Output>,
 {
    type Output = F::Output;
}

impl<P, F, Str, Output> Stateful<Str, Output> for VariantMap<P, F> where
    Str: PeekableIterator,
    P: Stateful<Str, F::Input>,
    F: VariantFunction<Output>,
 {
    open spec fn state_wf(self) -> bool {
        &&& self.0.state_wf()
        &&& forall|run: Run<Str::Item, F::Input>| #[trigger]
            admits::<Str, P, F::Input>(self.0, run) ==> self.1.defined_on(run_output(run))
    }

    open spec fn resumes(
        self,
        input: Seq<Str::Item>,
        result: ParseResult<Self, Output>,
        rest: Seq<Str::Item>,
    ) -> bool {
        match result {
            Done(out) => exists|x: F::Input|
                #![trigger self.0.resumes(input, Done(x), rest)]
                self.0.resumes(input, Done(x), rest) && self.1.maps(x, out),
            Continue(VariantMap(next, f)) => f == self.1 && self.0.resumes(
                input,
                Continue(next),
                rest,
            ),
        }
    }

    open spec fn finishes(self, out: Output) -> bool {
        exists|x: F::Input| #![trigger self.0.finishes(x)] self.0.finishes(x) && self.1.maps(x, out)
    }

    proof fn resumes_sound(
        self,
        input: Seq<Str::Item>,
        result: ParseResult<Self, Output>,
        rest: Seq<Str::Item>,
    ) {
        match result {
            Done(out) => {
                let x = choose|x: F::Input|
                    #![trigger self.0.resumes(input, Done(x), rest)]
                    self.0.resumes(input, Done(x), rest) && self.1.maps(x, out);
                self.0.resumes_sound(input, Done(x), rest);
            },
            Continue(VariantMap(next, f)) => {
                self.0.resumes_sound(input, Continue(next), rest);
                assert forall|run: Run<Str::Item, F::Input>| #[trigger]
                    admits::<Str, P, F::Input>(next, run) implies self.1.defined_on(
                    run_output(run),
                ) by {
                    lemma_admits_suspend::<Str, P, F::Input>(self.0, input, rest, next, run);
                    assert(run_output(Run::Suspend(input, rest, Box::new(run))) == run_output(run));
                }
            },
        }
    }

    proof fn resumes_prolonged(
        self,
        first: Seq<Str::Item>,
        second: Seq<Str::Item>,
        result: ParseResult<Self, Output>,
        rest: Seq<Str::Item>,
    ) {
        let whole = rest;
        if exists|next: Self| #[trigger]
            self.resumes(first, Continue(next), Seq::empty()) && next.resumes(
                second,
                result,
                whole,
            ) {
            let next = choose|next: Self| #[trigger]
                self.resumes(first, Continue(next), Seq::empty()) && next.resumes(
                    second,
                    result,
                    whole,
                );
            match result {
                Done(out) => {
                    let x = choose|x: F::Input|
                        #![trigger next.0.resumes(second, Done(x), rest)]
                        next.0.resumes(second, Done(x), rest) && next.1.maps(x, out);
                    self.0.resumes_joined(first, next.0, second, Done(x), rest);
                },
                Continue(after) => self.0.resumes_joined(
                    first,
                    next.0,
                    second,
                    Continue(after.0),
                    rest,
                ),
            }
        } else {
            match result {
                Done(out) => {
                    let rest = choose|left: Seq<Str::Item>| #[trigger]
                        self.resumes(first, result, left) && whole == left + second;
                    let x = choose|x: F::Input|
                        #![trigger self.0.resumes(first, Done(x), rest)]
                        self.0.resumes(first, Done(x), rest) && self.1.maps(x, out);
                    self.0.resumes_extended(first, x, rest, second);
                },
                Continue(_) => {},
            }
        }
    }

    fn more(self, string: &mut Str) -> (result: ParseResult<Self, Output>) {
        let ghost input = string.rest();
        match self.0.more(string) {
            Done(x) => {
                assert(admits::<Str, P, F::Input>(self.0, Run::Complete(input, x, string.rest())));
                Done(self.1.apply(x))
            },
            Continue(next) => Continue(VariantMap(next, self.1)),
        }
    }

    fn done(self) -> (out: Output) {
        let x = self.0.done();
        assert(admits::<Str, P, F::Input>(self.0, Run::Close(x)));
        self.1.apply(x)
    }
}

impl<P, F, Str, Output> Uncommitted<Str, Output> for VariantMap<P, F> where
    Str: PeekableIterator,
    P: Uncommitted<Str, F::Input>,
    F: Copy + VariantFunction<Output>,
 {
    type State = VariantMap<P::State, F>;

    open spec fn parser_wf(&self) -> bool {
        &&& self.0.parser_wf()
        &&& forall|input: Seq<Str::Item>, x: F::Input, rest: Seq<Str::Item>| #[trigger]
            self.0.begins(input, Some(Done(x)), rest) ==> self.1.defined_on(x)
        &&& forall|
            input: Seq<Str::Item>,
            next: P::State,
            rest: Seq<Str::Item>,
            run: Run<Str::Item, F::Input>,
        |
            #![trigger self.0.begins(input, Some(Continue(next)), rest), admits::<Str, P::State, F::Input>(next, run)]
            self.0.begins(input, Some(Continue(next)), rest) && admits::<Str, P::State, F::Input>(
                next,
                run,
            ) ==> self.1.defined_on(run_output(run))
    }

    open spec fn begins(
        &self,
        input: Seq<Str::Item>,
        result: Option<ParseResult<Self::State, Output>>,
        rest: Seq<Str::Item>,
    ) -> bool {
        match result {
            None => self.0.begins(input, None, rest),
            Some(Done(out)) => exists|x: F::Input|
                #![trigger self.0.begins(input, Some(Done(x)), rest)]
                self.0.begins(input, Some(Done(x)), rest) && self.1.maps(x, out),
            Some(Continue(VariantMap(next, f))) => f == self.1 && self.0.begins(
                input,
                Some(Continue(next)),
                rest,
            ),
        }
    }

    proof fn begins_sound(
        &self,
        input: Seq<Str::Item>,
        result: Option<ParseResult<Self::State, Output>>,
        rest: Seq<Str::Item>,
    ) {
        match result {
            None => self.0.begins_sound(input, None, rest),
            Some(Done(out)) => {
                let x = choose|x: F::Input|
                    #![trigger self.0.begins(input, Some(Done(x)), rest)]
                    self.0.begins(input, Some(Done(x)), rest) && self.1.maps(x, out);
                self.0.begins_sound(input, Some(Done(x)), rest);
            },
            Some(Continue(VariantMap(next, f))) => self.0.begins_sound(
                input,
                Some(Continue(next)),
                rest,
            ),
        }
    }

    proof fn begins_prolonged(
        &self,
        first: Seq<Str::Item>,
        second: Seq<Str::Item>,
        result: Option<ParseResult<Self::State, Output>>,
        rest: Seq<Str::Item>,
    ) {
        let whole = rest;
        match result {
            None => {
                let rest = first;
                self.0.begins_sound(first, None, rest);
                self.0.declines_extended(first, rest, second);
            },
            Some(then) => {
                if exists|next: Self::State| #[trigger]
                    self.begins(first, Some(Continue(next)), Seq::empty()) && next.resumes(
                        second,
                        then,
                        whole,
                    ) {
                    let next = choose|next: Self::State| #[trigger]
                        self.begins(first, Some(Continue(next)), Seq::empty()) && next.resumes(
                            second,
                            then,
                            whole,
                        );
                    let result = then;
                    match result {
                        Done(out) => {
                            let x = choose|x: F::Input|
                                #![trigger next.0.resumes(second, Done(x), rest)]
                                next.0.resumes(second, Done(x), rest) && next.1.maps(x, out);
                            self.0.begins_joined(first, next.0, second, Done(x), rest);
                        },
                        Continue(after) => self.0.begins_joined(
                            first,
                            next.0,
                            second,
                            Continue(after.0),
                            rest,
                        ),
                    }
                } else {
                    match then {
                        Done(out) => {
                            let rest = choose|left: Seq<Str::Item>| #[trigger]
                                self.begins(first, result, left) && whole == left + second;
                            let x = choose|x: F::Input|
                                #![trigger self.0.begins(first, Some(Done(x)), rest)]
                                self.0.begins(first, Some(Done(x)), rest) && self.1.maps(x, out);
                            self.0.begins_extended(first, x, rest, second);
                        },
                        Continue(_) => {},
                    }
                }
            },
        }
    }

    fn init(&self, string: &mut Str) -> (result: Option<ParseResult<Self::State, Output>>) {
        match self.0.init(string) {
            None => None,
            Some(Done(x)) => Some(Done(self.1.apply(x))),
            Some(Continue(next)) => Some(Continue(VariantMap(next, self.1))),
        }
    }
}

impl<P, F, Str, Output> Committed<Str, Output> for VariantMap<P, F> where
    Str: PeekableIterator,
    P: Committed<Str, F::Input>,
    F: Copy + VariantFunction<Output>,
 {
    open spec fn answer_wf(&self) -> bool {
        self.0.answer_wf() && forall|x: F::Input| #[trigger]
            self.0.answers(x) ==> self.1.defined_on(x)
    }

    open spec fn answers(&self, out: Output) -> bool {
        exists|x: F::Input| #![trigger self.0.answers(x)] self.0.answers(x) && self.1.maps(x, out)
    }

    fn empty(&self) -> (out: Output) {
        self.1.apply(self.0.empty())
    }
}

/// `p`, with its output thrown away.
#[derive(Clone, Copy, Debug)]
pub struct Discard<P>(pub P);

impl<P> Discard<P> {
    pub fn new(parser: P) -> (discard: Self)
        ensures
            discard.0 == parser,
    {
        Discard(parser)
    }
}

impl<P, Str> HasOutput<Str> for Discard<P> {
    type Output = ();
}

impl<P, Str> Stateful<Str, ()> for Discard<P> where
    Str: PeekableIterator,
    P: HasOutput<Str> + Stateful<Str, P::Output>,
 {
    open spec fn state_wf(self) -> bool {
        self.0.state_wf()
    }

    open spec fn resumes(
        self,
        input: Seq<Str::Item>,
        result: ParseResult<Self, ()>,
        rest: Seq<Str::Item>,
    ) -> bool {
        match result {
            Done(_) => exists|x: P::Output| #[trigger]
                self.0.resumes(input, Done(x), rest),
            Continue(Discard(next)) => self.0.resumes(input, Continue(next), rest),
        }
    }

    open spec fn finishes(self, out: ()) -> bool {
        true
    }

    proof fn resumes_sound(
        self,
        input: Seq<Str::Item>,
        result: ParseResult<Self, ()>,
        rest: Seq<Str::Item>,
    ) {
        match result {
            Done(_) => {
                let x = choose|x: P::Output| #[trigger]
                    self.0.resumes(input, Done(x), rest);
                self.0.resumes_sound(input, Done(x), rest);
            },
            Continue(Discard(next)) => self.0.resumes_sound(input, Continue(next), rest),
        }
    }

    proof fn resumes_prolonged(
        self,
        first: Seq<Str::Item>,
        second: Seq<Str::Item>,
        result: ParseResult<Self, ()>,
        rest: Seq<Str::Item>,
    ) {
        let whole = rest;
        if exists|next: Self| #[trigger]
            self.resumes(first, Continue(next), Seq::empty()) && next.resumes(
                second,
                result,
                whole,
            ) {
            let next = choose|next: Self| #[trigger]
                self.resumes(first, Continue(next), Seq::empty()) && next.resumes(
                    second,
                    result,
                    whole,
                );
            match result {
                Done(_) => {
                    let x = choose|x: P::Output| #[trigger]
                        next.0.resumes(second, Done(x), rest);
                    self.0.resumes_joined(first, next.0, second, Done(x), rest);
                },
                Continue(after) => self.0.resumes_joined(
                    first,
                    next.0,
                    second,
                    Continue(after.0),
                    rest,
                ),
            }
        } else {
            match result {
                Done(out) => {
                    let rest = choose|left: Seq<Str::Item>| #[trigger]
                        self.resumes(first, result, left) && whole == left + second;
                    let x = choose|x: P::Output| #[trigger]
                        self.0.resumes(first, Done(x), rest);
                    self.0.resumes_extended(first, x, rest, second);
                },
                Continue(_) => {},
            }
        }
    }

    fn more(self, string: &mut Str) -> (result: ParseResult<Self, ()>) {
        match self.0.more(string) {
            Done(_) => Done(()),
            Continue(next) => Continue(Discard(next)),
        }
    }

    fn done(self) -> (out: ()) {
        ()
    }
}

impl<P, Str> Uncommitted<Str, ()> for Discard<P> where
    Str: PeekableIterator,
    P: HasOutput<Str> + Uncommitted<Str, P::Output>,
    P::State: HasOutput<
        Str,
        Output = P::Output,
    >,
 {
    type State = Discard<P::State>;

    open spec fn parser_wf(&self) -> bool {
        self.0.parser_wf()
    }

    open spec fn begins(
        &self,
        input: Seq<Str::Item>,
        result: Option<ParseResult<Self::State, ()>>,
        rest: Seq<Str::Item>,
    ) -> bool {
        match result {
            None => self.0.begins(input, None, rest),
            Some(Done(_)) => exists|x: P::Output| #[trigger]
                self.0.begins(input, Some(Done(x)), rest),
            Some(Continue(Discard(next))) => self.0.begins(input, Some(Continue(next)), rest),
        }
    }

    proof fn begins_sound(
        &self,
        input: Seq<Str::Item>,
        result: Option<ParseResult<Self::State, ()>>,
        rest: Seq<Str::Item>,
    ) {
        match result {
            None => self.0.begins_sound(input, None, rest),
            Some(Done(_)) => {
                let x = choose|x: P::Output| #[trigger]
                    self.0.begins(input, Some(Done(x)), rest);
                self.0.begins_sound(input, Some(Done(x)), rest);
            },
            Some(Continue(Discard(next))) => self.0.begins_sound(
                input,
                Some(Continue(next)),
                rest,
            ),
        }
    }

    proof fn begins_prolonged(
        &self,
        first: Seq<Str::Item>,
        second: Seq<Str::Item>,
        result: Option<ParseResult<Self::State, ()>>,
        rest: Seq<Str::Item>,
    ) {
        let whole = rest;
        match result {
            None => {
                let rest = first;
                self.0.begins_sound(first, None, rest);
                self.0.declines_extended(first, rest, second);
            },
            Some(then) => {
                if exists|next: Self::State| #[trigger]
                    self.begins(first, Some(Continue(next)), Seq::empty()) && next.resumes(
                        second,
                        then,
                        whole,
                    ) {
                    let next = choose|next: Self::State| #[trigger]
                        self.begins(first, Some(Continue(next)), Seq::empty()) && next.resumes(
                            second,
                            then,
                            whole,
                        );
                    let result = then;
                    match result {
                        Done(_) => {
                            let x = choose|x: P::Output| #[trigger]
                                next.0.resumes(second, Done(x), rest);
                            self.0.begins_joined(first, next.0, second, Done(x), rest);
                        },
                        Continue(after) => self.0.begins_joined(
                            first,
                            next.0,
                            second,
                            Continue(after.0),
                            rest,
                        ),
                    }
                } else {
                    match then {
                        Done(out) => {
                            let rest = choose|left: Seq<Str::Item>| #[trigger]
                                self.begins(first, result, left) && whole == left + second;
                            let x = choose|x: P::Output| #[trigger]
                                self.0.begins(first, Some(Done(x)), rest);
                            self.0.begins_extended(first, x, rest, second);
                        },
                        Continue(_) => {},
                    }
                }
            },
        }
    }

    fn init(&self, string: &mut Str) -> (result: Option<ParseResult<Self::State, ()>>) {
        match self.0.init(string) {
            None => None,
            Some(Done(_)) => Some(Done(())),
            Some(Continue(next)) => Some(Continue(Discard(next))),
        }
    }
}

impl<P, Str> Committed<Str, ()> for Discard<P> where
    Str: PeekableIterator,
    P: HasOutput<Str> + Committed<Str, P::Output>,
    P::State: HasOutput<
        Str,
        Output = P::Output,
    >,
 {
    open spec fn answer_wf(&self) -> bool {
        true
    }

    open spec fn answers(&self, out: ()) -> bool {
        true
    }

    fn empty(&self) -> (out: ()) {
        ()
    }
}

/// `p` once, or not at all.
#[derive(Clone, Copy, Debug)]
pub struct Opt<P>(pub P);

impl<P> Opt<P> {
    pub fn new(parser: P) -> (opt: Self)
        ensures
            opt.0 == parser,
    {
        Opt(parser)
    }
}

impl<P, Str> HasOutput<Str> for Opt<P> where P: HasOutput<Str> {
    type Output = Option<P::Output>;
}

impl<P, Str, Output> Stateful<Str, Option<Output>> for Opt<P> where
    Str: PeekableIterator,
    P: Stateful<Str, Output>,
 {
    open spec fn state_wf(self) -> bool {
        self.0.state_wf()
    }

    open spec fn resumes(
        self,
        input: Seq<Str::Item>,
        result: ParseResult<Self, Option<Output>>,
        rest: Seq<Str::Item>,
    ) -> bool {
        match result {
            Done(Some(x)) => self.0.resumes(input, Done(x), rest),
            Done(None) => false,
            Continue(Opt(next)) => self.0.resumes(input, Continue(next), rest),
        }
    }

    open spec fn finishes(self, out: Option<Output>) -> bool {
        out matches Some(x) && self.0.finishes(x)
    }

    proof fn resumes_sound(
        self,
        input: Seq<Str::Item>,
        result: ParseResult<Self, Option<Output>>,
        rest: Seq<Str::Item>,
    ) {
        match result {
            Done(Some(x)) => self.0.resumes_sound(input, Done(x), rest),
            Done(None) => {},
            Continue(Opt(next)) => self.0.resumes_sound(input, Continue(next), rest),
        }
    }

    proof fn resumes_prolonged(
        self,
        first: Seq<Str::Item>,
        second: Seq<Str::Item>,
        result: ParseResult<Self, Option<Output>>,
        rest: Seq<Str::Item>,
    ) {
        let whole = rest;
        if exists|next: Self| #[trigger]
            self.resumes(first, Continue(next), Seq::empty()) && next.resumes(
                second,
                result,
                whole,
            ) {
            let next = choose|next: Self| #[trigger]
                self.resumes(first, Continue(next), Seq::empty()) && next.resumes(
                    second,
                    result,
                    whole,
                );
            match result {
                Done(Some(x)) => self.0.resumes_joined(first, next.0, second, Done(x), rest),
                Done(None) => {},
                Continue(after) => self.0.resumes_joined(
                    first,
                    next.0,
                    second,
                    Continue(after.0),
                    rest,
                ),
            }
        } else {
            match result {
                Done(out) => {
                    let rest = choose|left: Seq<Str::Item>| #[trigger]
                        self.resumes(first, result, left) && whole == left + second;
                    match out {
                        Some(x) => self.0.resumes_extended(first, x, rest, second),
                        None => {},
                    }
                },
                Continue(_) => {},
            }
        }
    }

    fn more(self, string: &mut Str) -> (result: ParseResult<Self, Option<Output>>) {
        match self.0.more(string) {
            Done(x) => Done(Some(x)),
            Continue(next) => Continue(Opt(next)),
        }
    }

    fn done(self) -> (out: Option<Output>) {
        Some(self.0.done())
    }
}

impl<P, Str, Output> Uncommitted<Str, Option<Output>> for Opt<P> where
    Str: PeekableIterator,
    P: Uncommitted<Str, Output>,
 {
    type State = Opt<P::State>;

    open spec fn parser_wf(&self) -> bool {
        self.0.parser_wf()
    }

    open spec fn begins(
        &self,
        input: Seq<Str::Item>,
        result: Option<ParseResult<Self::State, Option<Output>>>,
        rest: Seq<Str::Item>,
    ) -> bool {
        match result {
            None => self.0.begins(input, None, input) && input.len() == 0 && rest == input,
            Some(Done(None)) => self.0.begins(input, None, input) && input.len() > 0 && rest
                == input,
            Some(Done(Some(x))) => self.0.begins(input, Some(Done(x)), rest),
            Some(Continue(Opt(next))) => self.0.begins(input, Some(Continue(next)), rest),
        }
    }

    proof fn begins_sound(
        &self,
        input: Seq<Str::Item>,
        result: Option<ParseResult<Self::State, Option<Output>>>,
        rest: Seq<Str::Item>,
    ) {
        match result {
            None => lemma_suffix_refl(input),
            Some(Done(None)) => lemma_suffix_refl(input),
            Some(Done(Some(x))) => self.0.begins_sound(input, Some(Done(x)), rest),
            Some(Continue(Opt(next))) => self.0.begins_sound(input, Some(Continue(next)), rest),
        }
    }

    proof fn begins_prolonged(
        &self,
        first: Seq<Str::Item>,
        second: Seq<Str::Item>,
        result: Option<ParseResult<Self::State, Option<Output>>>,
        rest: Seq<Str::Item>,
    ) {
        let whole = rest;
        match result {
            None => {
                let rest = first;
            },
            Some(then) => {
                if exists|next: Self::State| #[trigger]
                    self.begins(first, Some(Continue(next)), Seq::empty()) && next.resumes(
                        second,
                        then,
                        whole,
                    ) {
                    let next = choose|next: Self::State| #[trigger]
                        self.begins(first, Some(Continue(next)), Seq::empty()) && next.resumes(
                            second,
                            then,
                            whole,
                        );
                    let result = then;
                    match result {
                        Done(Some(x)) => self.0.begins_joined(first, next.0, second, Done(x), rest),
                        Done(None) => {},
                        Continue(after) => self.0.begins_joined(
                            first,
                            next.0,
                            second,
                            Continue(after.0),
                            rest,
                        ),
                    }
                } else {
                    match then {
                        Done(out) => {
                            let rest = choose|left: Seq<Str::Item>| #[trigger]
                                self.begins(first, result, left) && whole == left + second;
                            match out {
                                None => self.0.declines_extended(first, first, second),
                                Some(x) => self.0.begins_extended(first, x, rest, second),
                            }
                        },
                        Continue(_) => {},
                    }
                }
            },
        }
    }

    fn init(&self, string: &mut Str) -> (result: Option<
        ParseResult<Self::State, Option<Output>>,
    >) {
        let ghost input = string.rest();
        match self.0.init(string) {
            None => {
                proof {
                    self.0.begins_sound(input, None, string.rest());
                }
                if string.is_empty() {
                    None
                } else {
                    Some(Done(None))
                }
            },
            Some(Done(x)) => Some(Done(Some(x))),
            Some(Continue(next)) => Some(Continue(Opt(next))),
        }
    }
}

impl<P, Str, Output> Committed<Str, Option<Output>> for Opt<P> where
    Str: PeekableIterator,
    P: Uncommitted<Str, Output>,
 {
    open spec fn answer_wf(&self) -> bool {
        true
    }

    open spec fn answers(&self, out: Option<Output>) -> bool {
        out.is_none()
    }

    fn empty(&self) -> (out: Option<Output>) {
        None
    }
}

} // verus!
