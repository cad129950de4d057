//! Type erasure: a parse in progress behind a uniform handle, so that the
//! state of a recursive grammar has a type of fixed size.

use vstd::prelude::*;
use crate::contract::{
    admits, is_suffix, lemma_admits_suspend, lemma_suffix_of_joined, lemma_suspend_witness,
    Boxable, Committed, Function, HasOutput, ParseResult, PeekableIterator, Run, Stateful,
    Uncommitted,
};
use crate::contract::ParseResult::{Continue, Done};

verus! {

/// A parse in progress that can be advanced in place. It holds the state
/// until the parse is done; after that the handle is spent.
#[derive(Debug)]
pub struct BoxableState<P>(pub Option<P>);

impl<P> BoxableState<P> {
    pub fn new(parser: P) -> (state: Self)
        ensures
            state.0 == Some(parser),
    {
        BoxableState(Some(parser))
    }
}

impl<P, Str> HasOutput<Str> for BoxableState<P> where P: HasOutput<Str> {
    type Output = P::Output;
}

impl<P, Str, Output> Boxable<Str, Output> for BoxableState<P> where
    Str: PeekableIterator,
    P: Stateful<Str, Output>,
 {
    open spec fn handle_wf(&self) -> bool {
        self.0 matches Some(state) && state.state_wf()
    }

    open spec fn runs(&self, run: Run<Str::Item, Output>) -> bool {
        self.0 matches Some(state) && admits::<Str, P, Output>(state, run)
    }

    proof fn runs_sound(&self, run: Run<Str::Item, Output>) {
        let state = self.0.unwrap();
        match run {
            Run::Close(_) => {},
            Run::Complete(input, out, rest) => state.resumes_sound(input, Done(out), rest),
            Run::Suspend(input, rest, tail) => {
                let next = choose|next: P|
                    #![trigger state.resumes(input, Continue(next), rest)]
                    state.resumes(input, Continue(next), rest) && admits::<Str, P, Output>(
                        next,
                        *tail,
                    );
                state.resumes_sound(input, Continue(next), rest);
            },
        }
    }

    proof fn runs_extended(
        &self,
        first: Seq<Str::Item>,
        out: Output,
        rest: Seq<Str::Item>,
        second: Seq<Str::Item>,
    ) {
        self.0.unwrap().resumes_extended(first, out, rest, second);
    }

    proof fn runs_joined(&self, first: Seq<Str::Item>, step: Run<Str::Item, Output>) {
        let state = self.0.unwrap();
        let next = lemma_suspend_witness::<Str, P, Output>(state, first, Seq::empty(), step);
        match step {
            Run::Close(_) => {},
            Run::Complete(second, out, rest) => {
                state.resumes_joined(first, next, second, Done(out), rest);
            },
            Run::Suspend(second, rest, tail) => {
                let after = lemma_suspend_witness::<Str, P, Output>(next, second, rest, *tail);
                state.resumes_joined(first, next, second, Continue(after), rest);
                lemma_admits_suspend::<Str, P, Output>(state, first + second, rest, after, *tail);
            },
        }
    }

    fn more_boxable(&mut self, string: &mut Str) -> (result: ParseResult<(), Output>)
        ensures
            match result {
                Done(out) => final(self).0 is None && old(self).0.unwrap().resumes(
                    old(string).rest(),
                    Done(out),
                    final(string).rest(),
                ),
                Continue(_) => final(self).0 matches Some(next) && old(self).0.unwrap().resumes(
                    old(string).rest(),
                    Continue(next),
                    final(string).rest(),
                ),
            },
    {
        let ghost input = string.rest();
        let state = self.0.take().unwrap();
        match state.more(string) {
            Done(out) => {
                assert(admits::<Str, P, Output>(
                    state,
                    Run::Complete(input, out, string.rest()),
                ));
                Done(out)
            },
            Continue(next) => {
                proof {
                    state.resumes_sound(input, Continue(next), string.rest());
                    assert forall|tail: Run<Str::Item, Output>|
                        admits::<Str, P, Output>(next, tail) implies admits::<Str, P, Output>(
                        state,
                        Run::Suspend(input, string.rest(), Box::new(tail)),
                    ) by {
                        lemma_admits_suspend::<Str, P, Output>(
                            state,
                            input,
                            string.rest(),
                            next,
                            tail,
                        );
                    }
                }
                self.0 = Some(next);
                Continue(())
            },
        }
    }

    fn done_boxable(&mut self) -> (out: Output)
        ensures
            final(self).0 is None,
            old(self).0.unwrap().finishes(out),
    {
        self.0.take().unwrap().done()
    }
}

impl<P: ?Sized, Str, Output> Stateful<Str, Output> for Box<P> where
    Str: PeekableIterator,
    P: Boxable<Str, Output>,
 {
    open spec fn state_wf(self) -> bool {
        self.handle_wf()
    }

    open spec fn resumes(
        self,
        input: Seq<Str::Item>,
        result: ParseResult<Self, Output>,
        rest: Seq<Str::Item>,
    ) -> bool {
        match result {
            Done(out) => self.runs(Run::Complete(input, out, rest)),
            Continue(next) => {
                &&& next.handle_wf()
                &&& is_suffix(rest, input)
                &&& forall|tail: Run<Str::Item, Output>| #[trigger]
                    next.runs(tail) ==> self.runs(Run::Suspend(input, rest, Box::new(tail)))
            },
        }
    }

    open spec fn finishes(self, out: Output) -> bool {
        self.runs(Run::Close(out))
    }

    proof fn resumes_sound(
        self,
        input: Seq<Str::Item>,
        result: ParseResult<Self, Output>,
        rest: Seq<Str::Item>,
    ) {
        match result {
            Done(out) => self.runs_sound(Run::Complete(input, out, rest)),
            Continue(next) => {},
        }
    }

    proof fn resumes_prolonged(
        self,
        first: Seq<Str::Item>,
        second: Seq<Str::Item>,
        result: ParseResult<Self, Output>,
        rest: Seq<Str::Item>,
    ) {
        let whole = rest;
        if exists|next: Self| #[trigger]
            self.resumes(first, Continue(next), Seq::empty()) && next.resumes(
                second,
                result,
                whole,
            ) {
            let next = choose|next: Self| #[trigger]
                self.resumes(first, Continue(next), Seq::empty()) && next.resumes(
                    second,
                    result,
                    whole,
                );
            match result {
                Done(out) => {
                    self.runs_joined(first, Run::Complete(second, out, rest));
                },
                Continue(after) => {
                    lemma_suffix_of_joined(rest, first, second);
                    assert forall|tail: Run<Str::Item, Output>| #[trigger] after.runs(tail) implies self.runs(
                        Run::Suspend(first + second, rest, Box::new(tail)),
                    ) by {
                        self.runs_joined(first, Run::Suspend(second, rest, Box::new(tail)));
                    }
                },
            }
        } else {
            match result {
                Done(out) => {
                    let rest = choose|left: Seq<Str::Item>| #[trigger]
                        self.resumes(first, result, left) && whole == left + second;
                    self.runs_extended(first, out, rest, second);
                },
                Continue(_) => {},
            }
        }
    }

    fn more(self, string: &mut Str) -> (result: ParseResult<Self, Output>) {
        let mut handle = self;
        match handle.more_boxable(string) {
            Done(out) => Done(out),
            Continue(_) => Continue(handle),
        }
    }

    fn done(self) -> (out: Output) {
        let mut handle = self;
        handle.done_boxable()
    }
}

/// The handle stands for the state it was made from: it can be resumed, and
/// every run of the handle is a run of that state.
pub open spec fn erases<Str, S, H, Output>(state: BoxableState<S>, handle: H) -> bool where
    Str: PeekableIterator,
    S: Stateful<Str, Output>,
    H: Stateful<Str, Output>,
 {
    &&& handle.state_wf()
    &&& forall|run: Run<Str::Item, Output>| #[trigger]
        admits::<Str, H, Output>(handle, run) ==> state.runs(run)
}

/// `p`, with an adapter that is applied to the state at the moment `p`
/// suspends. The adapter is meant to put the state behind a handle.
#[derive(Clone, Copy, Debug)]
pub struct Boxed<P, F>(pub P, pub F);

impl<P, F> Boxed<P, F> {
    pub fn new(parser: P, function: F) -> (boxed: Self)
        ensures
            boxed.0 == parser,
            boxed.1 == function,
    {
        Boxed(parser, function)
    }
}

impl<P, F, Str> HasOutput<Str> for Boxed<P, F> where P: HasOutput<Str> {
    type Output = P::Output;
}

impl<P, F, Str, Output> Uncommitted<Str, Output> for Boxed<P, F> where
    Str: PeekableIterator,
    P: Uncommitted<Str, Output>,
    F: Function<BoxableState<P::State>>,
    F::Output: Stateful<Str, Output>,
 {
    type State = F::Output;

    open spec fn parser_wf(&self) -> bool {
        &&& self.0.parser_wf()
        &&& forall|state: BoxableState<P::State>|
            state.handle_wf() ==> #[trigger] self.1.defined_on(state)
        &&& forall|state: BoxableState<P::State>, handle: F::Output|
            state.handle_wf() && #[trigger] self.1.maps(state, handle) ==> erases::<
                Str,
                P::State,
                F::Output,
                Output,
            >(state, handle)
    }

    open spec fn begins(
        &self,
        input: Seq<Str::Item>,
        result: Option<ParseResult<Self::State, Output>>,
        rest: Seq<Str::Item>,
    ) -> bool {
        match result {
            None => self.0.begins(input, None, rest),
            Some(Done(out)) => self.0.begins(input, Some(Done(out)), rest),
            Some(Continue(handle)) => {
                &&& handle.state_wf()
                &&& input.len() > 0
                &&& is_suffix(rest, input)
                &&& forall|run: Run<Str::Item, Output>| #[trigger]
                    admits::<Str, F::Output, Output>(handle, run) ==> exists|state: P::State|
                        #![trigger self.0.begins(input, Some(Continue(state)), rest)]
                        self.0.begins(input, Some(Continue(state)), rest) && admits::<
                            Str,
                            P::State,
                            Output,
                        >(state, run)
            },
        }
    }

    proof fn begins_sound(
        &self,
        input: Seq<Str::Item>,
        result: Option<ParseResult<Self::State, Output>>,
        rest: Seq<Str::Item>,
    ) {
        match result {
            None => self.0.begins_sound(input, None, rest),
            Some(Done(out)) => self.0.begins_sound(input, Some(Done(out)), rest),
            Some(Continue(handle)) => {},
        }
    }

    proof fn begins_prolonged(
        &self,
        first: Seq<Str::Item>,
        second: Seq<Str::Item>,
        result: Option<ParseResult<Self::State, Output>>,
        rest: Seq<Str::Item>,
    ) {
        let whole = rest;
        match result {
            None => {
                let rest = first;
                self.0.begins_sound(first, None, rest);
                self.0.declines_extended(first, rest, second);
            },
            Some(then) => {
                if exists|next: Self::State| #[trigger]
                    self.begins(first, Some(Continue(next)), Seq::empty()) && next.resumes(
                        second,
                        then,
                        whole,
                    ) {
                    let next = choose|next: Self::State| #[trigger]
                        self.begins(first, Some(Continue(next)), Seq::empty()) && next.resumes(
                            second,
                            then,
                            whole,
                        );
                    let result = then;
                    let empty = Seq::<Str::Item>::empty();
                    next.resumes_sound(second, result, rest);
                    match result {
                        Done(out) => {
                            let run = Run::Complete(second, out, rest);
                            assert(admits::<Str, F::Output, Output>(next, run));
                            let state = choose|state: P::State|
                                #![trigger self.0.begins(first, Some(Continue(state)), empty)]
                                self.0.begins(first, Some(Continue(state)), empty) && admits::<
                                    Str,
                                    P::State,
                                    Output,
                                >(state, run);
                            self.0.begins_joined(first, state, second, Done(out), rest);
                        },
                        Continue(after) => {
                            lemma_suffix_of_joined(rest, first, second);
                            assert forall|run: Run<Str::Item, Output>| #[trigger]
                                admits::<Str, F::Output, Output>(after, run) implies exists|state: P::State|
                                #![trigger self.0.begins(first + second, Some(Continue(state)), rest)]
                                self.0.begins(first + second, Some(Continue(state)), rest) && admits::<
                                    Str,
                                    P::State,
                                    Output,
                                >(state, run) by {
                                lemma_admits_suspend::<Str, F::Output, Output>(
                                    next,
                                    second,
                                    rest,
                                    after,
                                    run,
                                );
                                let step = Run::Suspend(second, rest, Box::new(run));
                                let state = choose|state: P::State|
                                    #![trigger self.0.begins(first, Some(Continue(state)), empty)]
                                    self.0.begins(first, Some(Continue(state)), empty) && admits::<
                                        Str,
                                        P::State,
                                        Output,
                                    >(state, step);
                                let then = lemma_suspend_witness::<Str, P::State, Output>(
                                    state,
                                    second,
                                    rest,
                                    run,
                                );
                                self.0.begins_joined(first, state, second, Continue(then), rest);
                            }
                        },
                    }
                } else {
                    match then {
                        Done(out) => {
                            let rest = choose|left: Seq<Str::Item>| #[trigger]
                                self.begins(first, result, left) && whole == left + second;
                            self.0.begins_extended(first, out, rest, second);
                        },
                        Continue(_) => {},
                    }
                }
            },
        }
    }

    fn init(&self, string: &mut Str) -> (result: Option<ParseResult<Self::State, Output>>) {
        let ghost input = string.rest();
        match self.0.init(string) {
            None => None,
            Some(Done(out)) => Some(Done(out)),
            Some(Continue(state)) => {
                proof {
                    self.0.begins_sound(input, Some(Continue(state)), string.rest());
                }
                Some(Continue(self.1.apply(BoxableState::new(state))))
            },
        }
    }
}

impl<P, F, Str, Output> Committed<Str, Output> for Boxed<P, F> where
    Str: PeekableIterator,
    P: Committed<Str, Output>,
    F: Function<BoxableState<P::State>>,
    F::Output: Stateful<Str, Output>,
 {
    open spec fn answer_wf(&self) -> bool {
        self.0.answer_wf()
    }

    open spec fn answers(&self, out: Output) -> bool {
        self.0.answers(out)
    }

    fn empty(&self) -> (out: Output) {
        self.0.empty()
    }
}

} // verus!
