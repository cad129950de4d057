//! The suspend/resume result type and the parser contracts.

use vstd::prelude::*;

verus! {

/// The outcome of handing a fragment to a parser: either the parse is over
/// and yields its output, or the fragment ran out and the state is kept.
#[derive(Clone, Copy, Debug)]
pub enum ParseResult<State, Output> {
    Done(Output),
    Continue(State),
}

/// An input fragment: a sequence of tokens that is consumed from the front.
pub trait PeekableIterator: Sized {
    type Item;

    /// The tokens of the fragment that have not been consumed yet.
    spec fn rest(&self) -> Seq<Self::Item>;

    fn is_empty(&self) -> (b: bool)
        ensures
            b == (self.rest().len() == 0),
    ;

    /// Consumes and returns the next token if there is one and the
    /// predicate holds of it; otherwise consumes nothing.
    fn next_if<F>(&mut self, f: F) -> (r: Option<Self::Item>) where
        F: Function<Self::Item, Output = bool>,

        requires
            old(self).rest().len() > 0 ==> f.defined_on(old(self).rest()[0]),
        ensures
            match r {
                Some(token) => {
                    &&& old(self).rest().len() > 0
                    &&& token == old(self).rest()[0]
                    &&& f.maps(token, true)
                    &&& final(self).rest() == old(self).rest().skip(1)
                },
                None => {
                    &&& final(self).rest() == old(self).rest()
                    &&& old(self).rest().len() > 0 ==> f.maps(old(self).rest()[0], false)
                },
            },
    ;

    /// As `next_if`, with a predicate that looks at the token through a
    /// reference.
    fn next_if_ref<F>(&mut self, f: F) -> (r: Option<Self::Item>) where
        F: for <'b>Function<&'b Self::Item, Output = bool>,

        requires
            old(self).rest().len() > 0 ==> f.defined_on(&old(self).rest()[0]),
        ensures
            match r {
                Some(token) => {
                    &&& old(self).rest().len() > 0
                    &&& token == old(self).rest()[0]
                    &&& f.maps(&token, true)
                    &&& final(self).rest() == old(self).rest().skip(1)
                },
                None => {
                    &&& final(self).rest() == old(self).rest()
                    &&& old(self).rest().len() > 0 ==> f.maps(&old(self).rest()[0], false)
                },
            },
    ;

    /// Consumes and returns the next token, if there is one.
    fn next(&mut self) -> (r: Option<Self::Item>)
        ensures
            old(self).rest().len() == 0 ==> r.is_none() && final(self).rest() == old(self).rest(),
            old(self).rest().len() > 0 ==> r == Some(old(self).rest()[0]) && final(self).rest()
                == old(self).rest().skip(1),
    ;
}

/// A pure transformation of a value. `defined_on(arg)` says that `apply`
/// may be called on `arg`; `maps(arg, out)` says that `out` is a result
/// that `apply(arg)` may return.
pub trait Function<S> {
    type Output;

    spec fn defined_on(&self, arg: S) -> bool;

    spec fn maps(&self, arg: S, out: Self::Output) -> bool;

    fn apply(&self, arg: S) -> (out: Self::Output)
        requires
            self.defined_on(arg),
        ensures
            self.maps(arg, out),
    ;
}

/// A transformation whose argument type is fixed by the result type that
/// is asked of it; otherwise as `Function`.
pub trait VariantFunction<T> {
    type Input;

    spec fn defined_on(&self, arg: Self::Input) -> bool;

    spec fn maps(&self, arg: Self::Input, out: T) -> bool;

    fn apply(&self, arg: Self::Input) -> (out: T)
        requires
            self.defined_on(arg),
        ensures
            self.maps(arg, out),
    ;
}

/// Creates a fresh accumulator. `builds(out)` says that `out` is a value
/// that `build()` may return.
pub trait Factory {
    type Output;

    spec fn builds(&self, out: Self::Output) -> bool;

    /// What must hold of the factory for `build` to be called.
    spec fn ready(&self) -> bool;

    fn build(&self) -> (out: Self::Output)
        requires
            self.ready(),
        ensures
            self.builds(out),
    ;
}

/// An accumulator that folds items in one at a time. `folds(before, item,
/// after)` says that accepting `item` into `before` may leave `after`.
pub trait Consumer<T>: Sized {
    spec fn folds(before: Self, item: T, after: Self) -> bool;

    fn accept(&mut self, item: T)
        ensures
            Self::folds(*old(self), item, *final(self)),
    ;
}

/// `rest` is what is left of `input` after some tokens were taken from its
/// front.
pub open spec fn is_suffix<T>(rest: Seq<T>, input: Seq<T>) -> bool {
    rest.len() <= input.len() && rest == input.skip(input.len() - rest.len())
}

/// Taking nothing leaves everything.
pub proof fn lemma_suffix_refl<T>(a: Seq<T>)
    ensures
        is_suffix(a, a),
{
    assert(a =~= a.skip(0));
}

/// What is left of what is left is left of the whole.
pub proof fn lemma_suffix_trans<T>(a: Seq<T>, b: Seq<T>, c: Seq<T>)
    requires
        is_suffix(a, b),
        is_suffix(b, c),
    ensures
        is_suffix(a, c),
{
    assert(a =~= c.skip(c.len() - a.len()));
}

/// Taking the first token of a fragment leaves the rest of it, whatever
/// follows the fragment.
pub proof fn lemma_skip_one_add<T>(first: Seq<T>, second: Seq<T>)
    requires
        first.len() > 0,
    ensures
        (first + second).skip(1) == first.skip(1) + second,
        (first + second)[0] == first[0],
{
    assert((first + second).skip(1) =~= first.skip(1) + second);
}

/// What is left of a second fragment is left of the two joined.
pub proof fn lemma_suffix_of_joined<T>(rest: Seq<T>, first: Seq<T>, second: Seq<T>)
    requires
        is_suffix(rest, second),
    ensures
        is_suffix(rest, first + second),
{
    assert(rest =~= (first + second).skip((first + second).len() - rest.len()));
}

/// Nothing, and then a fragment, is the fragment.
pub proof fn lemma_empty_add<T>(first: Seq<T>, second: Seq<T>)
    requires
        first.len() == 0,
    ensures
        first + second == second,
        second + first == second,
{
    assert(first + second =~= second);
    assert(second + first =~= second);
}

/// A parse in progress: it is handed further fragments until it is done.
///
/// `resumes(input, result, rest)` says that handing over a fragment whose
/// tokens are `input` may return `result` and leave `rest` unconsumed;
/// `finishes(out)` says that `out` may be the output when no more input
/// will arrive.
pub trait Stateful<Str: PeekableIterator, Output>: Sized {
    /// What the state's holder must keep true of it.
    spec fn state_wf(self) -> bool;

    spec fn resumes(
        self,
        input: Seq<Str::Item>,
        result: ParseResult<Self, Output>,
        rest: Seq<Str::Item>,
    ) -> bool;

    spec fn finishes(self, out: Output) -> bool;

    /// Resuming only takes tokens from the front of the fragment, and a
    /// state that it hands back can be resumed again.
    proof fn resumes_sound(
        self,
        input: Seq<Str::Item>,
        result: ParseResult<Self, Output>,
        rest: Seq<Str::Item>,
    )
        requires
            self.state_wf(),
            self.resumes(input, result, rest),
        ensures
            is_suffix(rest, input),
            result matches ParseResult::Continue(s) ==> s.state_wf(),
    ;

    /// What a parse does on a fragment and on what follows it, it may do on
    /// the two joined: where it is done within the first, what follows is
    /// left untouched behind what it leaves; where it suspends with the
    /// first used up and goes on with the second, it may do in one step
    /// what it did in two.
    proof fn resumes_prolonged(
        self,
        first: Seq<Str::Item>,
        second: Seq<Str::Item>,
        result: ParseResult<Self, Output>,
        rest: Seq<Str::Item>,
    )
        requires
            self.state_wf(),
            ({
                ||| result is Done && exists|left: Seq<Str::Item>| #[trigger]
                    self.resumes(first, result, left) && rest == left + second
                ||| exists|next: Self| #[trigger]
                    self.resumes(first, ParseResult::Continue(next), Seq::empty())
                        && next.resumes(second, result, rest)
            }),
        ensures
            self.resumes(first + second, result, rest),
    ;

    /// A parse that is done within a fragment is done in the same way
    /// whatever follows, and leaves what follows untouched.
    proof fn resumes_extended(
        self,
        first: Seq<Str::Item>,
        out: Output,
        rest: Seq<Str::Item>,
        second: Seq<Str::Item>,
    )
        requires
            self.state_wf(),
            self.resumes(first, ParseResult::Done(out), rest),
        ensures
            self.resumes(first + second, ParseResult::Done(out), rest + second),
    {
        self.resumes_prolonged(first, second, ParseResult::Done(out), rest + second);
    }

    /// Where a parse takes all of a fragment and suspends, and then goes on
    /// with a second fragment, it may do in one step on the two fragments
    /// joined what it did in two.
    proof fn resumes_joined(
        self,
        first: Seq<Str::Item>,
        next: Self,
        second: Seq<Str::Item>,
        result: ParseResult<Self, Output>,
        rest: Seq<Str::Item>,
    )
        requires
            self.state_wf(),
            self.resumes(first, ParseResult::Continue(next), Seq::empty()),
            next.resumes(second, result, rest),
        ensures
            self.resumes(first + second, result, rest),
    {
        self.resumes_prolonged(first, second, result, rest);
    }

    fn more(self, string: &mut Str) -> (result: ParseResult<Self, Output>)
        requires
            self.state_wf(),
        ensures
            self.resumes(old(string).rest(), result, final(string).rest()),
    ;

    fn done(self) -> (out: Output)
        requires
            self.state_wf(),
        ensures
            self.finishes(out),
    ;
}

/// A parser that may decline: `init` returns `None` when the input does
/// not start a match, and then nothing has been consumed.
///
/// `begins(input, result, rest)` says that starting on a fragment whose
/// tokens are `input` may return `result` and leave `rest` unconsumed.
pub trait Uncommitted<Str: PeekableIterator, Output>: Sized {
    type State: Stateful<Str, Output>;

    /// What must hold of the parser for it to be started.
    spec fn parser_wf(&self) -> bool;

    spec fn begins(
        &self,
        input: Seq<Str::Item>,
        result: Option<ParseResult<Self::State, Output>>,
        rest: Seq<Str::Item>,
    ) -> bool;

    /// Starting only takes tokens from the front of the fragment, takes
    /// none when it declines, never succeeds or suspends on a fragment
    /// without tokens, and hands back a state that can be resumed.
    proof fn begins_sound(
        &self,
        input: Seq<Str::Item>,
        result: Option<ParseResult<Self::State, Output>>,
        rest: Seq<Str::Item>,
    )
        requires
            self.parser_wf(),
            self.begins(input, result, rest),
        ensures
            is_suffix(rest, input),
            result.is_none() ==> rest == input,
            result.is_some() ==> input.len() > 0,
            result matches Some(ParseResult::Continue(s)) ==> s.state_wf(),
    ;

    /// What a parser does on a fragment and on what follows it, it may do
    /// on the two joined: where it declines the first, which holds tokens,
    /// it declines the two; where it is done within the first, what follows
    /// is left untouched behind what it leaves; where it suspends with the
    /// first used up and the state goes on with the second, it may do at
    /// once what was done in two steps.
    proof fn begins_prolonged(
        &self,
        first: Seq<Str::Item>,
        second: Seq<Str::Item>,
        result: Option<ParseResult<Self::State, Output>>,
        rest: Seq<Str::Item>,
    )
        requires
            self.parser_wf(),
            match result {
                None => first.len() > 0 && self.begins(first, None, first) && rest == first
                    + second,
                Some(then) => {
                    ||| then is Done && exists|left: Seq<Str::Item>| #[trigger]
                        self.begins(first, result, left) && rest == left + second
                    ||| exists|next: Self::State| #[trigger]
                        self.begins(first, Some(ParseResult::Continue(next)), Seq::empty())
                            && next.resumes(second, then, rest)
                },
            },
        ensures
            self.begins(first + second, result, rest),
    ;

    /// A parser that declines a fragment with tokens in it declines it
    /// whatever follows: the decision does not wait for more input.
    proof fn declines_extended(
        &self,
        first: Seq<Str::Item>,
        rest: Seq<Str::Item>,
        second: Seq<Str::Item>,
    )
        requires
            self.parser_wf(),
            self.begins(first, None, rest),
            first.len() > 0,
        ensures
            self.begins(first + second, None, first + second),
    {
        self.begins_sound(first, None, rest);
        self.begins_prolonged(first, second, None, first + second);
    }

    /// A parser that is done within a fragment is done in the same way
    /// whatever follows, and leaves what follows untouched.
    proof fn begins_extended(
        &self,
        first: Seq<Str::Item>,
        out: Output,
        rest: Seq<Str::Item>,
        second: Seq<Str::Item>,
    )
        requires
            self.parser_wf(),
            self.begins(first, Some(ParseResult::Done(out)), rest),
        ensures
            self.begins(first + second, Some(ParseResult::Done(out)), rest + second),
    {
        self.begins_prolonged(first, second, Some(ParseResult::Done(out)), rest + second);
    }

    /// Where a parser takes all of a fragment and suspends, and the state
    /// then goes on with a second fragment, the parser may do at once on
    /// the two fragments joined what was done in two steps.
    proof fn begins_joined(
        &self,
        first: Seq<Str::Item>,
        next: Self::State,
        second: Seq<Str::Item>,
        result: ParseResult<Self::State, Output>,
        rest: Seq<Str::Item>,
    )
        requires
            self.parser_wf(),
            self.begins(first, Some(ParseResult::Continue(next)), Seq::empty()),
            next.resumes(second, result, rest),
        ensures
            self.begins(first + second, Some(result), rest),
    {
        self.begins_prolonged(first, second, Some(result), rest);
    }

    fn init(&self, string: &mut Str) -> (result: Option<ParseResult<Self::State, Output>>)
        requires
            self.parser_wf(),
        ensures
            self.begins(old(string).rest(), result, final(string).rest()),
    ;
}

/// A parser that can say what its output is when the input is over at its
/// position. `answers(out)` says that `out` may be that output.
pub trait Committed<Str: PeekableIterator, Output>: Uncommitted<Str, Output> {
    /// What must hold of the parser, besides `parser_wf`, for it to be
    /// asked for its answer.
    spec fn answer_wf(&self) -> bool;

    spec fn answers(&self, out: Output) -> bool;

    fn empty(&self) -> (out: Output)
        requires
            self.parser_wf(),
            self.answer_wf(),
        ensures
            self.answers(out),
    ;
}

/// Names the output of a parser or of a parse in progress, for a given kind
/// of input, so that a combinator can be written over "whatever `P` yields".
pub trait HasOutput<Str> {
    type Output;
}

/// What can be seen of a parse from some point on: it is finished with an
/// output; or it is handed a fragment and is done, leaving some of it; or
/// it is handed a fragment, suspends leaving some of it, and goes on.
pub ghost enum Run<T, O> {
    Close(O),
    Complete(Seq<T>, O, Seq<T>),
    Suspend(Seq<T>, Seq<T>, Box<Run<T, O>>),
}

/// The state `s` may go through `run`.
pub open spec fn admits<Str, S, O>(s: S, run: Run<Str::Item, O>) -> bool where
    Str: PeekableIterator,
    S: Stateful<Str, O>,

    decreases run,
{
    match run {
        Run::Close(out) => s.finishes(out),
        Run::Complete(input, out, rest) => s.resumes(input, ParseResult::Done(out), rest),
        Run::Suspend(input, rest, tail) => exists|next: S|
            #![trigger s.resumes(input, ParseResult::Continue(next), rest)]
            s.resumes(input, ParseResult::Continue(next), rest) && admits::<Str, S, O>(
                next,
                *tail,
            ),
    }
}

/// The output that a run ends with.
pub open spec fn run_output<T, O>(run: Run<T, O>) -> O
    decreases run,
{
    match run {
        Run::Close(out) => out,
        Run::Complete(_, out, _) => out,
        Run::Suspend(_, _, tail) => run_output(*tail),
    }
}

/// A step that suspends, put ahead of a run of the state that it leaves,
/// is a run of the state that made the step.
pub proof fn lemma_admits_suspend<Str, S, O>(
    s: S,
    input: Seq<Str::Item>,
    rest: Seq<Str::Item>,
    next: S,
    tail: Run<Str::Item, O>,
) where Str: PeekableIterator, S: Stateful<Str, O>
    requires
        s.resumes(input, ParseResult::Continue(next), rest),
        admits::<Str, S, O>(next, tail),
    ensures
        admits::<Str, S, O>(s, Run::Suspend(input, rest, Box::new(tail))),
{
    let run = Run::Suspend(input, rest, Box::new(tail));
    assert(run matches Run::Suspend(i, r, t) && i == input && r == rest && *t == tail);
    assert(admits::<Str, S, O>(s, run) == (exists|n: S|
        #![trigger s.resumes(input, ParseResult::Continue(n), rest)]
        s.resumes(input, ParseResult::Continue(n), rest) && admits::<Str, S, O>(n, tail)));
}

/// The state that a run goes on from after a first step that suspends.
pub proof fn lemma_suspend_witness<Str, S, O>(
    s: S,
    input: Seq<Str::Item>,
    rest: Seq<Str::Item>,
    tail: Run<Str::Item, O>,
) -> (next: S) where Str: PeekableIterator, S: Stateful<Str, O>
    requires
        admits::<Str, S, O>(s, Run::Suspend(input, rest, Box::new(tail))),
    ensures
        s.resumes(input, ParseResult::Continue(next), rest),
        admits::<Str, S, O>(next, tail),
{
    let run = Run::Suspend(input, rest, Box::new(tail));
    assert(admits::<Str, S, O>(s, run) == (exists|n: S|
        #![trigger s.resumes(input, ParseResult::Continue(n), rest)]
        s.resumes(input, ParseResult::Continue(n), rest) && admits::<Str, S, O>(n, tail)));
    choose|n: S|
        #![trigger s.resumes(input, ParseResult::Continue(n), rest)]
        s.resumes(input, ParseResult::Continue(n), rest) && admits::<Str, S, O>(n, tail)
}

/// The run that does on `first` and the fragment of `step` joined what
/// `step` does on its fragment alone.
pub open spec fn prefixed<T, O>(first: Seq<T>, step: Run<T, O>) -> Run<T, O> {
    match step {
        Run::Close(out) => Run::Close(out),
        Run::Complete(second, out, rest) => Run::Complete(first + second, out, rest),
        Run::Suspend(second, rest, tail) => Run::Suspend(first + second, rest, tail),
    }
}

/// The two operations of a parse in progress, in a form that can stand
/// behind a reference to a type that is not known: `more_boxable` advances
/// in place, `done_boxable` finishes and leaves the handle spent.
///
/// What the handle does is stated by the runs it may go through:
/// `runs(run)` says that `run` is one of them. When the handle suspends,
/// every run of the handle as it is left, put behind the step just made, is
/// a run of the handle as it was.
pub trait Boxable<Str: PeekableIterator, Output> {
    spec fn handle_wf(&self) -> bool;

    spec fn runs(&self, run: Run<Str::Item, Output>) -> bool;

    /// The first step of a run only takes tokens from the front of the
    /// fragment.
    proof fn runs_sound(&self, run: Run<Str::Item, Output>)
        requires
            self.handle_wf(),
            self.runs(run),
        ensures
            match run {
                Run::Close(_) => true,
                Run::Complete(input, _, rest) => is_suffix(rest, input),
                Run::Suspend(input, rest, _) => is_suffix(rest, input),
            },
    ;

    /// A run that is done within its first fragment is done in the same
    /// way whatever follows the fragment.
    proof fn runs_extended(
        &self,
        first: Seq<Str::Item>,
        out: Output,
        rest: Seq<Str::Item>,
        second: Seq<Str::Item>,
    )
        requires
            self.handle_wf(),
            self.runs(Run::Complete(first, out, rest)),
        ensures
            self.runs(Run::Complete(first + second, out, rest + second)),
    ;

    /// Where a run takes all of a first fragment and suspends, and then
    /// makes a step on a second, the run that makes that step on the two
    /// fragments joined is a run too.
    proof fn runs_joined(&self, first: Seq<Str::Item>, step: Run<Str::Item, Output>)
        requires
            self.handle_wf(),
            !(step is Close),
            self.runs(Run::Suspend(first, Seq::empty(), Box::new(step))),
        ensures
            self.runs(prefixed(first, step)),
    ;

    fn more_boxable(&mut self, string: &mut Str) -> (result: ParseResult<(), Output>)
        requires
            old(self).handle_wf(),
        ensures
            match result {
                ParseResult::Done(out) => old(self).runs(
                    Run::Complete(old(string).rest(), out, final(string).rest()),
                ),
                ParseResult::Continue(_) => {
                    &&& final(self).handle_wf()
                    &&& is_suffix(final(string).rest(), old(string).rest())
                    &&& forall|tail: Run<Str::Item, Output>| #[trigger]
                        final(self).runs(tail) ==> old(self).runs(
                            Run::Suspend(old(string).rest(), final(string).rest(), Box::new(tail)),
                        )
                },
            },
    ;

    fn done_boxable(&mut self) -> (out: Output)
        requires
            old(self).handle_wf(),
        ensures
            old(self).runs(Run::Close(out)),
    ;
}

} // verus!
