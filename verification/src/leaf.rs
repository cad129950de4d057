//! The parsers that read a single token or none at all.

use vstd::prelude::*;
use crate::contract::{
    lemma_empty_add, lemma_skip_one_add, lemma_suffix_refl, Committed, Factory, Function,
    HasOutput, ParseResult, PeekableIterator, Stateful, Uncommitted,
};
use crate::contract::ParseResult::{Continue, Done};

verus! {

/// What taking the first token of `input`, if the predicate holds of it, may
/// give: the token where `holds` is true of it, nothing otherwise.
pub open spec fn takes_first<T>(
    input: Seq<T>,
    holds: spec_fn(T, bool) -> bool,
    token: Option<T>,
    rest: Seq<T>,
) -> bool {
    match token {
        Some(first) => {
            &&& input.len() > 0
            &&& first == input[0]
            &&& holds(first, true)
            &&& rest == input.skip(1)
        },
        None => rest == input && (input.len() > 0 ==> holds(input[0], false)),
    }
}

/// Taking one token from the front leaves a suffix.
pub proof fn lemma_skip_one_suffix<T>(input: Seq<T>)
    requires
        input.len() > 0,
    ensures
        crate::contract::is_suffix(input.skip(1), input),
{
    assert(input.skip(1) =~= input.skip(input.len() - input.skip(1).len()));
}

/// The state of a single-token parser. Such a parser never suspends: no
/// parser hands out a value of this type, none is well-formed, and so none
/// can be resumed or finished.
#[derive(Clone, Copy, Debug)]
pub enum CharacterState {
    Never,
}

impl<Str> HasOutput<Str> for CharacterState where Str: PeekableIterator {
    type Output = Str::Item;
}

impl<Str> Stateful<Str, Str::Item> for CharacterState where Str: PeekableIterator {
    open spec fn state_wf(self) -> bool {
        false
    }

    open spec fn resumes(
        self,
        input: Seq<Str::Item>,
        result: ParseResult<Self, Str::Item>,
        rest: Seq<Str::Item>,
    ) -> bool {
        false
    }

    open spec fn finishes(self, out: Str::Item) -> bool {
        false
    }

    proof fn resumes_sound(
        self,
        input: Seq<Str::Item>,
        result: ParseResult<Self, Str::Item>,
        rest: Seq<Str::Item>,
    ) {
    }

    proof fn resumes_prolonged(
        self,
        first: Seq<Str::Item>,
        second: Seq<Str::Item>,
        result: ParseResult<Self, Str::Item>,
        rest: Seq<Str::Item>,
    ) {
        if first.len() > 0 {
            lemma_skip_one_add(first, second);
        } else {
            lemma_empty_add(first, second);
        }
    }

    fn more(self, string: &mut Str) -> (result: ParseResult<Self, Str::Item>) {
        vstd::pervasive::unreached()
    }

    fn done(self) -> (out: Str::Item) {
        vstd::pervasive::unreached()
    }
}

/// The token at the front of the input, if the predicate holds of it.
#[derive(Clone, Copy, Debug)]
pub struct Character<F>(pub F);

impl<F> Character<F> {
    pub fn new(function: F) -> (parser: Self)
        ensures
            parser.0 == function,
    {
        Character(function)
    }
}

impl<F, Str> HasOutput<Str> for Character<F> where Str: PeekableIterator {
    type Output = Str::Item;
}

impl<F, Str> Uncommitted<Str, Str::Item> for Character<F> where
    Str: PeekableIterator,
    F: Copy + Function<Str::Item, Output = bool>,
 {
    type State = CharacterState;

    open spec fn parser_wf(&self) -> bool {
        forall|token: Str::Item| #[trigger] self.0.defined_on(token)
    }

    open spec fn begins(
        &self,
        input: Seq<Str::Item>,
        result: Option<ParseResult<CharacterState, Str::Item>>,
        rest: Seq<Str::Item>,
    ) -> bool {
        match result {
            None => takes_first(input, |t: Str::Item, b: bool| self.0.maps(t, b), None, rest),
            Some(Done(token)) => takes_first(
                input,
                |t: Str::Item, b: bool| self.0.maps(t, b),
                Some(token),
                rest,
            ),
            Some(Continue(_)) => false,
        }
    }

    proof fn begins_sound(
        &self,
        input: Seq<Str::Item>,
        result: Option<ParseResult<CharacterState, Str::Item>>,
        rest: Seq<Str::Item>,
    ) {
        match result {
            None => lemma_suffix_refl(input),
            Some(_) => lemma_skip_one_suffix(input),
        }
    }

    proof fn begins_prolonged(
        &self,
        first: Seq<Str::Item>,
        second: Seq<Str::Item>,
        result: Option<ParseResult<Self::State, Str::Item>>,
        rest: Seq<Str::Item>,
    ) {
        if first.len() > 0 {
            lemma_skip_one_add(first, second);
        } else {
            lemma_empty_add(first, second);
        }
    }

    fn init(&self, string: &mut Str) -> (result: Option<ParseResult<CharacterState, Str::Item>>) {
        match string.next_if(self.0) {
            None => None,
            Some(token) => Some(Done(token)),
        }
    }
}

/// The token at the front of the input, if the predicate, which looks at
/// the token through a reference, holds of it.
#[derive(Clone, Copy, Debug)]
pub struct CharacterRef<F>(pub F);

impl<F> CharacterRef<F> {
    pub fn new(function: F) -> (parser: Self)
        ensures
            parser.0 == function,
    {
        CharacterRef(function)
    }
}

impl<F, Str> HasOutput<Str> for CharacterRef<F> where Str: PeekableIterator {
    type Output = Str::Item;
}

impl<F, Str> Uncommitted<Str, Str::Item> for CharacterRef<F> where
    Str: PeekableIterator,
    F: Copy + for <'b>Function<&'b Str::Item, Output = bool>,
 {
    type State = CharacterState;

    open spec fn parser_wf(&self) -> bool {
        forall|token: Str::Item| #[trigger] self.0.defined_on(&token)
    }

    open spec fn begins(
        &self,
        input: Seq<Str::Item>,
        result: Option<ParseResult<CharacterState, Str::Item>>,
        rest: Seq<Str::Item>,
    ) -> bool {
        match result {
            None => takes_first(input, |t: Str::Item, b: bool| self.0.maps(&t, b), None, rest),
            Some(Done(token)) => takes_first(
                input,
                |t: Str::Item, b: bool| self.0.maps(&t, b),
                Some(token),
                rest,
            ),
            Some(Continue(_)) => false,
        }
    }

    proof fn begins_sound(
        &self,
        input: Seq<Str::Item>,
        result: Option<ParseResult<CharacterState, Str::Item>>,
        rest: Seq<Str::Item>,
    ) {
        match result {
            None => lemma_suffix_refl(input),
            Some(_) => lemma_skip_one_suffix(input),
        }
    }

    proof fn begins_prolonged(
        &self,
        first: Seq<Str::Item>,
        second: Seq<Str::Item>,
        result: Option<ParseResult<Self::State, Str::Item>>,
        rest: Seq<Str::Item>,
    ) {
        if first.len() > 0 {
            lemma_skip_one_add(first, second);
        } else {
            lemma_empty_add(first, second);
        }
    }

    fn init(&self, string: &mut Str) -> (result: Option<ParseResult<CharacterState, Str::Item>>) {
        match string.next_if_ref(self.0) {
            None => None,
            Some(token) => Some(Done(token)),
        }
    }
}

/// The token at the front of the input, whatever it is. Where the fragment
/// is exhausted the parse suspends; at the end of the input there is no
/// token.
#[derive(Clone, Copy, Debug)]
pub struct AnyCharacter;

impl<Str> HasOutput<Str> for AnyCharacter where Str: PeekableIterator {
    type Output = Option<Str::Item>;
}

impl<Str> Stateful<Str, Option<Str::Item>> for AnyCharacter where Str: PeekableIterator {
    open spec fn state_wf(self) -> bool {
        true
    }

    open spec fn resumes(
        self,
        input: Seq<Str::Item>,
        result: ParseResult<Self, Option<Str::Item>>,
        rest: Seq<Str::Item>,
    ) -> bool {
        match result {
            Done(out) => input.len() > 0 && out == Some(input[0]) && rest == input.skip(1),
            Continue(_) => input.len() == 0 && rest == input,
        }
    }

    open spec fn finishes(self, out: Option<Str::Item>) -> bool {
        out.is_none()
    }

    proof fn resumes_sound(
        self,
        input: Seq<Str::Item>,
        result: ParseResult<Self, Option<Str::Item>>,
        rest: Seq<Str::Item>,
    ) {
        match result {
            Done(_) => lemma_skip_one_suffix(input),
            Continue(_) => lemma_suffix_refl(input),
        }
    }

    proof fn resumes_prolonged(
        self,
        first: Seq<Str::Item>,
        second: Seq<Str::Item>,
        result: ParseResult<Self, Option<Str::Item>>,
        rest: Seq<Str::Item>,
    ) {
        if first.len() > 0 {
            lemma_skip_one_add(first, second);
        } else {
            lemma_empty_add(first, second);
        }
    }

    fn more(self, string: &mut Str) -> (result: ParseResult<Self, Option<Str::Item>>) {
        match string.next() {
            None => Continue(self),
            Some(token) => Done(Some(token)),
        }
    }

    fn done(self) -> (out: Option<Str::Item>) {
        None
    }
}

impl<Str> Uncommitted<Str, Option<Str::Item>> for AnyCharacter where Str: PeekableIterator {
    type State = AnyCharacter;

    open spec fn parser_wf(&self) -> bool {
        true
    }

    open spec fn begins(
        &self,
        input: Seq<Str::Item>,
        result: Option<ParseResult<AnyCharacter, Option<Str::Item>>>,
        rest: Seq<Str::Item>,
    ) -> bool {
        match result {
            None => input.len() == 0 && rest == input,
            Some(Done(out)) => input.len() > 0 && out == Some(input[0]) && rest == input.skip(1),
            Some(Continue(_)) => false,
        }
    }

    proof fn begins_sound(
        &self,
        input: Seq<Str::Item>,
        result: Option<ParseResult<AnyCharacter, Option<Str::Item>>>,
        rest: Seq<Str::Item>,
    ) {
        match result {
            None => lemma_suffix_refl(input),
            Some(_) => lemma_skip_one_suffix(input),
        }
    }

    proof fn begins_prolonged(
        &self,
        first: Seq<Str::Item>,
        second: Seq<Str::Item>,
        result: Option<ParseResult<Self::State, Option<Str::Item>>>,
        rest: Seq<Str::Item>,
    ) {
        if first.len() > 0 {
            lemma_skip_one_add(first, second);
        } else {
            lemma_empty_add(first, second);
        }
    }

    fn init(&self, string: &mut Str) -> (result: Option<
        ParseResult<AnyCharacter, Option<Str::Item>>,
    >) {
        match string.next() {
            None => None,
            Some(token) => Some(Done(Some(token))),
        }
    }
}

impl<Str> Committed<Str, Option<Str::Item>> for AnyCharacter where Str: PeekableIterator {
    open spec fn answer_wf(&self) -> bool {
        true
    }

    open spec fn answers(&self, out: Option<Str::Item>) -> bool {
        out.is_none()
    }

    fn empty(&self) -> (out: Option<Str::Item>) {
        None
    }
}

/// The value that the factory builds, without reading any input.
#[derive(Clone, Copy, Debug)]
pub struct Emit<F>(pub F);

impl<F> Emit<F> {
    pub fn new(t: F) -> (parser: Self)
        ensures
            parser.0 == t,
    {
        Emit(t)
    }
}

impl<F, Str> HasOutput<Str> for Emit<F> where F: Factory {
    type Output = F::Output;
}

impl<F, Str> Stateful<Str, F::Output> for Emit<F> where Str: PeekableIterator, F: Factory {
    open spec fn state_wf(self) -> bool {
        self.0.ready()
    }

    open spec fn resumes(
        self,
        input: Seq<Str::Item>,
        result: ParseResult<Self, F::Output>,
        rest: Seq<Str::Item>,
    ) -> bool {
        match result {
            Done(out) => self.0.builds(out) && rest == input,
            Continue(_) => false,
        }
    }

    open spec fn finishes(self, out: F::Output) -> bool {
        self.0.builds(out)
    }

    proof fn resumes_sound(
        self,
        input: Seq<Str::Item>,
        result: ParseResult<Self, F::Output>,
        rest: Seq<Str::Item>,
    ) {
        lemma_suffix_refl(input);
    }

    proof fn resumes_prolonged(
        self,
        first: Seq<Str::Item>,
        second: Seq<Str::Item>,
        result: ParseResult<Self, F::Output>,
        rest: Seq<Str::Item>,
    ) {
        if first.len() > 0 {
            lemma_skip_one_add(first, second);
        } else {
            lemma_empty_add(first, second);
        }
    }

    fn more(self, string: &mut Str) -> (result: ParseResult<Self, F::Output>) {
        Done(self.0.build())
    }

    fn done(self) -> (out: F::Output) {
        self.0.build()
    }
}

impl<F, Str> Uncommitted<Str, F::Output> for Emit<F> where
    Str: PeekableIterator,
    F: Copy + Factory,
 {
    type State = Emit<F>;

    open spec fn parser_wf(&self) -> bool {
        self.0.ready()
    }

    open spec fn begins(
        &self,
        input: Seq<Str::Item>,
        result: Option<ParseResult<Emit<F>, F::Output>>,
        rest: Seq<Str::Item>,
    ) -> bool {
        match result {
            None => input.len() == 0 && rest == input,
            Some(Done(out)) => input.len() > 0 && self.0.builds(out) && rest == input,
            Some(Continue(_)) => false,
        }
    }

    proof fn begins_sound(
        &self,
        input: Seq<Str::Item>,
        result: Option<ParseResult<Emit<F>, F::Output>>,
        rest: Seq<Str::Item>,
    ) {
        lemma_suffix_refl(input);
    }

    proof fn begins_prolonged(
        &self,
        first: Seq<Str::Item>,
        second: Seq<Str::Item>,
        result: Option<ParseResult<Self::State, F::Output>>,
        rest: Seq<Str::Item>,
    ) {
        if first.len() > 0 {
            lemma_skip_one_add(first, second);
        } else {
            lemma_empty_add(first, second);
        }
    }

    fn init(&self, string: &mut Str) -> (result: Option<ParseResult<Emit<F>, F::Output>>) {
        if string.is_empty() {
            None
        } else {
            Some(Done(self.0.build()))
        }
    }
}

impl<F, Str> Committed<Str, F::Output> for Emit<F> where
    Str: PeekableIterator,
    F: Copy + Factory,
 {
    open spec fn answer_wf(&self) -> bool {
        true
    }

    open spec fn answers(&self, out: F::Output) -> bool {
        self.0.builds(out)
    }

    fn empty(&self) -> (out: F::Output) {
        self.0.build()
    }
}

} // verus!
