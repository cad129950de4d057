//! Adapters between ordinary functions and the transformations that the
//! combinators take: functions of several arguments applied to nested
//! pairs, transformations that pass a failure on, and helpers for options
//! and pairs.

use vstd::prelude::*;
use crate::contract::{Consumer, Factory, Function, VariantFunction};

verus! {

impl<F, S, O> Function<S> for F where F: Fn(S) -> O {
    type Output = O;

    open spec fn defined_on(&self, arg: S) -> bool {
        call_requires(*self, (arg,))
    }

    open spec fn maps(&self, arg: S, out: O) -> bool {
        call_ensures(*self, (arg,), out)
    }

    fn apply(&self, arg: S) -> (out: O) {
        self(arg)
    }
}

impl<F, T> Factory for F where F: Fn() -> T {
    type Output = T;

    open spec fn builds(&self, out: T) -> bool {
        call_ensures(*self, (), out)
    }

    open spec fn ready(&self) -> bool {
        call_requires(*self, ())
    }

    fn build(&self) -> (out: T) {
        self()
    }
}

impl<T> Consumer<T> for Vec<T> {
    open spec fn folds(before: Self, item: T, after: Self) -> bool {
        after@ == before@.push(item)
    }

    fn accept(&mut self, item: T) {
        self.push(item);
    }
}

impl<T> Consumer<T> for () {
    open spec fn folds(before: Self, item: T, after: Self) -> bool {
        true
    }

    fn accept(&mut self, item: T) {
    }
}

/// A function of two arguments, applied to a pair.
#[derive(Clone, Copy, Debug)]
pub struct Function2<F>(pub F);

impl<F> Function2<F> {
    pub fn new(f: F) -> (function: Self)
        ensures
            function.0 == f,
    {
        Function2(f)
    }
}

impl<F, S1, S2, O> Function<(S1, S2)> for Function2<F> where F: Fn(S1, S2) -> O {
    type Output = O;

    open spec fn defined_on(&self, args: (S1, S2)) -> bool {
        call_requires(self.0, (args.0, args.1))
    }

    open spec fn maps(&self, args: (S1, S2), out: O) -> bool {
        call_ensures(self.0, (args.0, args.1), out)
    }

    fn apply(&self, args: (S1, S2)) -> (out: O) {
        (self.0)(args.0, args.1)
    }
}

/// A function of three arguments, applied to a pair nested to the left: `((a, b), c)`.
#[derive(Clone, Copy, Debug)]
pub struct Function3<F>(pub F);

impl<F> Function3<F> {
    pub fn new(f: F) -> (function: Self)
        ensures
            function.0 == f,
    {
        Function3(f)
    }
}

impl<F, S1, S2, S3, O> Function<((S1, S2), S3)> for Function3<F> where F: Fn(S1, S2, S3) -> O {
    type Output = O;

    open spec fn defined_on(&self, args: ((S1, S2), S3)) -> bool {
        call_requires(self.0, (args.0.0, args.0.1, args.1))
    }

    open spec fn maps(&self, args: ((S1, S2), S3), out: O) -> bool {
        call_ensures(self.0, (args.0.0, args.0.1, args.1), out)
    }

    fn apply(&self, args: ((S1, S2), S3)) -> (out: O) {
        (self.0)(args.0.0, args.0.1, args.1)
    }
}

/// A function of four arguments, applied to pairs nested to the left: `(((a, b), c), d)`.
#[derive(Clone, Copy, Debug)]
pub struct Function4<F>(pub F);

impl<F> Function4<F> {
    pub fn new(f: F) -> (function: Self)
        ensures
            function.0 == f,
    {
        Function4(f)
    }
}

impl<F, S1, S2, S3, S4, O> Function<(((S1, S2), S3), S4)> for Function4<F> where F: Fn(S1, S2, S3, S4) -> O {
    type Output = O;

    open spec fn defined_on(&self, args: (((S1, S2), S3), S4)) -> bool {
        call_requires(self.0, (args.0.0.0, args.0.0.1, args.0.1, args.1))
    }

    open spec fn maps(&self, args: (((S1, S2), S3), S4), out: O) -> bool {
        call_ensures(self.0, (args.0.0.0, args.0.0.1, args.0.1, args.1), out)
    }

    fn apply(&self, args: (((S1, S2), S3), S4)) -> (out: O) {
        (self.0)(args.0.0.0, args.0.0.1, args.0.1, args.1)
    }
}

/// A function of five arguments, applied to pairs nested to the left: `((((a, b), c), d), e)`.
#[derive(Clone, Copy, Debug)]
pub struct Function5<F>(pub F);

impl<F> Function5<F> {
    pub fn new(f: F) -> (function: Self)
        ensures
            function.0 == f,
    {
        Function5(f)
    }
}

impl<F, S1, S2, S3, S4, S5, O> Function<((((S1, S2), S3), S4), S5)> for Function5<F> where F: Fn(S1, S2, S3, S4, S5) -> O {
    type Output = O;

    open spec fn defined_on(&self, args: ((((S1, S2), S3), S4), S5)) -> bool {
        call_requires(self.0, (args.0.0.0.0, args.0.0.0.1, args.0.0.1, args.0.1, args.1))
    }

    open spec fn maps(&self, args: ((((S1, S2), S3), S4), S5), out: O) -> bool {
        call_ensures(self.0, (args.0.0.0.0, args.0.0.0.1, args.0.0.1, args.0.1, args.1), out)
    }

    fn apply(&self, args: ((((S1, S2), S3), S4), S5)) -> (out: O) {
        (self.0)(args.0.0.0.0, args.0.0.0.1, args.0.0.1, args.0.1, args.1)
    }
}

/// A function of six arguments, applied to pairs nested to the left: `(((((a, b), c), d), e), f)`.
#[derive(Clone, Copy, Debug)]
pub struct Function6<F>(pub F);

impl<F> Function6<F> {
    pub fn new(f: F) -> (function: Self)
        ensures
            function.0 == f,
    {
        Function6(f)
    }
}

impl<F, S1, S2, S3, S4, S5, S6, O> Function<(((((S1, S2), S3), S4), S5), S6)> for Function6<F> where F: Fn(S1, S2, S3, S4, S5, S6) -> O {
    type Output = O;

    open spec fn defined_on(&self, args: (((((S1, S2), S3), S4), S5), S6)) -> bool {
        call_requires(
            self.0,
            (args.0.0.0.0.0, args.0.0.0.0.1, args.0.0.0.1, args.0.0.1, args.0.1, args.1),
        )
    }

    open spec fn maps(&self, args: (((((S1, S2), S3), S4), S5), S6), out: O) -> bool {
        call_ensures(
            self.0,
            (args.0.0.0.0.0, args.0.0.0.0.1, args.0.0.0.1, args.0.0.1, args.0.1, args.1),
            out,
        )
    }

    fn apply(&self, args: (((((S1, S2), S3), S4), S5), S6)) -> (out: O) {
        (self.0)(args.0.0.0.0.0, args.0.0.0.0.1, args.0.0.0.1, args.0.0.1, args.0.1, args.1)
    }
}

/// The transformation `f` on the success of a fallible value; a failure is
/// passed on unchanged.
#[derive(Clone, Copy, Debug)]
pub struct Try<F>(pub F);

impl<F> Try<F> {
    pub fn new(f: F) -> (function: Self)
        ensures
            function.0 == f,
    {
        Try(f)
    }
}

impl<F, S, E> Function<Result<S, E>> for Try<F> where F: Function<S> {
    type Output = Result<F::Output, E>;

    open spec fn defined_on(&self, args: Result<S, E>) -> bool {
        args matches Ok(value) ==> self.0.defined_on(value)
    }

    open spec fn maps(&self, args: Result<S, E>, out: Result<F::Output, E>) -> bool {
        match (args, out) {
            (Ok(value), Ok(mapped)) => self.0.maps(value, mapped),
            (Err(failure), Err(passed)) => passed == failure,
            _ => false,
        }
    }

    fn apply(&self, args: Result<S, E>) -> (out: Result<F::Output, E>) {
        match args {
            Ok(value) => Ok(self.0.apply(value)),
            Err(failure) => Err(failure),
        }
    }
}

impl<F, T, E> VariantFunction<Result<T, E>> for Try<F> where F: VariantFunction<T> {
    type Input = Result<F::Input, E>;

    open spec fn defined_on(&self, args: Result<F::Input, E>) -> bool {
        args matches Ok(value) ==> self.0.defined_on(value)
    }

    open spec fn maps(&self, args: Result<F::Input, E>, out: Result<T, E>) -> bool {
        match (args, out) {
            (Ok(value), Ok(mapped)) => self.0.maps(value, mapped),
            (Err(failure), Err(passed)) => passed == failure,
            _ => false,
        }
    }

    fn apply(&self, args: Result<F::Input, E>) -> (out: Result<T, E>) {
        match args {
            Ok(value) => Ok(self.0.apply(value)),
            Err(failure) => Err(failure),
        }
    }
}

/// Forgets the success of a fallible value and keeps its failure.
#[derive(Clone, Copy, Debug)]
pub struct TryDiscard;

impl<S, E> Function<Result<S, E>> for TryDiscard {
    type Output = Result<(), E>;

    open spec fn defined_on(&self, arg: Result<S, E>) -> bool {
        true
    }

    open spec fn maps(&self, arg: Result<S, E>, out: Result<(), E>) -> bool {
        match arg {
            Ok(_) => out.is_ok(),
            Err(failure) => out == Err::<(), E>(failure),
        }
    }

    fn apply(&self, arg: Result<S, E>) -> (out: Result<(), E>) {
        match arg {
            Ok(_) => Ok(()),
            Err(failure) => Err(failure),
        }
    }
}

/// What pairing two fallible values gives: the pair of the successes, or
/// the first failure.
pub open spec fn zipped<S, T, E>(fst: Result<S, E>, snd: Result<T, E>) -> Result<(S, T), E> {
    match fst {
        Err(failure) => Err(failure),
        Ok(a) => match snd {
            Err(failure) => Err(failure),
            Ok(b) => Ok((a, b)),
        },
    }
}

/// Pairs a fallible value with a plain one.
#[derive(Clone, Copy, Debug)]
pub struct TryZip;

impl<S, T, E> Function<(Result<S, E>, T)> for TryZip {
    type Output = Result<(S, T), E>;

    open spec fn defined_on(&self, args: (Result<S, E>, T)) -> bool {
        true
    }

    open spec fn maps(&self, args: (Result<S, E>, T), out: Result<(S, T), E>) -> bool {
        out == zipped::<S, T, E>(args.0, Ok(args.1))
    }

    fn apply(&self, args: (Result<S, E>, T)) -> (out: Result<(S, T), E>) {
        match args.0 {
            Ok(a) => Ok((a, args.1)),
            Err(failure) => Err(failure),
        }
    }
}

/// Pairs a plain value with a fallible one.
#[derive(Clone, Copy, Debug)]
pub struct ZipTry;

impl<S, T, E> Function<(S, Result<T, E>)> for ZipTry {
    type Output = Result<(S, T), E>;

    open spec fn defined_on(&self, args: (S, Result<T, E>)) -> bool {
        true
    }

    open spec fn maps(&self, args: (S, Result<T, E>), out: Result<(S, T), E>) -> bool {
        out == zipped::<S, T, E>(Ok(args.0), args.1)
    }

    fn apply(&self, args: (S, Result<T, E>)) -> (out: Result<(S, T), E>) {
        match args.1 {
            Ok(b) => Ok((args.0, b)),
            Err(failure) => Err(failure),
        }
    }
}

/// Pairs two fallible values; where both failed, the first failure stays.
#[derive(Clone, Copy, Debug)]
pub struct TryZipTry;

impl<S, T, E> Function<(Result<S, E>, Result<T, E>)> for TryZipTry {
    type Output = Result<(S, T), E>;

    open spec fn defined_on(&self, args: (Result<S, E>, Result<T, E>)) -> bool {
        true
    }

    open spec fn maps(&self, args: (Result<S, E>, Result<T, E>), out: Result<(S, T), E>) -> bool {
        out == zipped(args.0, args.1)
    }

    fn apply(&self, args: (Result<S, E>, Result<T, E>)) -> (out: Result<(S, T), E>) {
        match args.0 {
            Err(failure) => Err(failure),
            Ok(a) => match args.1 {
                Err(failure) => Err(failure),
                Ok(b) => Ok((a, b)),
            },
        }
    }
}

impl<S, T, E> VariantFunction<Result<(S, T), E>> for TryZipTry {
    type Input = (Result<S, E>, Result<T, E>);

    open spec fn defined_on(&self, args: (Result<S, E>, Result<T, E>)) -> bool {
        true
    }

    open spec fn maps(&self, args: (Result<S, E>, Result<T, E>), out: Result<(S, T), E>) -> bool {
        out == zipped(args.0, args.1)
    }

    fn apply(&self, args: (Result<S, E>, Result<T, E>)) -> (out: Result<(S, T), E>) {
        match args.0 {
            Err(failure) => Err(failure),
            Ok(a) => match args.1 {
                Err(failure) => Err(failure),
                Ok(b) => Ok((a, b)),
            },
        }
    }
}

/// What turning an optional fallible value inside out gives.
pub open spec fn transposed<T, E>(arg: Option<Result<T, E>>) -> Result<Option<T>, E> {
    match arg {
        Some(Ok(value)) => Ok(Some(value)),
        Some(Err(failure)) => Err(failure),
        None => Ok(None),
    }
}

/// Turns an optional fallible value into a fallible optional one.
#[derive(Clone, Copy, Debug)]
pub struct TryOpt;

impl<T, E> Function<Option<Result<T, E>>> for TryOpt {
    type Output = Result<Option<T>, E>;

    open spec fn defined_on(&self, arg: Option<Result<T, E>>) -> bool {
        true
    }

    open spec fn maps(&self, arg: Option<Result<T, E>>, out: Result<Option<T>, E>) -> bool {
        out == transposed(arg)
    }

    fn apply(&self, arg: Option<Result<T, E>>) -> (out: Result<Option<T>, E>) {
        match arg {
            Some(Ok(value)) => Ok(Some(value)),
            Some(Err(failure)) => Err(failure),
            None => Ok(None),
        }
    }
}

impl<T, E> VariantFunction<Result<Option<T>, E>> for TryOpt {
    type Input = Option<Result<T, E>>;

    open spec fn defined_on(&self, arg: Option<Result<T, E>>) -> bool {
        true
    }

    open spec fn maps(&self, arg: Option<Result<T, E>>, out: Result<Option<T>, E>) -> bool {
        out == transposed(arg)
    }

    fn apply(&self, arg: Option<Result<T, E>>) -> (out: Result<Option<T>, E>) {
        match arg {
            Some(Ok(value)) => Ok(Some(value)),
            Some(Err(failure)) => Err(failure),
            None => Ok(None),
        }
    }
}

/// Wraps a value as present.
#[derive(Clone, Copy, Debug)]
pub struct MkSome;

impl<T> Function<T> for MkSome {
    type Output = Option<T>;

    open spec fn defined_on(&self, arg: T) -> bool {
        true
    }

    open spec fn maps(&self, arg: T, out: Option<T>) -> bool {
        out == Some(arg)
    }

    fn apply(&self, arg: T) -> (out: Option<T>) {
        Some(arg)
    }
}

/// Whether `f` gives a value.
#[derive(Clone, Copy, Debug)]
pub struct IsSome<F>(pub F);

impl<F> IsSome<F> {
    pub fn new(f: F) -> (function: Self)
        ensures
            function.0 == f,
    {
        IsSome(f)
    }
}

impl<F, S, T> Function<S> for IsSome<F> where F: Function<S, Output = Option<T>> {
    type Output = bool;

    open spec fn defined_on(&self, arg: S) -> bool {
        self.0.defined_on(arg)
    }

    open spec fn maps(&self, arg: S, out: bool) -> bool {
        exists|inner: Option<T>| #[trigger] self.0.maps(arg, inner) && out == inner.is_some()
    }

    fn apply(&self, arg: S) -> (out: bool) {
        self.0.apply(arg).is_some()
    }
}

/// The value that `f` gives, for arguments on which it gives one.
#[derive(Clone, Copy, Debug)]
pub struct Unwrap<F>(pub F);

impl<F> Unwrap<F> {
    pub fn new(f: F) -> (function: Self)
        ensures
            function.0 == f,
    {
        Unwrap(f)
    }
}

impl<F, S, T> Function<S> for Unwrap<F> where F: Function<S, Output = Option<T>> {
    type Output = T;

    open spec fn defined_on(&self, arg: S) -> bool {
        &&& self.0.defined_on(arg)
        &&& forall|inner: Option<T>| #[trigger] self.0.maps(arg, inner) ==> inner.is_some()
    }

    open spec fn maps(&self, arg: S, out: T) -> bool {
        self.0.maps(arg, Some(out))
    }

    fn apply(&self, arg: S) -> (out: T) {
        self.0.apply(arg).unwrap()
    }
}

/// Applies to an owned value a function that takes a reference.
#[derive(Clone, Copy, Debug)]
pub struct Dereference<F>(pub F);

impl<F> Dereference<F> {
    pub fn new(f: F) -> (function: Self)
        ensures
            function.0 == f,
    {
        Dereference(f)
    }
}

impl<F, S, T> Function<S> for Dereference<F> where F: for <'a>Function<&'a S, Output = T> {
    type Output = T;

    open spec fn defined_on(&self, arg: S) -> bool {
        self.0.defined_on(&arg)
    }

    open spec fn maps(&self, arg: S, out: T) -> bool {
        self.0.maps(&arg, out)
    }

    fn apply(&self, arg: S) -> (out: T) {
        self.0.apply(&arg)
    }
}

/// The first component of a pair.
#[derive(Clone, Copy, Debug)]
pub struct First;

impl<S, T> Function<(S, T)> for First {
    type Output = S;

    open spec fn defined_on(&self, arg: (S, T)) -> bool {
        true
    }

    open spec fn maps(&self, arg: (S, T), out: S) -> bool {
        out == arg.0
    }

    fn apply(&self, arg: (S, T)) -> (out: S) {
        arg.0
    }
}

impl<T> VariantFunction<T> for First {
    type Input = (T, ());

    open spec fn defined_on(&self, arg: (T, ())) -> bool {
        true
    }

    open spec fn maps(&self, arg: (T, ()), out: T) -> bool {
        out == arg.0
    }

    fn apply(&self, arg: (T, ())) -> (out: T) {
        arg.0
    }
}

/// The second component of a pair.
#[derive(Clone, Copy, Debug)]
pub struct Second;

impl<S, T> Function<(S, T)> for Second {
    type Output = T;

    open spec fn defined_on(&self, arg: (S, T)) -> bool {
        true
    }

    open spec fn maps(&self, arg: (S, T), out: T) -> bool {
        out == arg.1
    }

    fn apply(&self, arg: (S, T)) -> (out: T) {
        arg.1
    }
}

impl<T> VariantFunction<T> for Second {
    type Input = ((), T);

    open spec fn defined_on(&self, arg: ((), T)) -> bool {
        true
    }

    open spec fn maps(&self, arg: ((), T), out: T) -> bool {
        out == arg.1
    }

    fn apply(&self, arg: ((), T)) -> (out: T) {
        arg.1
    }
}

} // verus!
