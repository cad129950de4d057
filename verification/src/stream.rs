//! A fragment of input held as a borrowed slice.

use vstd::prelude::*;
use crate::contract::{Function, PeekableIterator};

verus! {

/// A fragment of tokens borrowed from the caller; consuming a token narrows
/// the borrowed slice and copies nothing.
#[derive(Clone, Copy, Debug)]
pub struct Stream<'a, Ch> {
    pub rest: &'a [Ch],
}

impl<'a, Ch: Copy> Stream<'a, Ch> {
    pub fn new(tokens: &'a [Ch]) -> (s: Self)
        ensures
            s.rest@ == tokens@,
    {
        Stream { rest: tokens }
    }
}

impl<'a, Ch: Copy> PeekableIterator for Stream<'a, Ch> {
    type Item = Ch;

    open spec fn rest(&self) -> Seq<Ch> {
        self.rest@
    }

    fn is_empty(&self) -> (b: bool) {
        self.rest.len() == 0
    }

    fn next_if<F>(&mut self, f: F) -> (r: Option<Ch>) where F: Function<Ch, Output = bool> {
        if self.rest.len() == 0 {
            None
        } else {
            let ch = self.rest[0];
            if f.apply(ch) {
                self.rest = vstd::slice::slice_subrange(self.rest, 1, self.rest.len());
                Some(ch)
            } else {
                None
            }
        }
    }

    fn next_if_ref<F>(&mut self, f: F) -> (r: Option<Ch>) where
        F: for <'b>Function<&'b Ch, Output = bool>,
     {
        if self.rest.len() == 0 {
            None
        } else {
            if f.apply(&self.rest[0]) {
                let ch = self.rest[0];
                self.rest = vstd::slice::slice_subrange(self.rest, 1, self.rest.len());
                Some(ch)
            } else {
                None
            }
        }
    }

    fn next(&mut self) -> (r: Option<Ch>) {
        if self.rest.len() == 0 {
            None
        } else {
            let ch = self.rest[0];
            self.rest = vstd::slice::slice_subrange(self.rest, 1, self.rest.len());
            Some(ch)
        }
    }
}

} // verus!
