//! Counters and the move-only tokens they mint.
//!
//! A token stands for one unit of a counter's value. It cannot be copied or
//! cloned; the only way a verified caller can dispose of one is to return it
//! to a counter through [`Count::put`], and every contract in the crate
//! accounts for tokens through the counter values they came from.

use vstd::prelude::*;

verus! {

/// One unit acquired from a counter. Move-only: no `Clone`, no `Copy`.
pub struct Token {
    _private: (),
}

impl Token {
    pub(crate) fn new() -> Token {
        Token { _private: () }
    }
}

/// A source of counted references. `get` acquires one unit and mints a
/// token for it; `put` consumes a token and reports whether the count
/// reached zero.
pub trait Count: Sized {
    /// The current count.
    spec fn spec_count(self) -> nat;

    /// Acquire one unit and mint a token for it.
    fn get(&mut self) -> (t: Token)
        requires
            old(self).spec_count() < usize::MAX,
        ensures
            final(self).spec_count() == old(self).spec_count() + 1,
    ;

    /// Return one unit; reports whether the count is now zero.
    fn put(&mut self, t: Token) -> (zero: bool)
        requires
            old(self).spec_count() > 0,
        ensures
            final(self).spec_count() == old(self).spec_count() - 1,
            zero == (final(self).spec_count() == 0),
    ;
}

/// A plain non-negative in-place counter, one per entry.
pub struct UsizeCount {
    count: usize,
}

impl UsizeCount {
    pub fn new(initial: usize) -> (r: Self)
        ensures
            r.spec_count() == initial,
    {
        UsizeCount { count: initial }
    }

    /// Returns true if the current count is zero.
    pub fn is_zero(&self) -> (r: bool)
        ensures
            r == (self.spec_count() == 0),
    {
        self.count == 0
    }

    /// Read the current count.
    pub fn count(&self) -> (r: usize)
        ensures
            r == self.spec_count(),
    {
        self.count
    }
}

impl Count for UsizeCount {
    closed spec fn spec_count(self) -> nat {
        self.count as nat
    }

    fn get(&mut self) -> (t: Token)
    {
        self.count = self.count + 1;
        Token::new()
    }

    fn put(&mut self, t: Token) -> (zero: bool)
    {
        self.count = self.count - 1;
        self.count == 0
    }
}

} // verus!
