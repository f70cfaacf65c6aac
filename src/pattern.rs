//! Matching terms against expected shapes, with a chain of causes when they do not match.
use vstd::prelude::*;
use std::marker::PhantomData;

verus! {

/// Why a term did not match: the pattern that failed, and the failure inside it that
/// caused this one, if any.
#[derive(Debug)]
pub struct Unmatch {
    pub pattern: String,
    pub cause: Option<Box<Unmatch>>,
}

impl Unmatch {
    /// The number of causes below this failure.
    pub open spec fn chain_depth(&self) -> nat
        decreases self,
    {
        match &self.cause {
            None => 0,
            Some(c) => 1 + c.chain_depth(),
        }
    }

    /// This failure, caused by `cause`.
    pub fn cause(self, cause: Unmatch) -> (r: Unmatch)
        ensures
            r.pattern == self.pattern,
            r.cause == Some(Box::new(cause)),
            r.chain_depth() == cause.chain_depth() + 1,
    {
        Unmatch { pattern: self.pattern, cause: Some(Box::new(cause)) }
    }

    /// The number of causes below this failure.
    pub fn depth(&self) -> (r: usize)
        requires
            self.chain_depth() <= usize::MAX,
        ensures
            r == self.chain_depth(),
        decreases self,
    {
        match &self.cause {
            None => 0,
            Some(c) => 1 + c.depth(),
        }
    }

    /// Of two failures, the one with the longer chain of causes; `self` on a tie.
    pub fn max_depth(self, other: Unmatch) -> (r: Unmatch)
        requires
            self.chain_depth() <= usize::MAX,
            other.chain_depth() <= usize::MAX,
        ensures
            r == (if self.chain_depth() < other.chain_depth() { other } else { self }),
    {
        if self.depth() < other.depth() {
            other
        } else {
            self
        }
    }
}

/// One of two matched alternatives.
#[derive(Debug, Clone)]
pub enum Union2<A, B> {
    A(A),
    B(B),
}

/// One of three matched alternatives.
#[derive(Debug, Clone)]
pub enum Union3<A, B, C> {
    A(A),
    B(B),
    C(C),
}

/// One of four matched alternatives.
#[derive(Debug, Clone)]
pub enum Union4<A, B, C, D> {
    A(A),
    B(B),
    C(C),
    D(D),
}

/// One of five matched alternatives.
#[derive(Debug, Clone)]
pub enum Union5<A, B, C, D, E> {
    A(A),
    B(B),
    C(C),
    D(D),
    E(E),
}

/// One of six matched alternatives.
#[derive(Debug, Clone)]
pub enum Union6<A, B, C, D, E, F> {
    A(A),
    B(B),
    C(C),
    D(D),
    E(E),
    F(F),
}

/// A pattern that matches any value of type `T`.
#[derive(Debug)]
pub struct Any<T> {
    marker: PhantomData<T>,
}

impl<T> Any<T> {
    pub fn new() -> (r: Any<T>) {
        Any { marker: PhantomData }
    }
}

/// A pattern that matches any value of type `T`.
pub fn any<T>() -> (r: Any<T>) {
    Any::new()
}

} // verus!
