//! Terminal and non-terminal states of a stochastic process.
use vstd::prelude::*;

verus! {

/// An absorbing state: a process that reaches it stays there and has no
/// outgoing transition.
#[derive(Clone, Copy, Debug, PartialEq)]
pub struct Terminal<S> {
    state: S,
}

/// An active state: a process in it has an outgoing transition.
#[derive(Clone, Copy, Debug, PartialEq)]
pub struct NonTerminal<S> {
    state: S,
}

/// A state of a process, tagged as absorbing or active.
#[derive(Clone, Copy, Debug)]
pub enum State<S> {
    Terminal(Terminal<S>),
    NonTerminal(NonTerminal<S>),
}

impl<S> Terminal<S> {
    /// The wrapped state value.
    pub closed spec fn view(&self) -> S {
        self.state
    }

    /// Marks `state` as absorbing.
    pub fn new(state: S) -> (t: Self)
        ensures
            t@ == state,
    {
        Terminal { state }
    }

    /// The wrapped state value.
    pub fn state(&self) -> (s: &S)
        ensures
            *s == self@,
    {
        &self.state
    }

    /// Unwraps the state value.
    pub fn into_inner(self) -> (s: S)
        ensures
            s == self@,
    {
        self.state
    }
}

impl<S> NonTerminal<S> {
    /// The wrapped state value.
    pub closed spec fn view(&self) -> S {
        self.state
    }

    /// Marks `state` as active.
    pub fn new(state: S) -> (t: Self)
        ensures
            t@ == state,
    {
        NonTerminal { state }
    }

    /// The wrapped state value.
    pub fn state(&self) -> (s: &S)
        ensures
            *s == self@,
    {
        &self.state
    }

    /// Unwraps the state value.
    pub fn into_inner(self) -> (s: S)
        ensures
            s == self@,
    {
        self.state
    }
}

impl<S> State<S> {
    /// The state value, whichever the tag.
    pub open spec fn value(&self) -> S {
        match *self {
            State::Terminal(t) => t@,
            State::NonTerminal(n) => n@,
        }
    }

    /// Applies `f` to an active state and returns `default` for an absorbing
    /// one, so that `f` never sees a state without a transition.
    pub fn on_non_terminal<F, X>(self, f: F, default: X) -> (r: X) where
        F: Fn(&NonTerminal<S>) -> X,

        requires
            self matches State::NonTerminal(n) ==> call_requires(f, (&n,)),
        ensures
            match self {
                State::Terminal(_) => r == default,
                State::NonTerminal(n) => call_ensures(f, (&n,), r),
            },
    {
        match self {
            State::Terminal(_) => default,
            State::NonTerminal(state) => f(&state),
        }
    }

    /// Whether the state is absorbing.
    pub fn is_terminal(&self) -> (b: bool)
        ensures
            b == (*self is Terminal),
    {
        match self {
            State::Terminal(_) => true,
            State::NonTerminal(_) => false,
        }
    }

    /// Whether the state is active.
    pub fn is_non_terminal(&self) -> (b: bool)
        ensures
            b == (*self is NonTerminal),
    {
        match self {
            State::Terminal(_) => false,
            State::NonTerminal(_) => true,
        }
    }

    /// The state value, whichever the tag.
    pub fn state(&self) -> (s: &S)
        ensures
            *s == self.value(),
    {
        match self {
            State::Terminal(t) => t.state(),
            State::NonTerminal(n) => n.state(),
        }
    }
}

} // verus!
