use vstd::prelude::*;

verus! {

/// What a matcher needs of an automaton: whether a state accepts, and where a
/// symbol leads from a state.
pub trait StateMachine {
    type State;
    type V;
    type NextState;

    spec fn accepting(&self, state: Self::State) -> bool;

    /// Whether `r` is what `next_state` owes for `path` taken from `from`.
    spec fn next_spec(&self, from: Self::State, path: Self::V, r: Option<Self::NextState>) -> bool;

    spec fn valid(&self) -> bool;

    fn is_end(&self, state: &Self::State) -> (r: bool)
        requires
            self.valid(),
        ensures
            r == self.accepting(*state),
    ;

    fn next_state(&self, from: &Self::State, path: &Self::V) -> (r: Option<Self::NextState>)
        requires
            self.valid(),
        ensures
            self.next_spec(*from, *path, r),
    ;
}

} // verus!
