pub mod action;
pub mod dfa;
pub mod graph;
pub mod matches;
pub mod nfa;
pub mod sets;
pub mod state_machine;
pub mod subset;
