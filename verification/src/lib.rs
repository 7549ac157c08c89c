//! Finite automata whose transitions are labelled with whole tokens.
//!
//! An [`Automaton`] matches an input forwards, always taking the shortest
//! prefix of the remaining input that labels a transition of the current
//! state. A [`ReverseAutomaton`] holds the same graph with its edges turned
//! round and lists the accepted strings by walking back from the accepting
//! states to the start state.

pub mod text;
pub mod model;
pub mod state;
pub mod matcher;
pub mod automaton;
pub mod reverse;
pub mod language;
pub mod cycles;
pub mod enumerate;
pub mod round_trip;
pub mod scan;
pub mod description;

pub use crate::model::StateView;
pub use crate::state::State;
pub use crate::automaton::{Automaton, MatchFailure};
pub use crate::description::{parse_description, AutomatonParseError};
pub use crate::enumerate::Enumeration;
pub use crate::reverse::{ReverseAutomaton, ReverseState, ReverseView};
