pub mod automaton;
pub mod bool_alg;
pub mod nfa;
pub mod parse;
pub mod relation;
pub mod text;
pub mod thompson;
