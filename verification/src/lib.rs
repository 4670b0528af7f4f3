//! Nondeterministic finite automata built from algebraic combinators, with
//! their meaning stated over a mathematical model and proved.

pub mod adjacency;
pub mod algebra;
pub mod assemble;
pub mod automaton;
pub mod concatenation;
pub mod export;
pub mod machine;
pub mod matching;
pub mod nfa;
pub mod nodes;
pub mod ops;
pub mod reduction;
pub mod render;
pub mod repetition;
pub mod stream;
pub mod symbol;
pub mod table;
pub mod trim;
pub mod utils;
