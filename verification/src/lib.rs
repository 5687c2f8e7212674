//! A rule-driven lexer.
//!
//! Raw text is cut into typed lexemes by a small, declarative table of
//! pattern rules.  Each rule is an ordered sequence of quantified
//! character-class fragments; one finite automaton per rule is advanced in
//! lock-step over the input, the first rule (in table order) to reach
//! acceptance wins, and the matched characters become one token.

pub mod laws;
pub mod lexer;
pub mod lexing_rules;
pub mod model;
pub mod token;
