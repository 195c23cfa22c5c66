//! A small pattern-matching engine.
//!
//! A pattern is literal text, single-character wildcards (`.`) and bracketed
//! alternations (`(one|two|three)`). It is compiled into a token sequence and
//! matched against candidate strings either greedily, in one pass, or
//! exhaustively, by a depth-first search over every choice of alternative.
//!
//! Every string is modelled by its sequence of characters, and every result is
//! stated over that model: `grammar` says which tokens a pattern text stands
//! for, `rules` what the two matchers find, and `laws` what follows from that.

pub mod frame;
pub mod grammar;
pub mod laws;
pub mod layout;
pub mod matcher;
pub mod rules;
pub mod search;
pub mod steps;
pub mod text;
pub mod token;

pub use crate::matcher::Matcher;
pub use crate::token::MatcherToken;
