//! Construction of tagged nondeterministic finite automata over bytes.
//!
//! The crate builds automaton fragments with the classical combinators
//! (concatenation, alternation, repetition, optionality), compiles sets of
//! Unicode scalar values into fragments that read their UTF-8 encodings, and
//! decides whether two automata have the same shape up to a renaming of
//! their nodes.

pub mod automata;
pub mod bitword;
pub mod charsets;
pub mod language;
pub mod permute;
pub mod ranges;
pub mod utf8;
pub mod utnfa;

pub use automata::{Automata, SimpleAutomata};
pub use charsets::{Charset, CharsetIter, Utf8Charset};
pub use ranges::{intersect_ranges, subtract_ranges};
pub use utnfa::UTnfa;
