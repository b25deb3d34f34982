//! derex: regular expression matching by Antimirov's partial derivatives,
//! with a deterministic automaton built from them by the subset
//! construction.

pub mod term;
pub mod regex;
pub mod sorted;
pub mod lang;
pub mod closure;
pub mod normal;
pub mod syntax;
pub mod antimirov;
pub mod derivatives;
pub mod dfa;

pub use regex::{R, normalize};
