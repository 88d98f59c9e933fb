//! A small exercise library centred on a pattern-matching engine: a compiler
//! from a restricted regular-expression syntax to a dense transition table,
//! and a matcher that walks the table over an input string.  Around it stand
//! the smaller exercises of the same set: dynamic-programming staircase
//! counters, sorting algorithms, a separate-chaining hash map, linked lists,
//! string tokenisers and eager iterator adapters.

pub mod dp;
pub mod guess;
pub mod hashmap;
pub mod iterators;
pub mod lists;
pub mod regexp;
pub mod regexp_laws;
pub mod sorts;
pub mod strsplit;
pub mod strtok;
pub mod turnstile;
