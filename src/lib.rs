//! Repetition combinators for byte parsers, with their behaviour proved.
//!
//! A parser reads an [`input::Input`] view and either succeeds with the view
//! that is left and an output, or fails with one of the three signals of
//! [`error::ErrMode`]. The combinators of [`multi`] apply a parser several times
//! and are proved to compute what the functions of [`model`] describe; [`laws`]
//! proves what holds of them whatever the parser: they stop, they only consume,
//! and minimum counts, separated lists and length prefixes behave as stated
//! there.

pub mod input;
pub mod error;
pub mod parser;
pub mod primitives;
pub mod model;
pub mod multi;
pub mod laws;
