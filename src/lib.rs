//! A JSON document engine: values whose numbers keep their text until
//! computed, a total order over values, JSON Pointer access, canonical text
//! output, and a scanner that splits a character stream into top-level values.
use vstd::prelude::*;

pub mod text;
pub mod number;
pub mod json;
pub mod order;
pub mod pointer;
pub mod serialize;
pub mod scanner;
pub mod ops;

pub use crate::json::{insert, Json, Property};
pub use crate::number::{Floating, Integral};
pub use crate::scanner::Scanner;
