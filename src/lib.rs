//! Infers the structure of a JSON document: for every value position, the kinds of value seen
//! there, example literals, array length ranges and which object keys are optional. Repeated
//! occurrences (the elements of an array) are merged into one summary as they are parsed.
use vstd::prelude::*;

pub mod lexer;
pub mod token;
pub mod schema;
pub mod merge;
pub mod parser;
pub mod describe;
pub mod laws;
pub mod symmetry;

verus! {

} // verus!
