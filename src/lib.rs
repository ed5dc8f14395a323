use vstd::prelude::*;

pub mod field;
pub mod frame;
pub mod prover;
pub mod reader;
pub mod term;
pub mod text;
pub mod writer;

pub use field::Fr;
pub use frame::{frames_chained, CircuitFrame, ContPtr, ContTag, Frame, MultiFrame, IO};
pub use prover::{
    aggregation_size_of, is_power_of_two, multiframes_chained, pad_statements, Groth16Prover,
};
pub use reader::CharStream;
pub use term::{Expr, Pool, Ptr, Tag};

verus! {

} // verus!
