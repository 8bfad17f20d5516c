//! Small progress measures for parity games: the game model, the lattice of
//! measures, the lift operator, vertex orderings and the fixpoint engine, with
//! the reader of the textual game format and of the command line beside them.

pub mod lattice;
pub mod listing;
pub mod text;
pub mod pg;
pub mod order;
pub mod climb;
pub mod fixpoint;
pub mod reverse;
pub mod distance;
pub mod sorting;
pub mod strategies;
pub mod algorithm;
pub mod parser;
pub mod arguments;
pub mod experiment;
