use vstd::prelude::*;

pub mod dec;
pub mod fault_tree;
pub mod fault_tree_normalizer;
pub mod formula;
pub mod modularizer;
pub mod nodes;
pub mod preproc;
pub mod semantics;
pub mod solver;
pub mod strutil;

verus! {

/// The error kinds the engine reports.  Parsing and structural problems carry
/// a short message for the caller to surface.
#[derive(Debug)]
pub enum FtError {
    /// A line of the input declaration could not be parsed.
    Parse(String),
    /// A name could not be resolved or a gate was declared inconsistently.
    Structure(String),
    /// A placeholder or an unexpanded voting gate reached the encoder.
    Encoding,
    /// The solver process was killed by the external timeout.
    Timeout,
    /// The solver process wrote something other than a timeout to stderr.
    SolverRuntime(String),
    /// The solver output held no parsable result value.
    SolverOutput,
}

} // verus!
