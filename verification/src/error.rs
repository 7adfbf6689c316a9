use vstd::prelude::*;

verus! {

/// Why an analysis could not be carried out.
#[derive(Clone, Copy, Debug, PartialEq, Eq, Structural)]
pub enum AnalysisError {
    /// The valid jump destinations of a contract's code could not be
    /// determined: the code is longer than the 16-bit space of program
    /// counters, or it starts with the marker of a container format.
    BytecodeAnalysis,
    /// The global graph cannot number another node or edge.
    GraphCapacity,
}

/// Why the settings of a run could not be put together.
#[derive(Clone, Copy, Debug, PartialEq, Eq, Structural)]
pub enum ConfigError {
    /// The variable that names the RPC endpoint is not set.
    MissingRpcUrl,
}

/// The text that tells a user of a missing endpoint variable.
pub const MISSING_RPC_URL: &'static str =
    "GETH_API environment variable not found. Please configure GETH_API=<Your RPC Node URL> in the .env file";

/// The text that tells a user of code that could not be analysed.
pub const BYTECODE_ANALYSIS_FAILED: &'static str = "bytecode analysis failed";

/// The text that tells a user of a graph that has grown too large.
pub const GRAPH_CAPACITY_EXCEEDED: &'static str =
    "the transaction graph cannot hold another node or edge";

impl ConfigError {
    /// The error in words.
    pub fn message(&self) -> (text: &'static str)
        ensures
            text@ == MISSING_RPC_URL@,
    {
        MISSING_RPC_URL
    }
}

impl AnalysisError {
    /// The error in words.
    pub fn message(&self) -> (text: &'static str)
        ensures
            text@ == match *self {
                AnalysisError::BytecodeAnalysis => BYTECODE_ANALYSIS_FAILED@,
                AnalysisError::GraphCapacity => GRAPH_CAPACITY_EXCEEDED@,
            },
    {
        match self {
            AnalysisError::BytecodeAnalysis => BYTECODE_ANALYSIS_FAILED,
            AnalysisError::GraphCapacity => GRAPH_CAPACITY_EXCEEDED,
        }
    }
}

} // verus!
