//! What is to be written out besides the code when a program is lowered.
use vstd::prelude::*;

verus! {

/// The files that lowering writes besides its result, each if a path for
/// it is given.
#[derive(Debug, Clone)]
pub struct LoweringOptions {
    /// The matured graph before it is lowered.
    pub dump_firm_graph: Option<String>,
    /// The matured graph when it is lowered.
    pub dump_lowered_firm_graph: Option<String>,
    /// The assembler code.
    pub dump_assembler: Option<String>,
}

impl LoweringOptions {
    /// Whether anything is to be written out.
    pub fn any(&self) -> (r: bool)
        ensures
            r == (self.dump_firm_graph is Some || self.dump_lowered_firm_graph is Some
                || self.dump_assembler is Some),
    {
        self.dump_firm_graph.is_some() || self.dump_lowered_firm_graph.is_some()
            || self.dump_assembler.is_some()
    }
}

} // verus!
