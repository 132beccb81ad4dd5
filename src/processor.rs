use vstd::prelude::*;

verus! {

/// What a processor reports for one tagged call.
#[derive(Debug)]
pub enum ProcessResult {
    Done,
    /// The expressions that must be evaluated first.
    Eval(Vec<String>),
    Failed(String),
}

/// A tag that a processor handles: the imported name and the processor's
/// path.
#[derive(Clone, Debug)]
pub struct WywTag {
    pub name: String,
    pub processor: String,
}

/// The processor configuration found for a module.
#[derive(Clone, Debug)]
pub enum WywConfig {
    Resolved { tags: Vec<WywTag> },
    Unconfigured,
}

} // verus!
