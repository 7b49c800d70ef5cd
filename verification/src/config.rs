//! The settings of the memory.
use vstd::prelude::*;

verus! {

/// The settings of the memory.
#[derive(Debug, Clone, PartialEq, Eq)]
pub struct MemoryConfig {
    /// Whether the memory is put into prompts.
    pub auto_memory_enabled: bool,
    /// Whether dreams start by themselves.
    pub auto_dream_enabled: bool,
    /// Where the memory is kept, if not in the default place.
    pub auto_memory_directory: Option<String>,
}

} // verus!
