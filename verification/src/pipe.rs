use vstd::prelude::*;

verus! {

/// Whether the read end of a process-local pipe blocks when no data is
/// available.
#[derive(Debug, Clone, Copy, PartialEq, Eq)]
pub enum ReaderType {
    Blocking,
    NonBlocking,
}

/// Whether the write end of a process-local pipe blocks when the pipe
/// is full.
#[derive(Debug, Clone, Copy, PartialEq, Eq)]
pub enum WriterType {
    Blocking,
    NonBlocking,
}

} // verus!
