use vstd::prelude::*;

verus! {

/// One planned filesystem step.  The order of the emitted action sequence is
/// semantically significant: applying the actions left to right realizes the
/// edit without clobbering any path.
#[derive(Debug, Clone, PartialEq, Eq)]
pub enum Action {
    /// Rewrite the file at the path (first field) with the content (second field).
    Write(Vec<u8>, Vec<u8>),
    /// Move the file at the first path to the second path.
    Rename(Vec<u8>, Vec<u8>),
    /// Remove the file at the path.
    Delete(Vec<u8>),
}

/// Mathematical model of an `Action`, over byte sequences.
pub ghost enum ActionV {
    Write { path: Seq<u8>, content: Seq<u8> },
    Rename { from: Seq<u8>, to: Seq<u8> },
    Delete { path: Seq<u8> },
}

impl DeepView for Action {
    type V = ActionV;

    open spec fn deep_view(&self) -> ActionV {
        match self {
            Action::Write(p, c) => ActionV::Write { path: p@, content: c@ },
            Action::Rename(f, t) => ActionV::Rename { from: f@, to: t@ },
            Action::Delete(p) => ActionV::Delete { path: p@ },
        }
    }
}

} // verus!
