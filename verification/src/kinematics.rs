//! What a plate margin's relative motion is doing.
use vstd::prelude::*;

verus! {

/// `convergent`, `divergent` or `transform` -- what a margin's relative motion is doing.
#[derive(Debug, Clone, Copy, PartialEq, Eq, Structural)]
pub enum MarginKind {
    Convergent,
    Divergent,
    Transform,
}

impl MarginKind {
    /// The kind's name, in lower case.
    pub fn as_str(&self) -> (name: &'static str)
        ensures
            name@ == (match *self {
                MarginKind::Convergent => "convergent"@,
                MarginKind::Divergent => "divergent"@,
                MarginKind::Transform => "transform"@,
            }),
    {
        match self {
            MarginKind::Convergent => "convergent",
            MarginKind::Divergent => "divergent",
            MarginKind::Transform => "transform",
        }
    }
}

} // verus!
