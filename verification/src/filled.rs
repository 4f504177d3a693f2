//! How much of a measured horizontal extent is covered by detected line
//! segments: a covered length against a base length.

use vstd::prelude::*;

verus! {

/// A covered length out of a base length, both in cells.
#[derive(Debug, Clone, Copy, PartialEq, Eq, Structural)]
pub struct FilledLength {
    filled_len: i32,
    base_len: i32,
}

impl FilledLength {
    pub closed spec fn filled_spec(self) -> int {
        self.filled_len as int
    }

    pub closed spec fn base_spec(self) -> int {
        self.base_len as int
    }

    pub open spec fn wf(self) -> bool {
        0 <= self.filled_spec() && 0 <= self.base_spec()
    }

    pub fn new(filled_len: i32, base_len: i32) -> (r: FilledLength)
        requires
            filled_len >= 0,
            base_len >= 0,
        ensures
            r.wf(),
            r.filled_spec() == filled_len,
            r.base_spec() == base_len,
    {
        FilledLength { filled_len, base_len }
    }

    pub fn filled_len(&self) -> (r: i32)
        ensures
            r == self.filled_spec(),
    {
        self.filled_len
    }

    pub fn base_len(&self) -> (r: i32)
        ensures
            r == self.base_spec(),
    {
        self.base_len
    }

    /// Both measurements combined: the covered and the base lengths add up.
    pub fn combine(&self, other: &FilledLength) -> (r: FilledLength)
        requires
            self.wf(),
            other.wf(),
            self.filled_spec() + other.filled_spec() <= i32::MAX,
            self.base_spec() + other.base_spec() <= i32::MAX,
        ensures
            r.wf(),
            r.filled_spec() == self.filled_spec() + other.filled_spec(),
            r.base_spec() == self.base_spec() + other.base_spec(),
    {
        FilledLength {
            filled_len: self.filled_len + other.filled_len,
            base_len: self.base_len + other.base_len,
        }
    }
}

} // verus!
