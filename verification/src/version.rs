//! The versions of the layout of the state tree.

use vstd::prelude::*;

verus! {

/// The version of the layout of a state tree.
#[derive(Debug, Clone, Copy, PartialEq, Eq, Structural)]
pub enum StateTreeVersion {
    V0,
    V1,
    V2,
    V3,
    V4,
    V5,
}

impl StateTreeVersion {
    /// The number that stands for the version where it is written.
    pub open spec fn number(self) -> u64 {
        match self {
            StateTreeVersion::V0 => 0,
            StateTreeVersion::V1 => 1,
            StateTreeVersion::V2 => 2,
            StateTreeVersion::V3 => 3,
            StateTreeVersion::V4 => 4,
            StateTreeVersion::V5 => 5,
        }
    }

    /// Whether state trees of this version are supported: only the latest
    /// is.
    pub open spec fn supported(self) -> bool {
        self == StateTreeVersion::V5
    }

    /// The number that stands for the version where it is written.
    pub fn to_u64(self) -> (n: u64)
        ensures
            n == self.number(),
    {
        match self {
            StateTreeVersion::V0 => 0,
            StateTreeVersion::V1 => 1,
            StateTreeVersion::V2 => 2,
            StateTreeVersion::V3 => 3,
            StateTreeVersion::V4 => 4,
            StateTreeVersion::V5 => 5,
        }
    }

    /// The version that `n` stands for, if it stands for one.
    pub fn from_u64(n: u64) -> (r: Option<StateTreeVersion>)
        ensures
            match r {
                Some(v) => v.number() == n,
                None => n > 5,
            },
    {
        if n == 0 {
            Some(StateTreeVersion::V0)
        } else if n == 1 {
            Some(StateTreeVersion::V1)
        } else if n == 2 {
            Some(StateTreeVersion::V2)
        } else if n == 3 {
            Some(StateTreeVersion::V3)
        } else if n == 4 {
            Some(StateTreeVersion::V4)
        } else if n == 5 {
            Some(StateTreeVersion::V5)
        } else {
            None
        }
    }

    /// Whether state trees of this version are supported.
    pub fn is_supported(self) -> (r: bool)
        ensures
            r == self.supported(),
    {
        match self {
            StateTreeVersion::V5 => true,
            _ => false,
        }
    }
}

} // verus!
