use vstd::prelude::*;

use crate::fmt::{push_decimal, push_str, string_from_chars, decimal};

verus! {

/// Why the CPU usage of a process could not be tracked.
#[derive(Debug)]
pub enum CpuError {
    InvalidPid(u32),
}

impl CpuError {
    /// The error's message.
    pub open spec fn message_text(e: CpuError) -> Seq<char> {
        match e {
            CpuError::InvalidPid(pid) => "process with id `"@ + decimal(pid as nat) + "` not found"@,
        }
    }

    /// Returns the error's message.
    pub fn message(&self) -> (s: String)
        ensures
            s@ == Self::message_text(*self),
    {
        let mut out: Vec<char> = Vec::new();
        match self {
            CpuError::InvalidPid(pid) => {
                push_str(&mut out, "process with id `");
                push_decimal(&mut out, *pid as u64);
                push_str(&mut out, "` not found");
            },
        }
        proof {
            assert(out@ =~= Self::message_text(*self));
        }
        string_from_chars(&out)
    }
}

} // verus!
