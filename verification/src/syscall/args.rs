//! What a system call gets and gives back.

use vstd::prelude::*;

verus! {

/// A value, or a negated error number.
pub type SyscallResult = i64;

/// The number and the arguments of a system call, and where it came from.
#[derive(Clone, Copy, Debug, PartialEq, Eq, Structural)]
pub struct SyscallArgs {
    pub nr: u64,
    pub arg0: u64,
    pub arg1: u64,
    pub arg2: u64,
    pub arg3: u64,
    pub arg4: u64,
    pub arg5: u64,
    pub caller_rip: u64,
    pub caller_rflags: u64,
}

} // verus!
