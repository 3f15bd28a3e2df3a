//! The interrupt flag around a lock.

use vstd::prelude::*;

verus! {

/// The interrupt flag in RFLAGS.
pub const IF_BIT: u64 = 0x200;

/// Interrupts are on in these RFLAGS.
pub open spec fn flag_is_set(flags: u64) -> bool {
    flags & IF_BIT != 0
}

/// Remembers whether interrupts were on before they were switched off.
pub struct IrqGuard {
    was_enabled: bool,
}

impl IrqGuard {
    /// Whether interrupts come back on when the guard goes.
    pub closed spec fn restores(&self) -> bool {
        self.was_enabled
    }

    /// A guard taken when RFLAGS were `flags`.
    pub fn new(flags: u64) -> (r: Self)
        ensures
            r.restores() == flag_is_set(flags),
    {
        IrqGuard { was_enabled: flags & IF_BIT != 0 }
    }

    /// Whether interrupts have to be switched on again.
    pub fn reenables(&self) -> (r: bool)
        ensures
            r == self.restores(),
    {
        self.was_enabled
    }
}

/// Whether interrupts are on in these RFLAGS.
pub fn interrupts_enabled(flags: u64) -> (r: bool)
    ensures
        r == flag_is_set(flags),
{
    flags & IF_BIT != 0
}

} // verus!
