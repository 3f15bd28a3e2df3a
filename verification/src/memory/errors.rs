//! Errors of the memory subsystem.

use vstd::prelude::*;
use vstd::string::*;

verus! {

#[derive(Debug, Clone, Copy, PartialEq, Eq, Structural)]
pub enum MemoryError {
    VirtualToPhysical { addr: u64 },
    InvalidPageCount { pages: u64 },
    OutOfMemory,
    AllocationTooLarge { requested: u64, max: u64 },
    UnknownAllocation { addr: u64 },
    AlreadyMapped { addr: u64 },
    NotMapped { addr: u64 },
}

pub type Result<T> = core::result::Result<T, MemoryError>;


/// The sixteen digits.
pub open spec fn digits() -> Seq<char> {
    seq!['0', '1', '2', '3', '4', '5', '6', '7', '8', '9', 'a', 'b', 'c', 'd', 'e', 'f']
}

/// The number `n`, written to the base `base`.
pub open spec fn written(n: nat, base: nat) -> Seq<char>
    decreases n,
{
    if n < base || base < 2 {
        seq![digits()[n as int]]
    } else {
        proof {
            vstd::arithmetic::div_mod::lemma_div_decreases(n as int, base as int);
        }
        written(n / base, base).push(digits()[(n % base) as int])
    }
}

/// What the error says.
pub open spec fn message_of(e: MemoryError) -> Seq<char> {
    match e {
        MemoryError::VirtualToPhysical { addr } => "failed to convert virtual address 0x"@ + written(addr as nat, 16)
            + " to physical"@,
        MemoryError::InvalidPageCount { pages } => "invalid page count: "@ + written(pages as nat, 10),
        MemoryError::OutOfMemory => "out of memory"@,
        MemoryError::AllocationTooLarge { requested, max } => "allocation too large: requested "@ + written(
            requested as nat,
            10,
        ) + " bytes, max "@ + written(max as nat, 10) + " bytes"@,
        MemoryError::UnknownAllocation { addr } => "unknown allocation at physical address 0x"@ + written(addr as nat, 16),
        MemoryError::AlreadyMapped { addr } => "virtual address 0x"@ + written(addr as nat, 16) + " is already mapped"@,
        MemoryError::NotMapped { addr } => "virtual address 0x"@ + written(addr as nat, 16) + " is not mapped"@,
    }
}

fn digit(d: u64) -> (r: &'static str)
    requires
        d < 16,
    ensures
        r@ == seq![digits()[d as int]],
{
    proof {
        reveal_strlit("0");
        reveal_strlit("1");
        reveal_strlit("2");
        reveal_strlit("3");
        reveal_strlit("4");
        reveal_strlit("5");
        reveal_strlit("6");
        reveal_strlit("7");
        reveal_strlit("8");
        reveal_strlit("9");
        reveal_strlit("a");
        reveal_strlit("b");
        reveal_strlit("c");
        reveal_strlit("d");
        reveal_strlit("e");
        reveal_strlit("f");
    }
    let r = match d {
        0 => "0",
        1 => "1",
        2 => "2",
        3 => "3",
        4 => "4",
        5 => "5",
        6 => "6",
        7 => "7",
        8 => "8",
        9 => "9",
        10 => "a",
        11 => "b",
        12 => "c",
        13 => "d",
        14 => "e",
        _ => "f",
    };
    assert(r@ =~= seq![digits()[d as int]]);
    r
}

fn write_number(n: u64, base: u64) -> (r: String)
    requires
        2 <= base <= 16,
    ensures
        r@ == written(n as nat, base as nat),
    decreases n,
{
    if n < base {
        String::from_str(digit(n))
    } else {
        assert(n / base < n) by (nonlinear_arith)
            requires
                2 <= base <= n,
        ;
        let mut r = write_number(n / base, base);
        let ghost before = r@;
        r.append(digit(n % base));
        assert(r@ =~= before.push(digits()[(n % base) as int]));
        r
    }
}

impl MemoryError {
    /// What the error says.
    pub fn message(&self) -> (r: String)
        ensures
            r@ == message_of(*self),
    {
        match *self {
            MemoryError::VirtualToPhysical { addr } => {
                let mut r = String::from_str("failed to convert virtual address 0x");
                r.append(write_number(addr, 16).as_str());
                r.append(" to physical");
                r
            },
            MemoryError::InvalidPageCount { pages } => {
                let mut r = String::from_str("invalid page count: ");
                r.append(write_number(pages, 10).as_str());
                r
            },
            MemoryError::OutOfMemory => String::from_str("out of memory"),
            MemoryError::AllocationTooLarge { requested, max } => {
                let mut r = String::from_str("allocation too large: requested ");
                r.append(write_number(requested, 10).as_str());
                r.append(" bytes, max ");
                r.append(write_number(max, 10).as_str());
                r.append(" bytes");
                r
            },
            MemoryError::UnknownAllocation { addr } => {
                let mut r = String::from_str("unknown allocation at physical address 0x");
                r.append(write_number(addr, 16).as_str());
                r
            },
            MemoryError::AlreadyMapped { addr } => {
                let mut r = String::from_str("virtual address 0x");
                r.append(write_number(addr, 16).as_str());
                r.append(" is already mapped");
                r
            },
            MemoryError::NotMapped { addr } => {
                let mut r = String::from_str("virtual address 0x");
                r.append(write_number(addr, 16).as_str());
                r.append(" is not mapped");
                r
            },
        }
    }
}

} // verus!
