//! Model-specific registers of x86-64.
use vstd::prelude::*;

verus! {

/// A model-specific register.
#[derive(Clone, Copy, Debug, PartialEq, Eq, Structural)]
pub enum Msr {
    FsBase,
    GsBase,
    KernelGsBase,
}

impl Msr {
    /// The register's number, as `rdmsr` and `wrmsr` take it.
    pub fn number(&self) -> (r: u32)
        ensures
            r == match *self {
                Msr::FsBase => 0xC0000100u32,
                Msr::GsBase => 0xC0000101u32,
                Msr::KernelGsBase => 0xC0000102u32,
            },
    {
        match self {
            Msr::FsBase => 0xC0000100,
            Msr::GsBase => 0xC0000101,
            Msr::KernelGsBase => 0xC0000102,
        }
    }
}

/// The two halves of a value written to a register: low word in EAX,
/// high word in EDX.
pub fn split(v: u64) -> (r: (u32, u32))
    ensures
        r.0 as int == v as int % 0x1_0000_0000,
        r.1 as int == v as int / 0x1_0000_0000,
{
    assert(v as u32 as int == v as int % 0x1_0000_0000) by (bit_vector);
    assert((v >> 32u64) as int == v as int / 0x1_0000_0000) by (bit_vector);
    (v as u32, (v >> 32) as u32)
}

/// The value read from a register from its halves: low word from EAX,
/// high word from EDX.
pub fn join(lo: u32, hi: u32) -> (r: u64)
    ensures
        r as int == lo as int + hi as int * 0x1_0000_0000,
{
    assert(((lo as u64) | ((hi as u64) << 32u64)) as int == lo as int + hi as int * 0x1_0000_0000) by (bit_vector);
    (lo as u64) | ((hi as u64) << 32)
}

/// Joining the two halves of a value gives the value back, and splitting
/// a joined value gives the halves back.
pub proof fn law_split_join(v: u64, lo: u32, hi: u32)
    ensures
        (v as int % 0x1_0000_0000) + (v as int / 0x1_0000_0000) * 0x1_0000_0000 == v as int,
        (lo as int + hi as int * 0x1_0000_0000) % 0x1_0000_0000 == lo as int,
        (lo as int + hi as int * 0x1_0000_0000) / 0x1_0000_0000 == hi as int,
{
    vstd::arithmetic::div_mod::lemma_fundamental_div_mod(v as int, 0x1_0000_0000);
    vstd::arithmetic::div_mod::lemma_fundamental_div_mod_converse(
        lo as int + hi as int * 0x1_0000_0000,
        0x1_0000_0000,
        hi as int,
        lo as int,
    );
}

} // verus!
