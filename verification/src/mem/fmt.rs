//! Amounts of memory as they are printed: in the largest binary unit that
//! leaves a whole number of at least one.
use vstd::prelude::*;

verus! {

/// Unit of an amount of memory.
#[derive(Clone, Copy, Debug, PartialEq, Eq, Structural)]
pub enum Unit {
    B,
    KiB,
    MiB,
    GiB,
}

impl Unit {
    /// Symbol of the unit.
    pub fn name(&self) -> (r: &'static str)
        ensures
            r@ == match *self {
                Unit::B => "B"@,
                Unit::KiB => "KiB"@,
                Unit::MiB => "MiB"@,
                Unit::GiB => "GiB"@,
            },
    {
        match self {
            Unit::B => "B",
            Unit::KiB => "KiB",
            Unit::MiB => "MiB",
            Unit::GiB => "GiB",
        }
    }
}

/// An amount of memory in bytes.
pub struct Memory {
    bytes: usize,
}

impl Memory {
    /// The amount in bytes.
    pub closed spec fn bytes_spec(&self) -> usize {
        self.bytes
    }

    /// An amount of `bytes` bytes.
    pub fn new(bytes: usize) -> (r: Self)
        ensures
            r.bytes_spec() == bytes,
    {
        Memory { bytes }
    }

    /// The amount in the largest unit below it, rounded down, and the unit.
    pub fn scaled(&self) -> (r: (usize, Unit))
        ensures
            self.bytes_spec() < 1024 ==> r.0 == self.bytes_spec() && r.1 == Unit::B,
            1024 <= self.bytes_spec() < 1048576 ==> r.0 as int == self.bytes_spec() as int / 1024
                && r.1 == Unit::KiB,
            1048576 <= self.bytes_spec() < 1073741824 ==> r.0 as int == self.bytes_spec() as int
                / 1048576 && r.1 == Unit::MiB,
            1073741824 <= self.bytes_spec() ==> r.0 as int == self.bytes_spec() as int / 1073741824
                && r.1 == Unit::GiB,
    {
        let b = self.bytes;
        if b < 1024 {
            (b, Unit::B)
        } else if b < 1024 * 1024 {
            (b / 1024, Unit::KiB)
        } else if b < 1024 * 1024 * 1024 {
            proof {
                vstd::arithmetic::div_mod::lemma_div_denominator(b as int, 1024, 1024);
            }
            (b / 1024 / 1024, Unit::MiB)
        } else {
            proof {
                vstd::arithmetic::div_mod::lemma_div_denominator(b as int, 1024, 1024);
                vstd::arithmetic::div_mod::lemma_div_denominator(b as int, 1048576int, 1024);
                vstd::arithmetic::div_mod::lemma_div_denominator((b / 1024) as int, 1024, 1024);
            }
            (b / 1024 / 1024 / 1024, Unit::GiB)
        }
    }
}

} // verus!
