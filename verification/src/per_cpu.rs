//! Per-processor data.
use vstd::prelude::*;

verus! {

/// Data of one processor: its number, and its own address so that it
/// can be found again through the GS base.
#[derive(Debug)]
pub struct PerCpu {
    bp: usize,
    cpu_id: usize,
}

impl PerCpu {
    /// The address recorded, 0 until `init`.
    pub closed spec fn bp_spec(&self) -> usize {
        self.bp
    }

    /// The processor number.
    pub closed spec fn cpu_id_spec(&self) -> usize {
        self.cpu_id
    }

    /// Data of processor `cpu_id`, not yet placed.
    pub fn new(cpu_id: usize) -> (r: Self)
        ensures
            r.bp_spec() == 0,
            r.cpu_id_spec() == cpu_id,
    {
        PerCpu { bp: 0, cpu_id }
    }

    /// Records `addr`, where this data now lives.
    pub fn init(&mut self, addr: usize)
        ensures
            final(self).bp_spec() == addr,
            final(self).cpu_id_spec() == old(self).cpu_id_spec(),
    {
        self.bp = addr;
    }

    /// The processor number.
    pub fn cpu_id(&self) -> (r: usize)
        ensures
            r == self.cpu_id_spec(),
    {
        self.cpu_id
    }
}

} // verus!
