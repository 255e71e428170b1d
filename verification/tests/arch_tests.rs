use void_kernel::msr::{join, split, Msr};
use void_kernel::per_cpu::PerCpu;

#[test]
fn msr_numbers() {
    assert_eq!(Msr::FsBase.number(), 0xC000_0100);
    assert_eq!(Msr::GsBase.number(), 0xC000_0101);
    assert_eq!(Msr::KernelGsBase.number(), 0xC000_0102);
}

#[test]
fn split_and_join_are_inverse() {
    assert_eq!(split(0x1234_5678_9abc_def0), (0x9abc_def0, 0x1234_5678));
    assert_eq!(join(0x9abc_def0, 0x1234_5678), 0x1234_5678_9abc_def0);
    for v in [0u64, 1, u64::MAX, 0xffff_ffff, 0x1_0000_0000] {
        let (lo, hi) = split(v);
        assert_eq!(join(lo, hi), v);
    }
}

#[test]
fn per_cpu_keeps_its_number() {
    let mut p = PerCpu::new(3);
    assert_eq!(p.cpu_id(), 3);
    p.init(0xdead_0000);
    assert_eq!(p.cpu_id(), 3);
}
