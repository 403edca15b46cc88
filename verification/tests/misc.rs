use lib::context::Context;
use lib::csr::{InterruptNesting, SSTATUS_SPIE, SSTATUS_SPP};
use lib::plic::{
    classify_irq, enable_mask, must_complete, sclaim_ptr, senable_ptr, source_priority_ptr,
    sthreshold_ptr, ExternalIrq,
};
use lib::shell::command_len;
use lib::timer::{next_deadline, TIMER_INTERVAL};
use lib::trap::{decode_cause, TrapCause, TrapFrame};

#[test]
fn context_constructors() {
    let z = Context::zero();
    assert_eq!(z.ra, 0);
    assert_eq!(z.sp, 0);
    assert_eq!(z.s11, 0);
    let c = Context::new(0x8020_0000, 0x8700_1000);
    assert_eq!(c.ra, 0x8020_0000);
    assert_eq!(c.sp, 0x8700_1000);
    assert_eq!(c.s0, 0);
}

#[test]
fn kernel_task_frame_fields() {
    let f = TrapFrame::for_kernel_task(0x100, 0x200, 0x300, 0x400, SSTATUS_SPP | SSTATUS_SPIE);
    assert_eq!(f.sepc, 0x100);
    assert_eq!(f.sp, 0x200);
    assert_eq!(f.gp, 0x300);
    assert_eq!(f.tp, 0x400);
    assert_eq!(f.sstatus, 0x120);
    assert_eq!(f.ra, 0);
    assert_eq!(f.a0, 0);
    assert_eq!(f.t6, 0);
}

#[test]
fn trap_causes() {
    assert_eq!(decode_cause(0x8000_0000_0000_0005), TrapCause::TimerInterrupt);
    assert_eq!(decode_cause(0x8000_0000_0000_0009), TrapCause::ExternalInterrupt);
    assert_eq!(decode_cause(0x8000_0000_0000_0001), TrapCause::SoftwareInterrupt);
    assert_eq!(decode_cause(0x8000_0000_0000_0003), TrapCause::UnknownInterrupt(3));
    assert_eq!(decode_cause(0xd), TrapCause::Exception(13));
    assert_eq!(decode_cause(5), TrapCause::Exception(5));
}

#[test]
fn nested_interrupt_disable() {
    let mut n = InterruptNesting::new();
    n.push_off(0, true);
    n.push_off(0, false);
    assert!(!n.pop_off(0, false));
    assert!(n.pop_off(0, false));
    n.push_off(1, false);
    assert!(!n.pop_off(1, false));
}

#[test]
fn harts_are_independent() {
    let mut n = InterruptNesting::new();
    n.push_off(0, true);
    n.push_off(3, false);
    assert!(!n.pop_off(3, false));
    assert!(n.pop_off(0, false));
}

#[test]
fn plic_addresses() {
    assert_eq!(source_priority_ptr(10), 0x0c00_0028);
    assert_eq!(source_priority_ptr(1), 0x0c00_0004);
    assert_eq!(senable_ptr(0), 0x0c00_2080);
    assert_eq!(senable_ptr(1), 0x0c00_2180);
    assert_eq!(sthreshold_ptr(0), 0x0c20_1000);
    assert_eq!(sclaim_ptr(0), 0x0c20_1004);
    assert_eq!(sclaim_ptr(1), 0x0c20_3004);
    assert_eq!(enable_mask(), 0x402);
}

#[test]
fn plic_claims() {
    assert_eq!(classify_irq(0), ExternalIrq::Spurious);
    assert_eq!(classify_irq(10), ExternalIrq::Uart);
    assert_eq!(classify_irq(1), ExternalIrq::Virtio);
    assert_eq!(classify_irq(7), ExternalIrq::Unknown(7));
    assert!(!must_complete(0));
    assert!(must_complete(10));
    assert!(must_complete(7));
}

#[test]
fn timer_deadline() {
    assert_eq!(next_deadline(0), TIMER_INTERVAL);
    assert_eq!(next_deadline(10), 5_000_010);
}

#[test]
fn shell_command_length() {
    assert_eq!(command_len(b"ls\nfoo", 6), 2);
    assert_eq!(command_len(b"abc", 3), 3);
    assert_eq!(command_len(b"\n", 1), 0);
    assert_eq!(command_len(b"ab\n", 1), 1);
    assert_eq!(command_len(b"", 0), 0);
}
