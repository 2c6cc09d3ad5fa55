use os::syscall::{copy_to_buffers, sys_get_time, time_val_from_us, timeval_bytes};
use os::trap::TrapContext;

#[test]
fn time_splits_into_seconds_and_microseconds() {
    let tv = time_val_from_us(3_250_001);
    assert_eq!(tv.sec, 3);
    assert_eq!(tv.usec, 250_001);
}

#[test]
fn time_value_bytes_are_little_endian_words() {
    let tv = time_val_from_us(1_000_258);
    let b = timeval_bytes(&tv);
    assert_eq!(b.len(), 16);
    assert_eq!(&b[..8], &1usize.to_le_bytes());
    assert_eq!(&b[8..], &258usize.to_le_bytes());
}

#[test]
fn copy_spreads_over_buffers() {
    let src = vec![1u8, 2, 3, 4, 5];
    let mut bufs = vec![vec![0u8; 2], vec![0u8; 1], vec![9u8; 4]];
    assert_eq!(copy_to_buffers(&src, &mut bufs), 5);
    assert_eq!(bufs, vec![vec![1, 2], vec![3], vec![4, 5, 9, 9]]);
    let mut short = vec![vec![0u8; 2]];
    assert_eq!(copy_to_buffers(&src, &mut short), 2);
    assert_eq!(short, vec![vec![1, 2]]);
}

#[test]
fn get_time_fills_user_buffers() {
    let mut bufs = vec![vec![0u8; 10], vec![0u8; 6]];
    assert_eq!(sys_get_time(0x1000, 2_000_003, &mut bufs), 0);
    let mut all = bufs[0].clone();
    all.extend_from_slice(&bufs[1]);
    assert_eq!(&all[..8], &2usize.to_le_bytes());
    assert_eq!(&all[8..], &3usize.to_le_bytes());
}

#[test]
fn get_time_rejects_null_and_short_buffers() {
    let mut bufs = vec![vec![7u8; 16]];
    assert_eq!(sys_get_time(0, 5, &mut bufs), -1);
    assert_eq!(bufs, vec![vec![7u8; 16]]);
    let mut short = vec![vec![0u8; 4]];
    assert_eq!(sys_get_time(0x1000, 5, &mut short), -1);
}

#[test]
fn trap_context_starts_in_user_mode() {
    // bit 8 (SPP) is cleared and every other bit is kept
    let cx = TrapContext::app_init_context(0x1000, 0x2000, 0x3000, 0x4000, 0x5000, 0x8000_0000_0000_0122);
    assert_eq!(cx.sstatus, 0x8000_0000_0000_0022);
    let reserved = TrapContext::app_init_context(0x1000, 0x2000, 0x3000, 0x4000, 0x5000, 0x104);
    assert_eq!(reserved.sstatus, 4);
    assert_eq!(cx.x[2], 0x2000);
    assert_eq!(cx.x[1], 0);
    assert_eq!(cx.sepc, 0x1000);
    assert_eq!(cx.kernel_satp, 0x3000);
    assert_eq!(cx.kernel_sp, 0x4000);
    assert_eq!(cx.trap_handler, 0x5000);
    let mut cx = cx;
    cx.set_sp(0x9000);
    assert_eq!(cx.x[2], 0x9000);
}
