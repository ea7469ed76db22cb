use mos_rust::ata::{
    block_to_words, busy_wait_step, drq_status, drq_wait_step, lba_registers, status_busy, status_no_drive,
    total_sectors, words_to_block, DrqStatus, WaitStep, WAIT_ATTEMPTS,
};
use mos_rust::pit::{divisor_bytes, pit_divisor, sleep_target, still_sleeping, tick, uptime_ms, TIMER_HZ};
use mos_rust::time::SleepFuture;

#[test]
fn pit_divisor_fits_sixteen_bits() {
    assert_eq!(pit_divisor(), 11931);
    assert_eq!(divisor_bytes(11931), (0x9B, 0x2E));
}

#[test]
fn ticks_convert_to_milliseconds() {
    assert_eq!(TIMER_HZ, 100);
    assert_eq!(uptime_ms(0), 0);
    assert_eq!(uptime_ms(1), 10);
    assert_eq!(uptime_ms(250), 2500);
}

#[test]
fn tick_counts_and_wraps() {
    assert_eq!(tick(0), 1);
    assert_eq!(tick(41), 42);
    assert_eq!(tick(u64::MAX), 0);
}

#[test]
fn sleep_target_in_ticks() {
    assert_eq!(sleep_target(7, 1000), 107);
    assert_eq!(sleep_target(0, 5), 0);
    assert!(still_sleeping(106, 107));
    assert!(!still_sleeping(107, 107));
}

#[test]
fn sleep_future_is_ready_at_deadline() {
    let f = SleepFuture::new(1000, 5000);
    assert_eq!(f.end_time_ms(), 6000);
    assert!(!f.is_ready(5999));
    assert!(f.is_ready(6000));
    assert!(f.is_ready(7000));
}

#[test]
fn lba_register_values() {
    assert_eq!(lba_registers(0), (0xE0, 0, 0, 0));
    assert_eq!(lba_registers(0x0ABC_DEF1), (0xEA, 0xF1, 0xDE, 0xBC));
}

#[test]
fn status_bits() {
    assert!(status_busy(0x80));
    assert!(status_busy(0xD0));
    assert!(!status_busy(0x58));
    assert!(status_no_drive(0));
    assert!(!status_no_drive(0x50));
    assert!(matches!(drq_status(0x09), DrqStatus::Failed));
    assert!(matches!(drq_status(0x58), DrqStatus::Ready));
    assert!(matches!(drq_status(0x50), DrqStatus::Pending));
}

#[test]
fn identify_reports_sector_count() {
    let mut id = [0u16; 256];
    id[60] = 0x2000;
    id[61] = 0x0001;
    assert_eq!(total_sectors(&id), 0x0001_2000);
}

#[test]
fn sectors_pack_into_words_and_back() {
    let mut block = [0u8; 512];
    for i in 0..512 {
        block[i] = (i * 7 % 256) as u8;
    }
    let words = block_to_words(&block);
    assert_eq!(words[0], u16::from_le_bytes([block[0], block[1]]));
    assert_eq!(words[255], u16::from_le_bytes([block[510], block[511]]));
    assert_eq!(words_to_block(&words), block);
}

#[test]
fn busy_wait_gives_up_after_the_last_attempt() {
    assert!(matches!(busy_wait_step(1, 0x50), WaitStep::Done));
    assert!(matches!(busy_wait_step(1, 0x80), WaitStep::Again));
    assert!(matches!(busy_wait_step(WAIT_ATTEMPTS - 1, 0x80), WaitStep::Again));
    assert!(matches!(busy_wait_step(WAIT_ATTEMPTS, 0x80), WaitStep::TimedOut));
    assert!(matches!(busy_wait_step(WAIT_ATTEMPTS, 0x7F), WaitStep::Done));
}

#[test]
fn drq_wait_fails_on_error_and_ends_on_request() {
    assert!(matches!(drq_wait_step(1, 0x51), WaitStep::DeviceError));
    assert!(matches!(drq_wait_step(1, 0x59), WaitStep::DeviceError));
    assert!(matches!(drq_wait_step(1, 0x58), WaitStep::Done));
    assert!(matches!(drq_wait_step(1, 0x50), WaitStep::Again));
    assert!(matches!(drq_wait_step(WAIT_ATTEMPTS, 0x50), WaitStep::TimedOut));
    assert!(matches!(drq_wait_step(WAIT_ATTEMPTS, 0x58), WaitStep::Done));
}

#[test]
fn trivial_assertion() {
    assert_eq!(1, 1);
}
