//! Programmable Interval Timer arithmetic: the channel-0 divisor, the tick
//! counter and the conversions between ticks and milliseconds.

use vstd::prelude::*;

verus! {

/// Frequency of the PIT's oscillator, in Hz.
pub const PIT_FREQUENCY: u32 = 1_193_182;

/// Rate at which channel 0 is programmed to interrupt, in Hz.
pub const TIMER_HZ: u32 = 100;

/// Command byte: channel 0, low byte then high byte, mode 3, binary.
pub const PIT_COMMAND: u8 = 0b00_11_011_0u8;

/// Reload value for channel 0; the register is 16 bits wide.
pub fn pit_divisor() -> (divisor: u32)
    ensures
        divisor == PIT_FREQUENCY / TIMER_HZ,
        divisor <= u16::MAX,
{
    PIT_FREQUENCY / TIMER_HZ
}

/// The two bytes written to channel 0 for `divisor`, low byte first.
pub fn divisor_bytes(divisor: u32) -> (bytes: (u8, u8))
    requires
        divisor <= u16::MAX,
    ensures
        bytes.0 == divisor % 256,
        bytes.1 == divisor / 256,
{
    assert(divisor & 0xff == divisor % 256) by (bit_vector);
    assert(divisor <= 0xffff ==> (divisor >> 8) & 0xff == divisor / 256) by (bit_vector);
    ((divisor & 0xff) as u8, ((divisor >> 8) & 0xff) as u8)
}

/// The tick count after one more timer interrupt; the counter wraps.
pub fn tick(count: u64) -> (next: u64)
    ensures
        next == if count == u64::MAX { 0 } else { count + 1 },
{
    count.wrapping_add(1)
}

/// Milliseconds since boot after `ticks` timer interrupts.
pub fn uptime_ms(ticks: u64) -> (ms: u64)
    requires
        ticks * 1000 <= u64::MAX,
    ensures
        ms == ticks * 1000 / (TIMER_HZ as int),
{
    ticks * 1000 / TIMER_HZ as u64
}

/// The tick count at which a sleep of `ms` milliseconds started at tick
/// `now` ends.
pub fn sleep_target(now: u64, ms: u64) -> (target: u64)
    requires
        ms * TIMER_HZ <= u64::MAX,
        now + ms * TIMER_HZ / 1000 <= u64::MAX,
    ensures
        target == now + ms * (TIMER_HZ as int) / 1000,
{
    now + (ms * TIMER_HZ as u64) / 1000
}

/// A sleep towards tick `target` is still waiting at tick `now`.
pub fn still_sleeping(now: u64, target: u64) -> (waiting: bool)
    ensures
        waiting == (now < target),
{
    now < target
}

} // verus!
