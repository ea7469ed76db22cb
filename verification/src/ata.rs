//! The computing half of the ATA PIO driver (primary bus, master drive,
//! 28-bit LBA): register values for a transfer, the status bits, the size
//! reported by IDENTIFY, and the packing of sectors into 16-bit data words.

use vstd::prelude::*;
use crate::block_device::BLOCK_SIZE;

verus! {

/// Bytes in one sector.
pub const SECTOR_SIZE: usize = 512;

/// READ SECTORS command.
pub const CMD_READ_SECTORS: u8 = 0x20;
/// WRITE SECTORS command.
pub const CMD_WRITE_SECTORS: u8 = 0x30;
/// IDENTIFY command.
pub const CMD_IDENTIFY: u8 = 0xEC;

/// Status bit: the device reports an error.
pub const STATUS_ERR: u8 = 1;
/// Status bit: the device is ready to transfer data.
pub const STATUS_DRQ: u8 = 8;
/// Status bit: the device is busy.
pub const STATUS_BSY: u8 = 128;

/// Failures of the disk.
#[derive(Debug)]
pub enum AtaError {
    /// The device set ERR; the payload is its error register.
    DeviceError(u8),
    /// No drive answered IDENTIFY.
    NoDrive,
    /// The device stayed busy or never asked for data.
    Timeout,
}

/// What one status read means while waiting for a data request.
pub enum DrqStatus {
    /// ERR is set: read the error register and fail.
    Failed,
    /// DRQ is set: the data can be transferred.
    Ready,
    /// Neither: read the status again.
    Pending,
}

/// The register values that select sector `lba`: drive/head (LBA mode,
/// master, bits 24..28), then the low, middle and high LBA bytes.
pub fn lba_registers(lba: u32) -> (regs: (u8, u8, u8, u8))
    requires
        lba < 0x1000_0000,
    ensures
        regs.0 == 0xE0 + lba / 0x100_0000,
        regs.1 == lba % 0x100,
        regs.2 == (lba / 0x100) % 0x100,
        regs.3 == (lba / 0x1_0000) % 0x100,
{
    assert(lba < 0x1000_0000 ==> (0xE0u32 | ((lba >> 24) & 0x0F)) == 0xE0 + lba / 0x100_0000) by (bit_vector);
    assert((lba & 0xFF) == lba % 0x100) by (bit_vector);
    assert(((lba >> 8) & 0xFF) == (lba / 0x100) % 0x100) by (bit_vector);
    assert(((lba >> 16) & 0xFF) == (lba / 0x1_0000) % 0x100) by (bit_vector);
    (
        (0xE0u32 | ((lba >> 24) & 0x0F)) as u8,
        (lba & 0xFF) as u8,
        ((lba >> 8) & 0xFF) as u8,
        ((lba >> 16) & 0xFF) as u8,
    )
}

/// The device is busy.
pub fn status_busy(status: u8) -> (busy: bool)
    ensures
        busy == (status >= 128),
{
    assert((status & STATUS_BSY != 0) == (status >= 128)) by (bit_vector);
    status & STATUS_BSY != 0
}

/// Reading a status of 0 after IDENTIFY means that no drive is attached.
pub fn status_no_drive(status: u8) -> (absent: bool)
    ensures
        absent == (status == 0),
{
    status == 0
}

/// Classifies a status read while waiting for a data request: ERR wins
/// over DRQ.
pub fn drq_status(status: u8) -> (s: DrqStatus)
    ensures
        s is Failed <==> status % 2 == 1,
        s is Ready <==> status % 2 == 0 && (status / 8) % 2 == 1,
        s is Pending <==> status % 2 == 0 && (status / 8) % 2 == 0,
{
    assert((status & STATUS_ERR != 0) == (status % 2 == 1)) by (bit_vector);
    assert((status & STATUS_DRQ != 0) == ((status / 8) % 2 == 1)) by (bit_vector);
    if status & STATUS_ERR != 0 {
        DrqStatus::Failed
    } else if status & STATUS_DRQ != 0 {
        DrqStatus::Ready
    } else {
        DrqStatus::Pending
    }
}

/// Status reads that a wait makes before it gives up with `Timeout`.
pub const WAIT_ATTEMPTS: u32 = 100_000;

/// What a wait does after a status read.
pub enum WaitStep {
    /// The wait is over: go on with the command.
    Done,
    /// Read the status again.
    Again,
    /// ERR is set: read the error register and fail with `DeviceError`.
    DeviceError,
    /// Every attempt is used up: fail with `Timeout`.
    TimedOut,
}

/// The wait for BSY to clear, after its `reads`-th status read returned
/// `status`.
pub fn busy_wait_step(reads: u32, status: u8) -> (step: WaitStep)
    requires
        1 <= reads <= WAIT_ATTEMPTS,
    ensures
        step is Done <==> status < 128,
        step is Again <==> status >= 128 && reads < WAIT_ATTEMPTS,
        step is TimedOut <==> status >= 128 && reads == WAIT_ATTEMPTS,
        !(step is DeviceError),
{
    if !status_busy(status) {
        WaitStep::Done
    } else if reads < WAIT_ATTEMPTS {
        WaitStep::Again
    } else {
        WaitStep::TimedOut
    }
}

/// The wait for a data request, after its `reads`-th status read returned
/// `status`: ERR fails at once, DRQ ends the wait.
pub fn drq_wait_step(reads: u32, status: u8) -> (step: WaitStep)
    requires
        1 <= reads <= WAIT_ATTEMPTS,
    ensures
        step is DeviceError <==> status % 2 == 1,
        step is Done <==> status % 2 == 0 && (status / 8) % 2 == 1,
        step is Again <==> status % 2 == 0 && (status / 8) % 2 == 0 && reads < WAIT_ATTEMPTS,
        step is TimedOut <==> status % 2 == 0 && (status / 8) % 2 == 0 && reads == WAIT_ATTEMPTS,
{
    match drq_status(status) {
        DrqStatus::Failed => WaitStep::DeviceError,
        DrqStatus::Ready => WaitStep::Done,
        DrqStatus::Pending => {
            if reads < WAIT_ATTEMPTS {
                WaitStep::Again
            } else {
                WaitStep::TimedOut
            }
        },
    }
}

/// Number of sectors of the drive, from words 60 and 61 of the IDENTIFY
/// data (low word first).
pub fn total_sectors(id: &[u16; 256]) -> (n: u32)
    ensures
        n == id@[60] + 65536 * id@[61],
{
    let lo = id[60] as u32;
    let hi = id[61] as u32;
    assert((lo | (hi << 16)) == lo + 65536 * hi) by (bit_vector)
        requires
            lo < 65536,
            hi < 65536;
    lo | (hi << 16)
}

/// A sector as the bytes of its data words, each little-endian.
pub fn words_to_block(words: &[u16; 256]) -> (buf: [u8; BLOCK_SIZE])
    ensures
        forall|i: int| 0 <= i < 256 ==> #[trigger] buf@[2 * i] == words@[i] % 256 && buf@[2 * i + 1] == words@[i] / 256,
{
    let mut buf = [0u8; BLOCK_SIZE];
    let mut i: usize = 0;
    while i < BLOCK_SIZE / 2
        invariant
            0 <= i <= 256,
            forall|k: int| 0 <= k < i ==> #[trigger] buf@[2 * k] == words@[k] % 256 && buf@[2 * k + 1] == words@[k] / 256,
        decreases 256 - i,
    {
        let w = words[i];
        let ghost prev = buf@;
        buf[i * 2] = (w % 256) as u8;
        buf[i * 2 + 1] = (w / 256) as u8;
        proof {
            assert forall|k: int| 0 <= k < i + 1 implies #[trigger] buf@[2 * k] == words@[k] % 256 && buf@[2 * k + 1] == words@[k] / 256 by {
                if k < i {
                    assert(buf@[2 * k] == prev[2 * k]);
                    assert(buf@[2 * k + 1] == prev[2 * k + 1]);
                }
            }
        }
        i = i + 1;
    }
    buf
}

/// The data words that carry a sector: byte pairs read little-endian.
pub fn block_to_words(buf: &[u8; BLOCK_SIZE]) -> (words: [u16; 256])
    ensures
        forall|i: int| 0 <= i < 256 ==> #[trigger] words@[i] == buf@[2 * i] + 256 * buf@[2 * i + 1],
{
    let mut words = [0u16; 256];
    let mut i: usize = 0;
    while i < BLOCK_SIZE / 2
        invariant
            0 <= i <= 256,
            forall|k: int| 0 <= k < i ==> #[trigger] words@[k] == buf@[2 * k] + 256 * buf@[2 * k + 1],
        decreases 256 - i,
    {
        words[i] = buf[i * 2] as u16 + (buf[i * 2 + 1] as u16) * 256;
        i = i + 1;
    }
    words
}

/// Packing a sector into words and back gives the sector.
pub proof fn law_words_round_trip(buf: Seq<u8>, words: Seq<u16>, back: Seq<u8>)
    requires
        buf.len() == 512,
        words.len() == 256,
        back.len() == 512,
        forall|i: int| 0 <= i < 256 ==> #[trigger] words[i] == buf[2 * i] + 256 * buf[2 * i + 1],
        forall|i: int| 0 <= i < 256 ==> #[trigger] back[2 * i] == words[i] % 256 && back[2 * i + 1] == words[i] / 256,
    ensures
        back == buf,
{
    assert forall|j: int| 0 <= j < 512 implies back[j] == buf[j] by {
        let i = j / 2;
        assert(words[i] == buf[2 * i] + 256 * buf[2 * i + 1]);
        assert(back[2 * i] == words[i] % 256 && back[2 * i + 1] == words[i] / 256);
    }
    assert(back =~= buf);
}

} // verus!
