//! Anything that serves fixed-size block reads and writes.

use vstd::prelude::*;

verus! {

/// Size in bytes of one block.
pub const BLOCK_SIZE: usize = 512;

/// A device of numbered blocks of `BLOCK_SIZE` bytes.
///
/// The device's state is the sequence of its blocks. A read leaves it as it
/// was; a successful write replaces one block. What a failed write leaves
/// in the written block is up to the device.
///
/// An implementation states its model by overriding `contents` and
/// `well_formed`. One that does not is never known to be usable, so nothing
/// verified speaks of it. A device type whose reads and writes always
/// succeed says so by overriding `never_fails`.
pub trait BlockDevice {
    type Error: core::fmt::Debug;

    /// The blocks the device holds, in order; none unless the
    /// implementation says otherwise.
    open spec fn contents(&self) -> Seq<Seq<u8>> {
        Seq::empty()
    }

    /// The device is usable; never unless the implementation says
    /// otherwise.
    open spec fn well_formed(&self) -> bool {
        false
    }

    /// Every read and write of a device of this type succeeds; not so
    /// unless the implementation says otherwise.
    open spec fn never_fails() -> bool {
        false
    }

    /// The number of blocks; every block holds `BLOCK_SIZE` bytes.
    fn total_blocks(&self) -> (n: u32)
        requires
            self.well_formed(),
        ensures
            n as int == self.contents().len(),
            forall|k: int| 0 <= k < self.contents().len() ==> (#[trigger] self.contents()[k]).len() == BLOCK_SIZE,
    ;

    fn read_block(&mut self, block: u32, buf: &mut [u8; BLOCK_SIZE]) -> (r: Result<(), Self::Error>)
        requires
            old(self).well_formed(),
            block < old(self).contents().len(),
        ensures
            final(self).well_formed(),
            final(self).contents() == old(self).contents(),
            r is Ok ==> final(buf)@ == old(self).contents()[block as int],
            Self::never_fails() ==> r is Ok,
    ;

    fn write_block(&mut self, block: u32, buf: &[u8; BLOCK_SIZE]) -> (r: Result<(), Self::Error>)
        requires
            old(self).well_formed(),
            block < old(self).contents().len(),
        ensures
            final(self).well_formed(),
            final(self).contents().len() == old(self).contents().len(),
            r is Ok ==> final(self).contents() == old(self).contents().update(block as int, buf@),
            Self::never_fails() ==> r is Ok,
    ;
}

} // verus!
