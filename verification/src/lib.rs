//! SimpleFS, a small flat filesystem over fixed-size blocks, with the
//! timer arithmetic and device helpers of the MasterOS kernel around it.

pub mod block_device;
pub mod bytes;
pub mod layout;
pub mod bits;
pub mod image;
pub mod fs;
pub mod pit;
pub mod time;
pub mod ata;
pub mod shell;
