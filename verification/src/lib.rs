//! Verified core of a WinFsp driver that serves an ext4 volume to Windows:
//! path normalisation, inode type and time conversions, super block parsing,
//! sector-aligned block reads and the decisions of the file system callbacks.

pub mod disk;
pub mod fs;
pub mod util;
