# winext

The verified core of a WinFsp driver that serves an ext4 partition (or image)
to Windows as a drive.

- `src/util/` — conversions between the two worlds: Windows file names to ext4
  paths (`u16cstr`), ext4 inode types to Windows file attributes and back
  (`inode`), ext4 timestamps to Windows file times (`u32`).
- `src/disk.rs` — the ext4 super block fields the device needs, the device's
  sector layout, and the sector-aligned read of one block.
- `src/fs/` — the decisions of the file system callbacks: volume parameters,
  file and volume information, the order and resumption of directory listings,
  and the open-file record.
- `app/` — the Windows side: the raw device (Win32 file API), the WinFsp host and
  its callbacks over `ext4_rs`, and `main`.
