use crate::util::inode::{
    inode_type_to_windows, spec_attributes_for_bits, InodeFileType, FILE_ATTRIBUTE_DIRECTORY,
    FILE_ATTRIBUTE_NORMAL,
};
use crate::util::u32::{spec_windows_time, U32Ext, EPOCH_DIFFERENCE_SECS, TICKS_PER_SECOND};
use vstd::prelude::*;

verus! {

/// The name the volume reports as its file system, and its label.
pub open spec fn volume_name() -> Seq<char> {
    seq!['N', 'T', 'F', 'S']
}

/// The parameters the volume is created with.
pub struct VolumeSettings {
    pub sector_size: u16,
    pub sectors_per_allocation_unit: u16,
    pub max_component_length: u16,
    pub filesystem_name: String,
    pub volume_creation_time: u64,
    pub volume_serial_number: u32,
    pub read_only_volume: bool,
    pub case_sensitive_search: bool,
    pub case_preserved_names: bool,
    pub unicode_on_disk: bool,
    pub persistent_acls: bool,
}

/// A Unix time in seconds as a Windows FILETIME.
pub open spec fn spec_filetime_of_unix(secs: int) -> int {
    (secs + EPOCH_DIFFERENCE_SECS) * TICKS_PER_SECOND
}

/// The volume parameters for a volume created at Unix time `now_secs`: 512-byte
/// sectors, 8 sectors per allocation unit, components of at most 255 characters,
/// named NTFS, serial number 0x6f910e5b, writable, case-insensitive search,
/// case-preserving, Unicode names and persistent ACLs.
pub fn volume_settings(now_secs: u64) -> (v: VolumeSettings)
    requires
        spec_filetime_of_unix(now_secs as int) <= u64::MAX,
    ensures
        v.sector_size == 512,
        v.sectors_per_allocation_unit == 8,
        v.max_component_length == 255,
        v.filesystem_name@ == volume_name(),
        v.volume_creation_time == spec_filetime_of_unix(now_secs as int),
        v.volume_serial_number == 0x6f910e5b,
        !v.read_only_volume,
        !v.case_sensitive_search,
        v.case_preserved_names,
        v.unicode_on_disk,
        v.persistent_acls,
{
    let name = "NTFS";
    proof {
        reveal_strlit("NTFS");
    }
    VolumeSettings {
        sector_size: 512,
        sectors_per_allocation_unit: 8,
        max_component_length: 255,
        filesystem_name: name.to_owned(),
        volume_creation_time: (now_secs + EPOCH_DIFFERENCE_SECS) * TICKS_PER_SECOND,
        volume_serial_number: 0x6f910e5b,
        read_only_volume: false,
        case_sensitive_search: false,
        case_preserved_names: true,
        unicode_on_disk: true,
        persistent_acls: true,
    }
}

/// The fields of an ext4 inode that the file system reports.
pub struct InodeStat {
    pub file_type: InodeFileType,
    pub size: u64,
    pub crtime: u32,
    pub atime: u32,
    pub mtime: u32,
    pub ctime: u32,
}

/// What the file system reports of a file to Windows.
pub struct FileInfoModel {
    pub file_attributes: u32,
    pub reparse_tag: u32,
    pub file_size: u64,
    pub allocation_size: u64,
    pub creation_time: u64,
    pub last_access_time: u64,
    pub last_write_time: u64,
    pub change_time: u64,
}

/// The size rounded up to whole 4096-byte allocation units.
pub open spec fn spec_allocation_size(size: int) -> int {
    ((size + 4095) / 4096) * 4096
}

/// The attributes and times of a file as Windows sees them, with the given sizes.
pub open spec fn info_matches(info: FileInfoModel, stat: InodeStat, file_size: int, allocation_size: int) -> bool {
    &&& info.file_attributes == spec_attributes_for_bits(stat.file_type@)
    &&& info.reparse_tag == 0
    &&& info.file_size == file_size
    &&& info.allocation_size == allocation_size
    &&& info.creation_time == spec_windows_time(stat.crtime)
    &&& info.last_access_time == spec_windows_time(stat.atime)
    &&& info.last_write_time == spec_windows_time(stat.mtime)
    &&& info.change_time == spec_windows_time(stat.ctime)
}

/// File information for an inode: its type as attributes, its size, the size
/// rounded up to 4096-byte units as allocation, and its four times.
pub fn file_info(stat: &InodeStat) -> (info: FileInfoModel)
    requires
        stat.size + 4095 <= u64::MAX,
    ensures
        info_matches(info, *stat, stat.size as int, spec_allocation_size(stat.size as int)),
        info.allocation_size >= info.file_size,
        info.allocation_size < info.file_size + 4096,
        info.allocation_size % 4096 == 0,
{
    let allocation_size = ((stat.size + 4095) / 4096) * 4096;
    proof {
        let s = stat.size as int;
        assert(((s + 4095) / 4096) * 4096 >= s && ((s + 4095) / 4096) * 4096 < s + 4096
            && (((s + 4095) / 4096) * 4096) % 4096 == 0) by (nonlinear_arith)
            requires
                s >= 0,
        ;
    }
    FileInfoModel {
        file_attributes: inode_type_to_windows(stat.file_type),
        reparse_tag: 0,
        file_size: stat.size,
        allocation_size,
        creation_time: stat.crtime.to_windows_time(),
        last_access_time: stat.atime.to_windows_time(),
        last_write_time: stat.mtime.to_windows_time(),
        change_time: stat.ctime.to_windows_time(),
    }
}

/// File information reported when a file is opened: type and times of the
/// inode, with size and allocation size 0.
pub fn opened_file_info(stat: &InodeStat) -> (info: FileInfoModel)
    ensures
        info_matches(info, *stat, 0, 0),
{
    FileInfoModel {
        file_attributes: inode_type_to_windows(stat.file_type),
        reparse_tag: 0,
        file_size: 0,
        allocation_size: 0,
        creation_time: stat.crtime.to_windows_time(),
        last_access_time: stat.atime.to_windows_time(),
        last_write_time: stat.mtime.to_windows_time(),
        change_time: stat.ctime.to_windows_time(),
    }
}

/// What the file system reports of the volume.
pub struct VolumeInfoModel {
    pub total_size: u64,
    pub free_size: u64,
    pub volume_label: String,
}

/// Volume sizes in bytes from the block counts of the super block, labelled NTFS.
pub fn volume_info(blocks_count: u32, free_blocks: u64, block_size: u32) -> (v: VolumeInfoModel)
    requires
        free_blocks * block_size <= u64::MAX,
    ensures
        v.total_size == blocks_count * block_size,
        v.free_size == free_blocks * block_size,
        v.volume_label@ == volume_name(),
{
    let total_blocks = blocks_count as u64;
    let size = block_size as u64;
    assert(total_blocks * size <= u64::MAX) by (nonlinear_arith)
        requires
            total_blocks <= u32::MAX,
            size <= u32::MAX,
    ;
    let label = "NTFS";
    proof {
        reveal_strlit("NTFS");
    }
    VolumeInfoModel { total_size: total_blocks * size, free_size: free_blocks * size, volume_label: label.to_owned() }
}

/// Where the attributes of a directory entry come from, by its `de_type`.
#[derive(Debug, Clone, Copy, PartialEq, Eq, Structural)]
pub enum EntryAttributes {
    /// Unknown type: the attributes come from the entry's inode.
    FromInode,
    /// The attributes that the type stands for.
    Known(u32),
    /// A type that the file system does not handle.
    Unsupported,
}

/// The attributes for a directory entry type: unknown (0) goes to the inode,
/// regular file (1) and symbolic link (7) are normal files, directory (2) is a
/// directory; other types are not handled.
pub fn entry_attributes(de_type: u8) -> (a: EntryAttributes)
    ensures
        a == match de_type {
            0 => EntryAttributes::FromInode,
            1 | 7 => EntryAttributes::Known(FILE_ATTRIBUTE_NORMAL),
            2 => EntryAttributes::Known(FILE_ATTRIBUTE_DIRECTORY),
            _ => EntryAttributes::Unsupported,
        },
{
    match de_type {
        0 => EntryAttributes::FromInode,
        1 | 7 => EntryAttributes::Known(FILE_ATTRIBUTE_NORMAL),
        2 => EntryAttributes::Known(FILE_ATTRIBUTE_DIRECTORY),
        _ => EntryAttributes::Unsupported,
    }
}

/// Copies the bytes that were read into the caller's buffer, which must be
/// exactly as long, and returns their number as a `u32` (truncated as `as` does).
pub fn store_read(buffer: &mut [u8], data: &[u8]) -> (n: u32)
    requires
        old(buffer)@.len() == data@.len(),
    ensures
        final(buffer)@ == data@,
        n == data@.len() as u32,
{
    let mut i: usize = 0;
    while i < data.len()
        invariant
            i <= data.len(),
            buffer@.len() == data@.len(),
            forall|j: int| 0 <= j < i ==> buffer@[j] == data@[j],
        decreases data.len() - i,
    {
        buffer[i] = data[i];
        i = i + 1;
    }
    proof {
        assert(buffer@ == data@);
    }
    data.len() as u32
}

/// The Unix epoch is FILETIME 116444736000000000, and each later second adds
/// exactly 10^7 ticks.
pub proof fn lemma_filetime_of_unix(secs: int)
    ensures
        spec_filetime_of_unix(0) == 116_444_736_000_000_000,
        spec_filetime_of_unix(secs + 1) - spec_filetime_of_unix(secs) == 10_000_000,
        spec_filetime_of_unix(secs) == 116_444_736_000_000_000 + secs * 10_000_000,
{
}

/// The volume's creation time and a file's times use the same conversion.
pub proof fn lemma_filetime_agrees(secs: u32)
    ensures
        spec_filetime_of_unix(secs as int) == spec_windows_time(secs),
{
}

/// The allocation size is the smallest multiple of 4096 that holds the file.
pub proof fn lemma_allocation_size(size: int)
    requires
        size >= 0,
    ensures
        spec_allocation_size(size) % 4096 == 0,
        size <= spec_allocation_size(size) < size + 4096,
{
    assert(((size + 4095) / 4096) * 4096 >= size && ((size + 4095) / 4096) * 4096 < size + 4096
        && (((size + 4095) / 4096) * 4096) % 4096 == 0) by (nonlinear_arith)
        requires
            size >= 0,
    ;
}

} // verus!
