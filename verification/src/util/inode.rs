use vstd::prelude::*;

verus! {

/// `FILE_ATTRIBUTE_DIRECTORY` of the Windows API.
pub const FILE_ATTRIBUTE_DIRECTORY: u32 = 0x10;

/// `FILE_ATTRIBUTE_NORMAL` of the Windows API.
pub const FILE_ATTRIBUTE_NORMAL: u32 = 0x80;

/// The file type field of an ext4 inode mode: the `S_IF*` bits of the
/// `InodeFileType` flags of `ext4_rs`, held as their raw value.
#[derive(Clone, Copy, Debug, PartialEq, Eq, Structural)]
pub struct InodeFileType {
    bits: u16,
}

impl View for InodeFileType {
    type V = u16;

    closed spec fn view(&self) -> u16 {
        self.bits
    }
}

/// FIFO.
pub const S_IFIFO: u16 = 0x1000;
/// Character device.
pub const S_IFCHR: u16 = 0x2000;
/// Directory.
pub const S_IFDIR: u16 = 0x4000;
/// Block device.
pub const S_IFBLK: u16 = 0x6000;
/// Regular file.
pub const S_IFREG: u16 = 0x8000;
/// Socket.
pub const S_IFSOCK: u16 = 0xC000;
/// Symbolic link.
pub const S_IFLNK: u16 = 0xA000;

impl InodeFileType {
    /// The type with exactly these bits.
    pub fn from_bits_retain(bits: u16) -> (t: InodeFileType)
        ensures
            t@ == bits,
    {
        InodeFileType { bits }
    }

    /// The raw bits of the type.
    pub fn bits(&self) -> (b: u16)
        ensures
            b == self@,
    {
        self.bits
    }
}

/// The Windows attributes of an inode with these file type bits: a directory
/// when the `S_IFDIR` bit is set, a normal file otherwise.
pub open spec fn spec_attributes_for_bits(bits: u16) -> u32 {
    if bits & S_IFDIR != 0 {
        FILE_ATTRIBUTE_DIRECTORY
    } else {
        FILE_ATTRIBUTE_NORMAL
    }
}

/// Whether Windows attributes ask for a directory.
pub open spec fn spec_requests_directory(attr: u32) -> bool {
    attr & FILE_ATTRIBUTE_DIRECTORY != 0
}

/// The inode file type that Windows attributes ask for.
pub open spec fn spec_type_for_attributes(attr: u32) -> u16 {
    if spec_requests_directory(attr) {
        S_IFDIR
    } else {
        S_IFREG
    }
}

/// Windows file attributes for an ext4 inode file type.
pub fn inode_type_to_windows(file_type: InodeFileType) -> (attr: u32)
    ensures
        attr == spec_attributes_for_bits(file_type@),
{
    let bits = file_type.bits();
    if bits & 0x4000 != 0 {
        // S_IFDIR
        FILE_ATTRIBUTE_DIRECTORY
    } else if bits & 0x8000 != 0 {
        // S_IFREG
        FILE_ATTRIBUTE_NORMAL
    } else if bits & 0x2000 != 0 {
        // S_IFCHR
        FILE_ATTRIBUTE_NORMAL
    } else {
        FILE_ATTRIBUTE_NORMAL
    }
}

/// Whether Windows attributes ask for a directory.
pub fn requests_directory(attr: u32) -> (dir: bool)
    ensures
        dir == spec_requests_directory(attr),
{
    attr & FILE_ATTRIBUTE_DIRECTORY != 0
}

/// The ext4 inode file type for Windows file attributes: a directory when the
/// directory attribute is set, a regular file otherwise.
pub fn windows_to_inode_type(attr: u32) -> (t: InodeFileType)
    ensures
        t@ == spec_type_for_attributes(attr),
{
    if requests_directory(attr) {
        InodeFileType::from_bits_retain(S_IFDIR)
    } else {
        InodeFileType::from_bits_retain(S_IFREG)
    }
}

/// Going from Windows attributes to an inode type and back keeps exactly whether
/// the entry is a directory.
pub proof fn lemma_attributes_round_trip(attr: u32)
    ensures
        spec_attributes_for_bits(spec_type_for_attributes(attr)) == if spec_requests_directory(attr) {
            FILE_ATTRIBUTE_DIRECTORY
        } else {
            FILE_ATTRIBUTE_NORMAL
        },
{
    assert(0x4000u16 & 0x4000u16 != 0) by (bit_vector);
    assert(0x8000u16 & 0x4000u16 == 0) by (bit_vector);
}

/// Going from an inode type to Windows attributes and back keeps exactly whether
/// the inode is a directory.
pub proof fn lemma_type_round_trip(bits: u16)
    ensures
        spec_type_for_attributes(spec_attributes_for_bits(bits)) == if bits & 0x4000 != 0 {
            0x4000u16
        } else {
            0x8000u16
        },
{
    assert(0x10u32 & 0x10u32 != 0) by (bit_vector);
    assert(0x80u32 & 0x10u32 == 0) by (bit_vector);
}

/// A create asks for a directory exactly when the directory bit 0x10 is set, so
/// the decision depends on that bit alone: attributes without it (such as hidden
/// or archive) ask for a regular file.
pub proof fn lemma_requests_directory_bit(attr: u32)
    ensures
        spec_requests_directory(attr) <==> (attr & 0x10u32) == 0x10u32,
        spec_requests_directory(attr) == spec_requests_directory(attr & 0x10u32),
        spec_requests_directory(0x10u32),
        !spec_requests_directory(0u32),
        spec_type_for_attributes(attr) == (if (attr & 0x10u32) == 0x10u32 { 0x4000u16 } else { 0x8000u16 }),
{
    assert((attr & 0x10u32 != 0) <==> ((attr & 0x10u32) == 0x10u32)) by (bit_vector);
    assert(((attr & 0x10u32) & 0x10u32) == (attr & 0x10u32)) by (bit_vector);
    assert(0x10u32 & 0x10u32 == 0x10u32) by (bit_vector);
    assert(0u32 & 0x10u32 == 0u32) by (bit_vector);
}

/// An inode is reported as a directory (0x10) exactly when its 0x4000 type bit
/// is set, and as a normal file (0x80) otherwise; no other bit matters.
pub proof fn lemma_attributes_for_bits(bits: u16)
    ensures
        spec_attributes_for_bits(bits) == (if (bits & 0x4000u16) == 0x4000u16 { 0x10u32 } else { 0x80u32 }),
        spec_attributes_for_bits(bits) == spec_attributes_for_bits(bits & 0x4000u16),
{
    assert((bits & 0x4000u16 != 0) <==> ((bits & 0x4000u16) == 0x4000u16)) by (bit_vector);
    assert(((bits & 0x4000u16) & 0x4000u16) == (bits & 0x4000u16)) by (bit_vector);
}

} // verus!
