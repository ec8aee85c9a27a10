use vstd::prelude::*;

verus! {

/// Sector size that reads from the device are aligned to.
pub const SECTOR_SIZE: usize = 512;

/// Sector size assumed for a device that reports no geometry (an image file).
pub const DEFAULT_SECTOR_SIZE: u32 = 512;

/// The unsigned little-endian integer in the four bytes of `b` from `at` on.
pub open spec fn le_u32_at(b: Seq<u8>, at: int) -> int {
    b[at] + 256 * b[at + 1] + 65536 * b[at + 2] + 16777216 * b[at + 3]
}

/// The four bytes of `x` in little-endian order (what `u32::to_le_bytes` gives).
pub open spec fn u32_le_bytes(x: u32) -> Seq<u8> {
    seq![
        (x % 256) as u8,
        ((x / 256) % 256) as u8,
        ((x / 65536) % 256) as u8,
        (x / 16777216) as u8,
    ]
}

/// At any offset, `le_u32_at` reads just the four bytes there.
pub proof fn lemma_le_u32_at_offset(b: Seq<u8>, at: int)
    requires
        0 <= at,
        at + 4 <= b.len(),
    ensures
        le_u32_at(b, at) == le_u32_at(b.subrange(at, at + 4), 0),
{
    let c = b.subrange(at, at + 4);
    assert(c[0] == b[at] && c[1] == b[at + 1] && c[2] == b[at + 2] && c[3] == b[at + 3]);
}

/// `le_u32_at` reads back what `u32_le_bytes` writes, and every four bytes are the
/// little-endian bytes of what it reads: it is `u32::from_le_bytes`.
pub proof fn lemma_le_u32_is_from_le_bytes(x: u32, b: Seq<u8>)
    ensures
        le_u32_at(u32_le_bytes(x), 0) == x,
        b.len() == 4 ==> 0 <= le_u32_at(b, 0) <= u32::MAX && u32_le_bytes(le_u32_at(b, 0) as u32) == b,
{
    let e = u32_le_bytes(x);
    assert(e[0] == x % 256 && e[1] == (x / 256) % 256 && e[2] == (x / 65536) % 256 && e[3] == x / 16777216);
    if b.len() == 4 {
        let v = le_u32_at(b, 0);
        assert(0 <= v <= u32::MAX);
        let y = v as u32;
        assert(y as int == v);
        let f = u32_le_bytes(y);
        assert(f[0] == b[0] && f[1] == b[1] && f[2] == b[2] && f[3] == b[3]);
        assert(f =~= b);
    }
}

/// Byte offset of `s_blocks_count_lo` within the ext4 super block.
pub const BLOCKS_COUNT_OFFSET: usize = 4;

/// Byte offset of `s_log_block_size` within the ext4 super block.
pub const LOG_BLOCK_SIZE_OFFSET: usize = 24;

/// The fields of the ext4 super block that the device needs.
#[derive(Debug)]
pub struct DiskSuperBlock {
    pub block_size: u32,
    pub block_count: u32,
}

/// The little-endian `u32` in `buf[at..at + 4]`.
fn read_le_u32(buf: &[u8], at: usize) -> (x: u32)
    requires
        at + 4 <= buf.len(),
    ensures
        x == le_u32_at(buf@, at as int),
{
    let b0 = buf[at] as u32;
    let b1 = buf[at + 1] as u32;
    let b2 = buf[at + 2] as u32;
    let b3 = buf[at + 3] as u32;
    assert(b0 + 256 * b1 + 65536 * b2 + 16777216 * b3 <= u32::MAX) by (nonlinear_arith)
        requires
            b0 < 256,
            b1 < 256,
            b2 < 256,
            b3 < 256,
    ;
    b0 + 256 * b1 + 65536 * b2 + 16777216 * b3
}

impl DiskSuperBlock {
    /// Block size and block count from the bytes of an ext4 super block (the
    /// 1024 bytes at offset 1024 of the device): the block size is 1024 shifted
    /// left by `s_log_block_size`, the count is `s_blocks_count_lo`.
    pub fn parse(buf: &[u8]) -> (sb: DiskSuperBlock)
        requires
            LOG_BLOCK_SIZE_OFFSET + 4 <= buf.len(),
            le_u32_at(buf@, LOG_BLOCK_SIZE_OFFSET as int) < 32,
        ensures
            sb.block_count == le_u32_at(buf@, BLOCKS_COUNT_OFFSET as int),
            u32_le_bytes(sb.block_count) == buf@.subrange(BLOCKS_COUNT_OFFSET as int, BLOCKS_COUNT_OFFSET + 4),
            sb.block_size == 1024u32 << (le_u32_at(buf@, LOG_BLOCK_SIZE_OFFSET as int) as u32),
    {
        let log = read_le_u32(buf, LOG_BLOCK_SIZE_OFFSET);
        let count = read_le_u32(buf, BLOCKS_COUNT_OFFSET);
        proof {
            let b = buf@.subrange(BLOCKS_COUNT_OFFSET as int, BLOCKS_COUNT_OFFSET + 4);
            assert(le_u32_at(b, 0) == le_u32_at(buf@, BLOCKS_COUNT_OFFSET as int));
            lemma_le_u32_at_offset(buf@, BLOCKS_COUNT_OFFSET as int);
            lemma_le_u32_is_from_le_bytes(count, b);
        }
        DiskSuperBlock { block_size: 1024u32 << log, block_count: count }
    }
}

/// Sector size and number of whole sectors of a device.
#[derive(Debug, Clone, Copy, PartialEq, Eq, Structural)]
pub struct SectorLayout {
    pub sector_size: u32,
    pub sector_count: u64,
}

/// The sector layout of a device: the sector size that its geometry reports, or
/// 512 bytes where it reports none; the count is the size in bytes (read as an
/// unsigned number) divided by the sector size.
pub fn sector_layout(bytes_per_sector: Option<u32>, disk_size: i64) -> (l: SectorLayout)
    requires
        bytes_per_sector != Some(0u32),
    ensures
        l.sector_size == match bytes_per_sector {
            Some(b) => b,
            None => DEFAULT_SECTOR_SIZE,
        },
        l.sector_count == (disk_size as u64) / (l.sector_size as u64),
{
    let sector_size = match bytes_per_sector {
        Some(b) => b,
        None => DEFAULT_SECTOR_SIZE,
    };
    SectorLayout { sector_size, sector_count: disk_size as u64 / sector_size as u64 }
}

/// How one block at a byte offset is read with sector-aligned I/O: read
/// `read_size` bytes from `aligned_offset`, the block starts `delta` bytes in.
#[derive(Debug, Clone, Copy, PartialEq, Eq, Structural)]
pub struct BlockReadPlan {
    pub aligned_offset: usize,
    pub delta: usize,
    pub read_size: usize,
}

/// The sector-aligned read that covers `block_size` bytes at `offset`: the offset
/// rounded down to a sector, and the bytes up to the block's end rounded up to a
/// whole number of sectors.
pub fn plan_block_read(offset: usize, block_size: u32) -> (p: BlockReadPlan)
    requires
        (offset as int) % (SECTOR_SIZE as int) + block_size + SECTOR_SIZE - 1 <= usize::MAX,
    ensures
        p.aligned_offset == ((offset as int) / (SECTOR_SIZE as int)) * SECTOR_SIZE,
        p.delta == offset - p.aligned_offset,
        p.read_size == ((p.delta + block_size + SECTOR_SIZE - 1) as int / (SECTOR_SIZE as int)) * SECTOR_SIZE,
        // the read is aligned and covers the block
        (p.aligned_offset as int) % (SECTOR_SIZE as int) == 0,
        (p.read_size as int) % (SECTOR_SIZE as int) == 0,
        p.aligned_offset <= offset < p.aligned_offset + SECTOR_SIZE,
        p.delta + block_size <= p.read_size < p.delta + block_size + SECTOR_SIZE,
{
    let sector_size = SECTOR_SIZE;
    let aligned_offset = (offset / sector_size) * sector_size;
    let delta = offset - aligned_offset;
    proof {
        assert(delta as int == (offset as int) % 512) by (nonlinear_arith)
            requires
                aligned_offset as int == ((offset as int) / 512) * 512,
                delta == offset - aligned_offset,
        ;
        assert(aligned_offset % 512 == 0) by (nonlinear_arith)
            requires
                aligned_offset == (offset / 512) * 512,
        ;
    }
    let bs = block_size as usize;
    let need = delta + bs + (sector_size - 1);
    let read_size = (need / sector_size) * sector_size;
    proof {
        assert(read_size % 512 == 0 && need - 511 <= read_size <= need) by (nonlinear_arith)
            requires
                read_size == (need / 512) * 512,
        ;
    }
    BlockReadPlan { aligned_offset, delta, read_size }
}

/// The block in the sectors that were read: `block_size` bytes from `delta` on.
pub fn block_from_sectors(buf: &[u8], delta: usize, block_size: u32) -> (block: Vec<u8>)
    requires
        delta + block_size <= buf.len(),
    ensures
        block@ == buf@.subrange(delta as int, delta + block_size),
{
    let end = delta + block_size as usize;
    let mut block: Vec<u8> = Vec::new();
    let mut i = delta;
    while i < end
        invariant
            delta <= i <= end <= buf.len(),
            block@ == buf@.subrange(delta as int, i as int),
        decreases end - i,
    {
        block.push(buf[i]);
        proof {
            assert(buf@.subrange(delta as int, i + 1) == buf@.subrange(delta as int, i as int).push(buf@[i as int]));
        }
        i = i + 1;
    }
    block
}

/// Reading the planned sectors of a device and taking the block out of them gives
/// exactly the `block_size` bytes of the device at `offset`.
pub proof fn lemma_planned_read_gives_block(device: Seq<u8>, offset: usize, block_size: u32, p: BlockReadPlan)
    requires
        p.aligned_offset <= offset,
        p.delta == offset - p.aligned_offset,
        p.delta + block_size <= p.read_size,
        p.aligned_offset + p.read_size <= device.len(),
    ensures
        device.subrange(p.aligned_offset as int, p.aligned_offset + p.read_size).subrange(
            p.delta as int,
            p.delta + block_size,
        ) == device.subrange(offset as int, offset + block_size),
{
    let sectors = device.subrange(p.aligned_offset as int, p.aligned_offset + p.read_size);
    assert(sectors.subrange(p.delta as int, p.delta + block_size) =~= device.subrange(offset as int, offset + block_size));
}

} // verus!
