use winext::disk::{block_from_sectors, plan_block_read, sector_layout, DiskSuperBlock};

fn super_block_bytes(log: u32, count: u32) -> Vec<u8> {
    let mut buf = vec![0u8; 1024];
    buf[4..8].copy_from_slice(&count.to_le_bytes());
    buf[24..28].copy_from_slice(&log.to_le_bytes());
    buf
}

#[test]
fn parse_super_block_of_4k_blocks() {
    let sb = DiskSuperBlock::parse(&super_block_bytes(2, 262_144));
    assert_eq!(sb.block_size, 4096);
    assert_eq!(sb.block_count, 262_144);
}

#[test]
fn parse_super_block_of_1k_blocks() {
    let sb = DiskSuperBlock::parse(&super_block_bytes(0, 0x1234_5678));
    assert_eq!(sb.block_size, 1024);
    assert_eq!(sb.block_count, 0x1234_5678);
}

#[test]
fn parse_super_block_with_shift_past_u32() {
    let sb = DiskSuperBlock::parse(&super_block_bytes(22, 1));
    assert_eq!(sb.block_size, 0);
    let sb = DiskSuperBlock::parse(&super_block_bytes(21, 1));
    assert_eq!(sb.block_size, 1u32 << 31);
}

#[test]
fn sector_layout_of_a_disk() {
    let l = sector_layout(Some(4096), 1_000_000);
    assert_eq!(l.sector_size, 4096);
    assert_eq!(l.sector_count, 244);
}

#[test]
fn sector_layout_of_an_image() {
    let l = sector_layout(None, 1_048_576);
    assert_eq!(l.sector_size, 512);
    assert_eq!(l.sector_count, 2048);
}

#[test]
fn sector_layout_of_a_negative_size() {
    let l = sector_layout(None, -1);
    assert_eq!(l.sector_count, u64::MAX / 512);
}

#[test]
fn plan_aligned_read() {
    let p = plan_block_read(4096, 4096);
    assert_eq!(p.aligned_offset, 4096);
    assert_eq!(p.delta, 0);
    assert_eq!(p.read_size, 4096);
}

#[test]
fn plan_unaligned_read() {
    let p = plan_block_read(1000, 4096);
    assert_eq!(p.aligned_offset, 512);
    assert_eq!(p.delta, 488);
    assert_eq!(p.read_size, 4608);
}

#[test]
fn plan_read_at_zero_of_1k_block() {
    let p = plan_block_read(0, 1024);
    assert_eq!(p.aligned_offset, 0);
    assert_eq!(p.delta, 0);
    assert_eq!(p.read_size, 1024);
}

#[test]
fn planned_read_returns_the_block() {
    let device: Vec<u8> = (0..20_000u32).map(|i| (i % 251) as u8).collect();
    for (offset, block) in [(1000usize, 4096u32), (0, 1024), (513, 1024), (4095, 2048)] {
        let p = plan_block_read(offset, block);
        let sectors = &device[p.aligned_offset..p.aligned_offset + p.read_size];
        let got = block_from_sectors(sectors, p.delta, block);
        assert_eq!(got, device[offset..offset + block as usize].to_vec());
    }
}

#[test]
fn block_from_sectors_takes_the_range() {
    let buf = [1u8, 2, 3, 4, 5, 6];
    assert_eq!(block_from_sectors(&buf, 2, 3), vec![3, 4, 5]);
    assert_eq!(block_from_sectors(&buf, 6, 0), Vec::<u8>::new());
}
