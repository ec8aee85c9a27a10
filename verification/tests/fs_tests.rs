use ext4_lwext4::OpenFlags;
use winext::fs::file::WinExtFile;
use winext::fs::listing::{
    directory_listing, listing_start, sort_entries, visible_from, DirEntryModel, DirectoryFill,
    FillOutcome,
};
use winext::fs::system::{
    entry_attributes, file_info, opened_file_info, store_read, volume_info, volume_settings,
    EntryAttributes, InodeStat,
};
use winext::util::inode::{InodeFileType, S_IFDIR, S_IFREG};

fn entry(name: &str, inode: u32, de_type: u8) -> DirEntryModel {
    DirEntryModel { name: name.to_string(), inode, de_type }
}

fn names(v: &[DirEntryModel]) -> Vec<String> {
    v.iter().map(|e| e.name.clone()).collect()
}

fn stat(bits: u16, size: u64) -> InodeStat {
    InodeStat { file_type: InodeFileType::from_bits_retain(bits), size, crtime: 1, atime: 2, mtime: 3, ctime: 4 }
}

#[test]
fn new_file_keeps_path_and_flags() {
    let f = WinExtFile::new("/a/b", OpenFlags::READ | OpenFlags::WRITE);
    assert_eq!(f.path, "/a/b");
    assert_eq!(f.flags, OpenFlags::READ | OpenFlags::WRITE);
}

#[test]
fn volume_settings_at_epoch() {
    let v = volume_settings(0);
    assert_eq!(v.volume_creation_time, 116_444_736_000_000_000);
    assert_eq!(v.sector_size, 512);
    assert_eq!(v.sectors_per_allocation_unit, 8);
    assert_eq!(v.max_component_length, 255);
    assert_eq!(v.filesystem_name, "NTFS");
    assert_eq!(v.volume_serial_number, 0x6f910e5b);
    assert!(!v.read_only_volume);
    assert!(!v.case_sensitive_search);
    assert!(v.case_preserved_names);
    assert!(v.unicode_on_disk);
    assert!(v.persistent_acls);
}

#[test]
fn volume_settings_at_a_later_time() {
    let v = volume_settings(1_700_000_000);
    assert_eq!(v.volume_creation_time, (1_700_000_000u64 + 11_644_473_600) * 10_000_000);
}

#[test]
fn file_info_of_a_regular_file() {
    let i = file_info(&stat(S_IFREG, 5000));
    assert_eq!(i.file_attributes, 0x80);
    assert_eq!(i.reparse_tag, 0);
    assert_eq!(i.file_size, 5000);
    assert_eq!(i.allocation_size, 8192);
    assert_eq!(i.creation_time, 116_444_736_010_000_000);
    assert_eq!(i.last_access_time, 116_444_736_020_000_000);
    assert_eq!(i.last_write_time, 116_444_736_030_000_000);
    assert_eq!(i.change_time, 116_444_736_040_000_000);
}

#[test]
fn file_info_allocation_rounding() {
    assert_eq!(file_info(&stat(S_IFREG, 0)).allocation_size, 0);
    assert_eq!(file_info(&stat(S_IFREG, 1)).allocation_size, 4096);
    assert_eq!(file_info(&stat(S_IFREG, 4096)).allocation_size, 4096);
    assert_eq!(file_info(&stat(S_IFREG, 4097)).allocation_size, 8192);
    assert_eq!(file_info(&stat(S_IFDIR, 4096)).file_attributes, 0x10);
}

#[test]
fn opened_file_info_reports_no_size() {
    let i = opened_file_info(&stat(S_IFDIR, 123_456));
    assert_eq!(i.file_attributes, 0x10);
    assert_eq!(i.file_size, 0);
    assert_eq!(i.allocation_size, 0);
    assert_eq!(i.change_time, 116_444_736_040_000_000);
}

#[test]
fn volume_info_in_bytes() {
    let v = volume_info(262_144, 100_000, 4096);
    assert_eq!(v.total_size, 1_073_741_824);
    assert_eq!(v.free_size, 409_600_000);
    assert_eq!(v.volume_label, "NTFS");
}

#[test]
fn entry_types_to_attributes() {
    assert_eq!(entry_attributes(0), EntryAttributes::FromInode);
    assert_eq!(entry_attributes(1), EntryAttributes::Known(0x80));
    assert_eq!(entry_attributes(7), EntryAttributes::Known(0x80));
    assert_eq!(entry_attributes(2), EntryAttributes::Known(0x10));
    assert_eq!(entry_attributes(3), EntryAttributes::Unsupported);
    assert_eq!(entry_attributes(255), EntryAttributes::Unsupported);
}

#[test]
fn store_read_copies_and_counts() {
    let mut buf = [0u8; 4];
    assert_eq!(store_read(&mut buf, &[9, 8, 7, 6]), 4);
    assert_eq!(buf, [9, 8, 7, 6]);
    let mut empty: [u8; 0] = [];
    assert_eq!(store_read(&mut empty, &[]), 0);
}

#[test]
fn sort_orders_by_name() {
    let sorted = sort_entries(vec![entry("b", 1, 1), entry("a", 2, 1), entry("B", 3, 1), entry("ab", 4, 2), entry("é", 5, 1)]);
    assert_eq!(names(&sorted), vec!["B", "a", "ab", "b", "é"]);
}

#[test]
fn sort_keeps_equal_names_in_order() {
    let sorted = sort_entries(vec![entry("x", 1, 1), entry("a", 2, 1), entry("x", 3, 1)]);
    let inodes: Vec<u32> = sorted.iter().map(|e| e.inode).collect();
    assert_eq!(inodes, vec![2, 1, 3]);
}

#[test]
fn listing_start_after_marker() {
    let entries = vec![entry(".", 2, 2), entry("..", 2, 2), entry("a", 3, 1), entry("b", 4, 1)];
    assert_eq!(listing_start(&entries, &None), 0);
    assert_eq!(listing_start(&entries, &Some("a".to_string())), 3);
    assert_eq!(listing_start(&entries, &Some("b".to_string())), 4);
    assert_eq!(listing_start(&entries, &Some("zz".to_string())), 0);
}

#[test]
fn visible_from_drops_dot_entries() {
    let entries = vec![entry(".", 2, 2), entry("..", 2, 2), entry("a", 3, 1), entry(".hidden", 5, 1), entry("b", 4, 1)];
    assert_eq!(names(&visible_from(entries, 0)), vec!["a", ".hidden", "b"]);
}

#[test]
fn directory_listing_without_marker() {
    let entries = vec![entry("zeta", 12, 1), entry(".", 2, 2), entry("alpha", 11, 2), entry("..", 2, 2)];
    let listed = directory_listing(entries, &None);
    assert_eq!(names(&listed), vec!["alpha", "zeta"]);
    assert_eq!(listed[0].de_type, 2);
    assert_eq!(listed[1].inode, 12);
}

#[test]
fn directory_listing_resumes_after_marker() {
    let entries = vec![entry("c", 13, 1), entry("a", 11, 1), entry("..", 2, 2), entry("b", 12, 1), entry(".", 2, 2)];
    assert_eq!(names(&directory_listing(entries, &Some("a".to_string()))), vec!["b", "c"]);
}

#[test]
fn directory_listing_with_unknown_marker_starts_over() {
    let entries = vec![entry("c", 13, 1), entry("a", 11, 1)];
    assert_eq!(names(&directory_listing(entries, &Some("q".to_string()))), vec!["a", "c"]);
}

#[test]
fn directory_listing_after_last_entry_is_empty() {
    let entries = vec![entry("c", 13, 1), entry("a", 11, 1)];
    assert!(directory_listing(entries, &Some("c".to_string())).is_empty());
}

#[test]
fn listing_after_marker_never_goes_back() {
    let entries = vec![entry("d", 4, 1), entry("b", 2, 1), entry("..", 1, 2), entry("a", 1, 1), entry("c", 3, 1), entry(".", 1, 2)];
    for marker in ["a", "b", "c", "d"] {
        let listed = directory_listing(
            vec![entry("d", 4, 1), entry("b", 2, 1), entry("..", 1, 2), entry("a", 1, 1), entry("c", 3, 1), entry(".", 1, 2)],
            &Some(marker.to_string()),
        );
        for e in &listed {
            assert!(e.name.as_str() > marker);
            assert!(e.name != "." && e.name != "..");
        }
    }
    assert_eq!(names(&directory_listing(entries, &Some("b".to_string()))), vec!["c", "d"]);
}

#[test]
fn sort_is_stable_for_equal_names() {
    let sorted = sort_entries(vec![entry("m", 1, 1), entry("m", 2, 1), entry("a", 3, 1), entry("m", 4, 1), entry("a", 5, 2)]);
    let inodes: Vec<u32> = sorted.iter().map(|e| e.inode).collect();
    assert_eq!(inodes, vec![3, 5, 1, 2, 4]);
}

#[test]
fn directory_fill_offers_entries_in_order() {
    let mut fill = DirectoryFill::new(vec![entry("a", 1, 1), entry("b", 2, 1), entry("c", 3, 1)]);
    assert_eq!(fill.next_index(), Some(0));
    assert_eq!(fill.entry(0).name, "a");
    fill.record(FillOutcome::Added);
    assert_eq!(fill.next_index(), Some(1));
    fill.record(FillOutcome::NameRejected);
    assert_eq!(fill.next_index(), Some(2));
    assert_eq!(fill.entry(2).inode, 3);
    fill.record(FillOutcome::Added);
    assert_eq!(fill.next_index(), None);
}

#[test]
fn directory_fill_stops_when_buffer_is_full() {
    let mut fill = DirectoryFill::new(vec![entry("a", 1, 1), entry("b", 2, 1)]);
    fill.record(FillOutcome::BufferFull);
    assert_eq!(fill.next_index(), None);
}

#[test]
fn directory_fill_of_empty_listing() {
    let fill = DirectoryFill::new(Vec::new());
    assert_eq!(fill.next_index(), None);
}
