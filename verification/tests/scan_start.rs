//! Disks, drives and the start of a scan.

use disk_ui::disk_info::{
    list_fixed_drive_letters, list_fixed_drives_with_labels, logical_drives, query_disk_info, to_upper, used_bytes,
    DiskInfo, VolumeNames,
};
use disk_ui::model::{Color, Node};
use disk_ui::scan::ScanMessage;
use disk_ui::scan_start::{
    as_drive_root, asks_compressed_size, drive_letter_of, fallback_entry, get_physical_size, next_step,
    query_cluster_size, reparse_tag_in, system_time_to_filetime, worker_count, CompressedSize, EntryMetadata, ScanEvent,
    ScanStep,
};
use disk_ui::wide::{encode, from_wide, wide};

fn utf16(s: &str) -> Vec<u16> {
    s.encode_utf16().collect()
}

fn names(label: &str, file_system: &str) -> VolumeNames {
    let mut label = utf16(label);
    label.resize(261, 0);
    let mut file_system = utf16(file_system);
    file_system.resize(261, 0);
    VolumeNames { label, file_system }
}

fn node(name: &str) -> Node {
    Node::new_folder(name.to_string(), Color { r: 0, g: 0, b: 0 }, Vec::new())
}

#[test]
fn disks_are_shown_by_label_and_letter() {
    let mut d = DiskInfo { drive_letter: 'C', volume_label: "System".to_string(), ..DiskInfo::default() };
    assert_eq!(d.display_name(), "System (C:)");
    assert_eq!(d.root_path(), "C:\\");
    d.volume_label = String::new();
    assert_eq!(d.display_name(), "本地磁盘 (C:)");
}

#[test]
fn a_disk_is_known_if_its_space_is() {
    let d = query_disk_info('D', Some((1000, 300)), Some(names("Daten", "NTFS"))).unwrap();
    assert_eq!((d.drive_letter, d.volume_label.as_str(), d.file_system.as_str()), ('D', "Daten", "NTFS"));
    assert_eq!((d.total_bytes, d.free_bytes, d.used_bytes), (1000, 300, 700));
    let d = query_disk_info('D', Some((1000, 300)), None).unwrap();
    assert_eq!((d.volume_label.as_str(), d.file_system.as_str()), ("", ""));
    assert!(query_disk_info('D', None, Some(names("x", "NTFS"))).is_none());
    assert_eq!(used_bytes(5, 9), 0);
    assert_eq!(used_bytes(9, 5) + 5, 9);
}

#[test]
fn drives_are_read_from_the_systems_list() {
    let mut list = utf16("C:\\\0D:\\\0x:\\\0\0");
    let len = list.len() as u32 - 1;
    list.resize(64, 0xFFFF);
    let drives = logical_drives(&list, len);
    assert_eq!(drives, ["C:\\", "D:\\", "x:\\"]);
    assert!(logical_drives(&list, 0).is_empty());
    assert!(logical_drives(&list, 64).is_empty());
    let kinds = vec![("x:\\".to_string(), 3u32), ("C:\\".to_string(), 3), ("D:\\".to_string(), 5)];
    assert_eq!(list_fixed_drive_letters(&kinds), ['X', 'C']);
}

#[test]
fn drives_have_labels_or_not() {
    let list = vec![('C', Some(names("System", "NTFS"))), ('D', None), ('E', Some(names("", "FAT32")))];
    let r = list_fixed_drives_with_labels(&list);
    assert_eq!(r, [('C', Some("System".to_string())), ('D', None), ('E', None)]);
}

#[test]
fn only_drive_roots_are_read_as_a_table() {
    assert_eq!(as_drive_root("c:\\"), Some('C'));
    assert_eq!(as_drive_root("D:/"), Some('D'));
    assert_eq!(as_drive_root("C:"), None);
    assert_eq!(as_drive_root("1:\\"), None);
    assert_eq!(as_drive_root("C:\\Users"), None);
    assert_eq!(as_drive_root("/home"), None);
    assert_eq!(drive_letter_of("d:\\x\\y"), Some('D'));
    assert_eq!(drive_letter_of("relative"), Some('R'));
    assert_eq!(drive_letter_of("/home"), None);
    assert_eq!(drive_letter_of(""), None);
    assert_eq!(to_upper('ä'), 'ä');
}

#[test]
fn an_administrator_reads_the_table_first() {
    assert!(matches!(next_step("C:\\", None, ScanEvent::Started(true)), ScanStep::ReadTable('C')));
    assert!(matches!(next_step("C:\\", None, ScanEvent::Started(false)), ScanStep::Walk));
    assert!(matches!(next_step("C:\\Users", None, ScanEvent::Started(true)), ScanStep::Walk));
    assert!(matches!(next_step("C:\\", None, ScanEvent::TableFailed), ScanStep::Walk));
}

fn done(step: ScanStep) -> (Node, Option<DiskInfo>) {
    match step {
        ScanStep::Report(ScanMessage::Done(n, d)) => (*n, d),
        _ => panic!("no tree was reported"),
    }
}

fn error(step: ScanStep) -> String {
    match step {
        ScanStep::Report(ScanMessage::Error(e)) => e,
        _ => panic!("no error was reported"),
    }
}

#[test]
fn trees_are_reported_with_their_disk() {
    let disk = DiskInfo { drive_letter: 'C', volume_label: "System".to_string(), ..DiskInfo::default() };
    let (n, d) = done(next_step("C:\\", Some(disk.clone()), ScanEvent::TableRead(node("C:\\"))));
    assert_eq!(n.name, "System (C:)");
    assert_eq!(d.unwrap().volume_label, "System");
    let (n, d) = done(next_step("C:\\Users", Some(disk), ScanEvent::Walked(node("C:\\Users"))));
    assert_eq!(n.name, "C:\\Users");
    assert!(d.is_some());
    let (n, d) = done(next_step("/home", None, ScanEvent::Walked(node("/home"))));
    assert_eq!(n.name, "/home");
    assert!(d.is_none());
}

#[test]
fn failures_are_reported_as_such() {
    let told = |event| error(next_step("X", None, event));
    assert_eq!(told(ScanEvent::WalkFailed("没有权限".to_string())), "扫描失败: 没有权限");
    assert_eq!(told(ScanEvent::BrokeDown(Some("boom".to_string()))), "扫描过程中发生内部错误（已记录日志）: boom");
    assert_eq!(told(ScanEvent::BrokeDown(None)), "扫描过程中发生内部错误（已记录日志）: 未知内部错误");
    assert_eq!(told(ScanEvent::NotStarted("too many".to_string())), "无法启动扫描线程: too many");
}

#[test]
fn twice_as_many_workers_as_cores() {
    assert_eq!(worker_count(0), 2);
    assert_eq!(worker_count(1), 2);
    assert_eq!(worker_count(8), 16);
}

#[test]
fn system_times_become_file_times() {
    assert_eq!(system_time_to_filetime(Some((0, 0))), 116_444_736_000_000_000);
    assert_eq!(system_time_to_filetime(Some((1, 123_456_789))), 116_444_736_011_234_567);
    assert_eq!(system_time_to_filetime(None), 0);
}

#[test]
fn room_is_taken_by_the_cluster() {
    assert_eq!(get_physical_size(1, 0x20, 4096, None), 4096);
    assert_eq!(get_physical_size(4096, 0x20, 4096, None), 4096);
    assert_eq!(get_physical_size(4097, 0x20, 4096, None), 8192);
    assert_eq!(get_physical_size(0, 0x20, 4096, None), 0);
    assert!(asks_compressed_size(0x800) && asks_compressed_size(0x200) && !asks_compressed_size(0x20));
    let packed = || Some(CompressedSize { low: 1000, high: 1, last_error: 0 });
    assert_eq!(get_physical_size(9000, 0x820, 4096, packed()), (1 << 32) + 1000);
    assert_eq!(get_physical_size(9000, 0x20, 4096, packed()), 12288);
    // The largest number stands for a failure only if there was an error.
    let failed = Some(CompressedSize { low: u32::MAX, high: 0, last_error: 5 });
    assert_eq!(get_physical_size(9000, 0x820, 4096, failed), 12288);
    let large = Some(CompressedSize { low: u32::MAX, high: 0, last_error: 0 });
    assert_eq!(get_physical_size(9000, 0x820, 4096, large), u32::MAX as u64);
    assert_eq!(query_cluster_size(Some((8, 512))), 4096);
    assert_eq!(query_cluster_size(Some((0, 512))), 4096);
    assert_eq!(query_cluster_size(Some((128, 512))), 65536);
    assert_eq!(query_cluster_size(None), 4096);
}

#[test]
fn a_reparse_tag_is_the_start_of_the_reply() {
    assert_eq!(reparse_tag_in(&[0x0C, 0, 0, 0xA0, 9, 9]), 0xA000_000C);
    assert_eq!(reparse_tag_in(&[1, 2, 3]), 0);
}

#[test]
fn entries_can_be_made_of_plain_metadata() {
    let meta = |is_dir| EntryMetadata {
        name: "x".to_string(),
        is_dir,
        len: 10,
        attrs: 0x20,
        modified: Some((0, 0)),
        created: None,
        accessed: Some((0, 100)),
    };
    let f = fallback_entry(meta(false), 4096, None, 0);
    assert_eq!((f.logical, f.physical, f.file_id), (10, 4096, 0));
    assert_eq!((f.modified_ft, f.created_ft), (116_444_736_000_000_000, 0));
    assert_eq!(f.accessed_ft, 116_444_736_000_000_001);
    let d = fallback_entry(meta(true), 4096, None, 7);
    assert_eq!((d.physical, d.reparse_tag), (0, 7));
}

#[test]
fn wide_text_is_utf16_with_a_zero() {
    for s in ["", "C:\\x", "文件", "𝄞 clef"] {
        assert_eq!(encode(s), utf16(s));
        let mut z = utf16(s);
        z.push(0);
        assert_eq!(wide(s), z);
        assert_eq!(from_wide(&encode(s)), s);
    }
}

#[test]
fn unpaired_surrogates_are_replaced() {
    assert_eq!(from_wide(&[0x61, 0xD834, 0xDD1E, 0x62]), "a𝄞b");
    assert_eq!(from_wide(&[0xD834, 0x61]), "\u{FFFD}a");
    assert_eq!(from_wide(&[0xDD1E, 0xD834]), "\u{FFFD}\u{FFFD}");
}
