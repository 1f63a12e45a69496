//! Scanning directories one by one.

use disk_ui::dir_enum::{parse_dir_batch, HEADER_LEN};
use disk_ui::model::NodeKind;
use disk_ui::scan::{NextItem, RawDirEntry, ScanTree, WorkItem, FILE_ATTRIBUTE_REPARSE_POINT};

fn entry(name: &str, is_dir: bool, logical: u64, physical: u64, file_id: u64) -> RawDirEntry {
    RawDirEntry {
        name: name.to_string(),
        is_dir,
        logical,
        physical,
        attrs: if is_dir { 0x10 } else { 0x20 },
        modified_ft: logical,
        created_ft: 0,
        accessed_ft: 0,
        file_id,
        reparse_tag: 0,
    }
}

fn item(s: &mut ScanTree) -> WorkItem {
    match s.next_item() {
        NextItem::Item(i) => i,
        NextItem::Wait => panic!("there is nothing to do yet"),
        NextItem::Finished => panic!("there is nothing left to do"),
    }
}

fn start() -> ScanTree {
    ScanTree::new("C:\\".to_string(), 77, 0x16, '\\')
}

#[test]
fn directories_are_put_together_when_all_is_in() {
    let mut s = start();
    let top = item(&mut s);
    assert_eq!((top.path.as_str(), top.depth), ("C:\\", 0));
    assert!(matches!(s.next_item(), NextItem::Wait));
    let listing = vec![entry("a", true, 0, 0, 0), entry("f", false, 10, 4096, 1), entry("b", true, 0, 0, 0)];
    assert!(matches!(s.process_one_dir(top, Some(listing)), Ok(None)));
    assert!(s.root.is_none());
    let a = item(&mut s);
    let b = item(&mut s);
    assert_eq!((a.path.as_str(), a.depth), ("C:\\a", 1));
    assert_eq!(b.path, "C:\\b");
    // They may come back in any order.
    assert!(s.process_one_dir(b, Some(vec![entry("g", false, 1, 4096, 2)])).is_ok());
    assert!(matches!(s.next_item(), NextItem::Wait));
    assert!(s.process_one_dir(a, None).is_ok());
    assert!(matches!(s.next_item(), NextItem::Finished));
    assert_eq!(s.counter, 4);
    let root = s.into_root("C:\\".to_string());
    assert_eq!(root.name, "C:\\");
    assert_eq!((root.logical_size, root.physical_size), (11, 8192));
    assert_eq!((root.file_count, root.folder_count), (2, 2));
    assert_eq!(root.attributes, 0x16);
    assert_eq!(root.modified_ft, 77);
    let names: Vec<&str> = root.children.iter().map(|c| c.name.as_str()).collect();
    assert_eq!(names, ["f", "b", "a"]);
    assert_eq!(root.children[2].kind, NodeKind::Folder);
}

#[test]
fn hard_links_take_room_once() {
    let mut s = start();
    let top = item(&mut s);
    let listing = vec![
        entry("first", false, 10, 4096, 5),
        entry("second", false, 10, 4096, 5),
        entry("unknown", false, 10, 4096, 0),
        entry("unknown too", false, 10, 4096, 0),
    ];
    assert!(s.process_one_dir(top, Some(listing)).is_ok());
    let root = s.into_root(String::new());
    assert_eq!(root.logical_size, 40);
    assert_eq!(root.physical_size, 3 * 4096);
    assert_eq!(root.children[0].physical_size, 4096);
    assert_eq!(root.children[1].physical_size, 0);
}

#[test]
fn reparse_points_are_not_gone_into() {
    let mut s = start();
    let top = item(&mut s);
    let mut junction = entry("junction", true, 0, 0, 0);
    junction.attrs = 0x10 | FILE_ATTRIBUTE_REPARSE_POINT;
    junction.reparse_tag = 0xA000_0003;
    assert!(s.process_one_dir(top, Some(vec![junction])).is_ok());
    assert!(matches!(s.next_item(), NextItem::Finished));
    let root = s.into_root(String::new());
    assert_eq!(root.children[0].reparse_tag, 0xA000_0003);
    assert!(root.children[0].children.is_empty());
}

#[test]
fn progress_is_told_every_five_thousand_entries() {
    let mut s = start();
    let top = item(&mut s);
    let mut listing: Vec<RawDirEntry> = (0..4998).map(|i| entry("x", false, 1, 1, i + 1)).collect();
    listing.push(entry("d", true, 0, 0, 0));
    assert!(matches!(s.process_one_dir(top, Some(listing)), Ok(None)));
    let d = item(&mut s);
    assert!(matches!(s.process_one_dir(d, Some(vec![entry("y", false, 1, 1, 0)])), Ok(Some(4999))));
}

#[test]
fn sizes_that_do_not_fit_are_refused() {
    let mut s = start();
    let top = item(&mut s);
    let listing = vec![entry("x", false, u64::MAX, 0, 1), entry("y", false, 1, 0, 2)];
    assert!(s.process_one_dir(top, Some(listing)).is_err());
}

#[test]
fn a_scan_without_result_is_an_empty_folder() {
    let root = start().into_root("D:\\".to_string());
    assert_eq!(root.name, "D:\\");
    assert_eq!(root.kind, NodeKind::Folder);
    assert!(root.children.is_empty());
}

/// Scans `C:\` with `x` (which holds `deep` and a file) and `y` in it; `y_first` says which of the
/// two comes back first.
fn scan_of_two(y_first: bool) -> (u64, u64, u64, u64, u64) {
    let mut s = start();
    let top = item(&mut s);
    let listing = vec![entry("x", true, 0, 0, 0), entry("y", true, 0, 0, 0), entry("t", false, 3, 4096, 0)];
    assert!(s.process_one_dir(top, Some(listing)).is_ok());
    let x = item(&mut s);
    let y = item(&mut s);
    let in_x = vec![entry("deep", true, 0, 0, 0), entry("u", false, 5, 4096, 0)];
    let in_y = vec![entry("v", false, 7, 4096, 0)];
    if y_first {
        assert!(s.process_one_dir(y, Some(in_y)).is_ok());
        assert!(s.process_one_dir(x, Some(in_x)).is_ok());
    } else {
        assert!(s.process_one_dir(x, Some(in_x)).is_ok());
        assert!(s.process_one_dir(y, Some(in_y)).is_ok());
    }
    let deep = item(&mut s);
    assert_eq!(deep.path, "C:\\x\\deep");
    assert!(s.process_one_dir(deep, Some(vec![entry("w", false, 11, 4096, 0)])).is_ok());
    assert!(matches!(s.next_item(), NextItem::Finished));
    let counter = s.counter;
    let root = s.into_root(String::new());
    (root.logical_size, root.physical_size, root.file_count, root.folder_count, counter)
}

#[test]
fn nothing_is_lost_whatever_the_order() {
    assert_eq!(scan_of_two(false), (26, 4 * 4096, 4, 3, 7));
    assert_eq!(scan_of_two(true), (26, 4 * 4096, 4, 3, 7));
}

/// One entry as the system writes it; `next` is how far on the next one is.
fn listed(next: u32, name: &str, attrs: u32, logical: u64, physical: u64, id: u64) -> Vec<u8> {
    let units: Vec<u8> = name.encode_utf16().flat_map(|u| u.to_le_bytes()).collect();
    let mut b = vec![0u8; HEADER_LEN];
    b[0..4].copy_from_slice(&next.to_le_bytes());
    b[8..16].copy_from_slice(&1u64.to_le_bytes());
    b[16..24].copy_from_slice(&2u64.to_le_bytes());
    b[24..32].copy_from_slice(&3u64.to_le_bytes());
    b[40..48].copy_from_slice(&logical.to_le_bytes());
    b[48..56].copy_from_slice(&physical.to_le_bytes());
    b[56..60].copy_from_slice(&attrs.to_le_bytes());
    b[60..64].copy_from_slice(&(units.len() as u32).to_le_bytes());
    b[96..104].copy_from_slice(&id.to_le_bytes());
    b.extend(units);
    b.resize(120.max(b.len()), 0);
    b
}

#[test]
fn a_batch_of_entries_is_read() {
    let mut b = listed(120, ".", 0x10, 0, 0, 5);
    b.extend(listed(120, "..", 0x10, 0, 0, 5));
    b.extend(listed(120, "文件.x", 0x20, 10, 4096, 77));
    b.extend(listed(0, "sub", 0x10, 0, 0, 78));
    let v = parse_dir_batch(&b);
    assert_eq!(v.len(), 2);
    assert_eq!((v[0].name.as_str(), v[0].is_dir, v[0].attrs), ("文件.x", false, 0x20));
    assert_eq!((v[0].logical, v[0].physical, v[0].file_id), (10, 4096, 77));
    assert_eq!((v[0].created_ft, v[0].accessed_ft, v[0].modified_ft), (1, 2, 3));
    assert_eq!((v[1].name.as_str(), v[1].is_dir, v[1].file_id, v[1].reparse_tag), ("sub", true, 78, 0));
    // What does not lie within the buffer is no entry.
    assert_eq!(parse_dir_batch(&b[..240 + 50]).len(), 0);
    assert_eq!(parse_dir_batch(&b[..360 + 104]).len(), 1);
    assert_eq!(parse_dir_batch(&[]).len(), 0);
}

#[test]
fn hard_links_in_a_batch_take_room_once() {
    let mut b = listed(120, "one", 0x20, 10, 4096, 9);
    b.extend(listed(0, "two", 0x20, 10, 4096, 9));
    let mut s = start();
    let top = item(&mut s);
    assert!(s.process_one_dir(top, Some(parse_dir_batch(&b))).is_ok());
    let root = s.into_root(String::new());
    assert_eq!((root.logical_size, root.physical_size), (20, 4096));
}

#[test]
fn names_follow_a_bare_drive_directly() {
    let paths = |root: &str, separator: char| {
        let mut s = ScanTree::new(root.to_string(), 0, 0, separator);
        let top = item(&mut s);
        assert!(s.process_one_dir(top, Some(vec![entry("a", true, 0, 0, 0)])).is_ok());
        item(&mut s).path
    };
    assert_eq!(paths("C:", '\\'), "C:a");
    assert_eq!(paths("C:\\", '\\'), "C:\\a");
    assert_eq!(paths("C:/", '\\'), "C:/a");
    assert_eq!(paths("C:\\d", '\\'), "C:\\d\\a");
    assert_eq!(paths("1:", '\\'), "1:\\a");
    assert_eq!(paths("c:", '/'), "c:/a");
    assert_eq!(paths("/srv", '/'), "/srv/a");
}
