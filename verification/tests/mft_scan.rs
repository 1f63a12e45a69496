//! Loading the master file table and making a tree of it.

use disk_ui::mft_scan::{
    parse_retrieval_pointers, process_chunk, process_record, progress_is_due, single_run, LoadAction, MftError,
    MftLoader, NtfsContext, RunReader, CHUNK_SIZE, FILE_ATTRIBUTE_COMPRESSED, FILE_ATTRIBUTE_DIRECTORY,
    FILE_ATTRIBUTE_NORMAL, IO_REPARSE_TAG_WOF, NTFS_ROOT_RECORD,
};
use disk_ui::mft_tree::{build_tree, TreeError};
use disk_ui::model::NodeKind;

const IN_USE: u16 = 1;
const DIRECTORY: u16 = 2;

/// A record of 1024 bytes in the making. Sector ends are protected when it is finished.
struct Record {
    bytes: Vec<u8>,
    at: usize,
}

impl Record {
    fn new(flags: u16, base: u64) -> Record {
        let mut bytes = vec![0u8; 1024];
        bytes[0..4].copy_from_slice(b"FILE");
        bytes[4..6].copy_from_slice(&48u16.to_le_bytes());
        bytes[6..8].copy_from_slice(&3u16.to_le_bytes());
        bytes[20..22].copy_from_slice(&56u16.to_le_bytes());
        bytes[22..24].copy_from_slice(&flags.to_le_bytes());
        bytes[32..40].copy_from_slice(&base.to_le_bytes());
        Record { bytes, at: 56 }
    }

    fn resident(mut self, kind: u32, content: &[u8]) -> Record {
        let len = (24 + content.len() + 7) / 8 * 8;
        let at = self.at;
        self.bytes[at..at + 4].copy_from_slice(&kind.to_le_bytes());
        self.bytes[at + 4..at + 8].copy_from_slice(&(len as u32).to_le_bytes());
        self.bytes[at + 16..at + 20].copy_from_slice(&(content.len() as u32).to_le_bytes());
        self.bytes[at + 20..at + 22].copy_from_slice(&24u16.to_le_bytes());
        self.bytes[at + 24..at + 24 + content.len()].copy_from_slice(content);
        self.at += len;
        self
    }

    fn standard_information(self, created: u64, modified: u64, accessed: u64, attrs: u32) -> Record {
        let mut c = Vec::new();
        c.extend_from_slice(&created.to_le_bytes());
        c.extend_from_slice(&modified.to_le_bytes());
        c.extend_from_slice(&0u64.to_le_bytes());
        c.extend_from_slice(&accessed.to_le_bytes());
        c.extend_from_slice(&attrs.to_le_bytes());
        self.resident(0x10, &c)
    }

    fn file_name(self, parent: u64, namespace: u8, name: &str) -> Record {
        let units: Vec<u16> = name.encode_utf16().collect();
        let mut c = vec![0u8; 0x42];
        c[0..8].copy_from_slice(&(parent | 0x0007_0000_0000_0000).to_le_bytes());
        c[0x40] = units.len() as u8;
        c[0x41] = namespace;
        for u in units {
            c.extend_from_slice(&u.to_le_bytes());
        }
        self.resident(0x30, &c)
    }

    fn data(self, content: &[u8]) -> Record {
        self.resident(0x80, content)
    }

    /// A stream whose content is elsewhere on the disk.
    fn stream(mut self, name: &str, flags: u16, lowest_vcn: u64, allocated: u64, size: u64, packed: u64) -> Record {
        let units: Vec<u16> = name.encode_utf16().collect();
        let len = (0x48 + 2 * units.len() + 7) / 8 * 8;
        let at = self.at;
        let b = &mut self.bytes;
        b[at..at + 4].copy_from_slice(&0x80u32.to_le_bytes());
        b[at + 4..at + 8].copy_from_slice(&(len as u32).to_le_bytes());
        b[at + 8] = 1;
        b[at + 9] = units.len() as u8;
        b[at + 10..at + 12].copy_from_slice(&0x48u16.to_le_bytes());
        b[at + 12..at + 14].copy_from_slice(&flags.to_le_bytes());
        b[at + 16..at + 24].copy_from_slice(&lowest_vcn.to_le_bytes());
        b[at + 0x28..at + 0x30].copy_from_slice(&allocated.to_le_bytes());
        b[at + 0x30..at + 0x38].copy_from_slice(&size.to_le_bytes());
        b[at + 0x40..at + 0x48].copy_from_slice(&packed.to_le_bytes());
        for (i, u) in units.iter().enumerate() {
            b[at + 0x48 + 2 * i..at + 0x4A + 2 * i].copy_from_slice(&u.to_le_bytes());
        }
        self.at += len;
        self
    }

    fn finish(mut self) -> Vec<u8> {
        let at = self.at;
        self.bytes[at..at + 4].copy_from_slice(&0xFFFF_FFFFu32.to_le_bytes());
        // The update sequence: number 0x0203, then the true sector ends.
        self.bytes[48..50].copy_from_slice(&[0x03, 0x02]);
        for s in 1..3usize {
            let end = s * 512;
            let kept = [self.bytes[end - 2], self.bytes[end - 1]];
            self.bytes[48 + 2 * s..50 + 2 * s].copy_from_slice(&kept);
            self.bytes[end - 2..end].copy_from_slice(&[0x03, 0x02]);
        }
        self.bytes
    }
}

fn empty() -> NtfsContext {
    NtfsContext::new(4096, 1024)
}

#[test]
fn a_record_fills_in_its_file() {
    let mut ctx = empty();
    let mut rec = Record::new(IN_USE, 0)
        .standard_information(10, 20, 30, 0x20)
        .file_name(NTFS_ROOT_RECORD, 1, "测试.txt")
        .data(b"hello")
        .finish();
    process_record(&mut rec, 40, &mut ctx);
    let f = &ctx.base_file_records[&40];
    assert_eq!((f.created_ft, f.last_modified_ft, f.accessed_ft), (10, 20, 30));
    assert_eq!(f.attributes, 0x20);
    assert_eq!((f.logical_size, f.physical_size), (5, 8));
    let names = &ctx.parent_to_children[&NTFS_ROOT_RECORD];
    assert_eq!(names.len(), 1);
    assert_eq!(names[0].name, "测试.txt");
    assert_eq!(names[0].base_record, 40);
}

#[test]
fn what_is_no_record_in_use_changes_nothing() {
    let mut ctx = empty();
    let mut unused = Record::new(0, 0).file_name(5, 1, "gone").finish();
    process_record(&mut unused, 1, &mut ctx);
    let mut torn = Record::new(IN_USE, 0).file_name(5, 1, "torn").finish();
    torn[511] = 0xEE;
    process_record(&mut torn, 2, &mut ctx);
    let mut other = Record::new(IN_USE, 0).file_name(5, 1, "other").finish();
    other[0..4].copy_from_slice(b"BAAD");
    process_record(&mut other, 3, &mut ctx);
    let mut short = vec![b'F', b'I', b'L', b'E', 0, 0];
    process_record(&mut short, 4, &mut ctx);
    assert!(ctx.base_file_records.is_empty());
    assert!(ctx.parent_to_children.is_empty());
}

#[test]
fn sector_ends_are_put_back() {
    let mut rec = Record::new(IN_USE, 0).data(&[0xAB; 480]).finish();
    assert_eq!(&rec[510..512], &[0x03, 0x02]);
    let mut ctx = empty();
    process_record(&mut rec, 9, &mut ctx);
    assert_eq!(&rec[510..512], &[0xAB, 0xAB]);
    assert_eq!(ctx.base_file_records[&9].logical_size, 480);
}

#[test]
fn an_extension_record_adds_to_the_base_record() {
    let mut ctx = empty();
    let mut base = Record::new(IN_USE, 0)
        .standard_information(1, 2, 3, 0)
        .file_name(5, 0, "big.bin")
        .finish();
    process_record(&mut base, 50, &mut ctx);
    // The sequence number in the upper bits of the reference does not count.
    let mut ext = Record::new(IN_USE, 50 | 0x0003_0000_0000_0000)
        .stream("", 0, 0, 8192, 5000, 0)
        .finish();
    process_record(&mut ext, 77, &mut ctx);
    assert_eq!(ctx.base_file_records.len(), 1);
    let f = &ctx.base_file_records[&50];
    assert_eq!((f.logical_size, f.physical_size), (5000, 8192));
    assert_eq!(f.attributes, FILE_ATTRIBUTE_NORMAL);
    assert_eq!(f.created_ft, 1);
}

#[test]
fn streams_count_as_their_kind_says() {
    // Packed or sparse content takes up what is stored, not what is set aside.
    for flags in [0x0001u16, 0x8000] {
        let mut ctx = empty();
        let mut rec = Record::new(IN_USE, 0).stream("", flags, 0, 65536, 60000, 4096).finish();
        process_record(&mut rec, 6, &mut ctx);
        let f = &ctx.base_file_records[&6];
        assert_eq!((f.logical_size, f.physical_size), (60000, 4096));
    }
    // A later part of a stream says nothing of its size.
    let mut ctx = empty();
    let mut rec = Record::new(IN_USE, 0).stream("", 0, 16, 65536, 60000, 0).finish();
    process_record(&mut rec, 6, &mut ctx);
    assert_eq!(ctx.base_file_records[&6].logical_size, 0);
    // Other streams do not count, but for the content of files that the system keeps packed.
    let mut rec = Record::new(IN_USE, 0)
        .stream("Zone.Identifier", 0, 0, 4096, 26, 0)
        .stream("WofCompressedData", 0, 0, 12288, 12000, 0)
        .finish();
    process_record(&mut rec, 7, &mut ctx);
    let f = &ctx.base_file_records[&7];
    assert_eq!((f.logical_size, f.physical_size), (0, 12288));
}

#[test]
fn short_names_and_dots_are_left_out() {
    let mut ctx = empty();
    let mut rec = Record::new(IN_USE | DIRECTORY, 0)
        .standard_information(0, 0, 0, 0)
        .file_name(5, 2, "PROGRA~1")
        .file_name(5, 1, ".")
        .file_name(5, 1, "..")
        .file_name(5, 1, "Program Files")
        .file_name(30, 1, "linked")
        .finish();
    process_record(&mut rec, 60, &mut ctx);
    assert_eq!(ctx.base_file_records[&60].attributes, FILE_ATTRIBUTE_DIRECTORY);
    let names: Vec<&str> = ctx.parent_to_children[&5].iter().map(|n| n.name.as_str()).collect();
    assert_eq!(names, ["Program Files"]);
    assert_eq!(ctx.parent_to_children[&30][0].name, "linked");
}

#[test]
fn reparse_points_keep_their_tag() {
    let mut ctx = empty();
    let mut rec = Record::new(IN_USE, 0)
        .standard_information(0, 0, 0, 0x20)
        .resident(0xC0, &IO_REPARSE_TAG_WOF.to_le_bytes())
        .finish();
    process_record(&mut rec, 8, &mut ctx);
    let f = &ctx.base_file_records[&8];
    assert_eq!(f.reparse_tag, IO_REPARSE_TAG_WOF);
    assert_eq!(f.attributes, 0x20 | FILE_ATTRIBUTE_COMPRESSED);
}

#[test]
fn a_chunk_is_taken_record_by_record() {
    let mut ctx = empty();
    let mut chunk = Record::new(IN_USE, 0).data(b"a").finish();
    chunk.extend(Record::new(IN_USE, 0).data(b"ab").finish());
    chunk.extend(vec![0u8; 1000]);
    // The first record starts at byte 10240 of the table, so it has number 10.
    let n = process_chunk(&chunk, chunk.len(), 1024, 10240, &mut ctx);
    assert_eq!(n, 2);
    assert_eq!(ctx.base_file_records[&10].logical_size, 1);
    assert_eq!(ctx.base_file_records[&11].logical_size, 2);
}

#[test]
fn progress_is_told_about_every_fifty_thousand_records() {
    assert!(progress_is_due(50_000, 4 << 20, 1024));
    assert!(progress_is_due(54_095, 4 << 20, 1024));
    assert!(!progress_is_due(54_096, 4 << 20, 1024));
    assert!(!progress_is_due(49_999, 1024, 1024));
}

fn extents(start: i64, list: &[(i64, i64)]) -> Vec<u8> {
    let mut b = Vec::new();
    b.extend_from_slice(&(list.len() as u32).to_le_bytes());
    b.extend_from_slice(&[0; 4]);
    b.extend_from_slice(&start.to_le_bytes());
    for (next, lcn) in list {
        b.extend_from_slice(&next.to_le_bytes());
        b.extend_from_slice(&lcn.to_le_bytes());
    }
    b
}

#[test]
fn runs_are_read_from_the_extent_list() {
    let b = extents(0, &[(100, 786432), (150, -1), (200, 5000)]);
    assert_eq!(parse_retrieval_pointers(&b, 786432), [(0, 786432, 100), (150, 5000, 50)]);
    // Where no run is listed, the start of the table stands in.
    assert_eq!(parse_retrieval_pointers(&extents(0, &[]), 786432), [(0, 786432, 0)]);
    assert_eq!(parse_retrieval_pointers(&extents(0, &[(9, -1)]), 3), [(0, 3, 0)]);
    assert_eq!(single_run(1_000_000, 786432, 4096), [(0, 786432, 244)]);
}

#[test]
fn a_run_is_read_in_chunks() {
    let mut r = RunReader::new((2, 10, 1500), 4096).unwrap();
    assert_eq!(r.next_read(), Some((40960, CHUNK_SIZE)));
    r.advance(CHUNK_SIZE);
    assert_eq!(r.mft_offset, 8192 + CHUNK_SIZE as u64);
    let rest = 1500 * 4096 - CHUNK_SIZE;
    assert_eq!(r.next_read(), Some((40960 + CHUNK_SIZE as i64, rest)));
    r.advance(rest);
    assert_eq!(r.next_read(), None);
    assert!(RunReader::new((0, i64::MAX, 1), 4096).is_none());
}

#[test]
fn the_loader_reads_run_after_run() {
    let mut first = Record::new(IN_USE, 0).data(b"one").finish();
    first.extend(vec![0u8; 3072]);
    let mut second = Record::new(IN_USE, 0).data(b"three").finish();
    second.extend(vec![0u8; 3072]);
    let mut l = MftLoader::new(4096, 0, vec![(0, 100, 1), (1, 7, 0), (1, 300, 1)]);
    assert_eq!(l.ctx.bytes_per_record, 1024);
    match l.next_action() {
        LoadAction::Read { offset, len } => assert_eq!((offset, len), (409600, 4096)),
        LoadAction::Finished => panic!("nothing was read"),
    }
    assert_eq!(l.bytes_read(&first, 4096), None);
    match l.next_action() {
        LoadAction::Read { offset, len } => assert_eq!((offset, len), (1228800, 4096)),
        LoadAction::Finished => panic!("the second run was not read"),
    }
    assert_eq!(l.bytes_read(&second, 4096), None);
    assert!(matches!(l.next_action(), LoadAction::Finished));
    assert_eq!(l.ctx.base_file_records[&0].logical_size, 3);
    assert_eq!(l.ctx.base_file_records[&4].logical_size, 5);
    assert_eq!(l.records_processed, 8);
}

#[test]
fn the_loader_tells_how_far_it_is() {
    let mut l = MftLoader::new(4096, 1024, vec![(0, 100, 1)]);
    l.records_processed = 49_998;
    l.next_action();
    assert_eq!(l.bytes_read(&[0; 4096], 4096), Some(50_002));
}

#[test]
fn a_run_that_cannot_be_read_is_given_up() {
    let mut l = MftLoader::new(4096, 1024, vec![(0, 100, 2), (2, 300, 1)]);
    assert!(matches!(l.next_action(), LoadAction::Read { offset: 409600, len: 8192 }));
    l.read_failed();
    assert!(matches!(l.next_action(), LoadAction::Read { offset: 1228800, len: 4096 }));
    l.read_failed();
    assert!(matches!(l.next_action(), LoadAction::Finished));
}

#[test]
fn errors_say_what_went_wrong() {
    assert_eq!(MftError(String::from("无法打开卷设备")).message(), "无法打开卷设备");
}

fn put(ctx: &mut NtfsContext, number: u64, parent: u64, name: &str, size: usize, directory: bool) {
    let flags = if directory { IN_USE | DIRECTORY } else { IN_USE };
    let rec = Record::new(flags, 0).standard_information(1, 2, 3, 0x20).file_name(parent, 1, name);
    let mut rec = if directory { rec.finish() } else { rec.data(&vec![7u8; size]).finish() };
    process_record(&mut rec, number, ctx);
}

#[test]
fn a_volume_becomes_a_tree() {
    let mut ctx = empty();
    put(&mut ctx, 5, 5, ".", 0, true);
    put(&mut ctx, 0, 5, "$MFT", 100, false);
    put(&mut ctx, 30, 5, "docs", 0, true);
    put(&mut ctx, 31, 30, "a.txt", 9, false);
    put(&mut ctx, 32, 30, "b.txt", 300, false);
    let t = build_tree(&ctx, NTFS_ROOT_RECORD, "C:\\").unwrap();
    assert_eq!(t.name, "C:\\");
    assert_eq!(t.logical_size, 409);
    assert_eq!(t.physical_size, 104 + 16 + 304);
    assert_eq!((t.file_count, t.folder_count), (3, 1));
    let names: Vec<&str> = t.children.iter().map(|c| c.name.as_str()).collect();
    assert_eq!(names, ["docs", "$MFT"]);
    assert_eq!(t.children[0].kind, NodeKind::Folder);
    assert!(t.children[1].is_reserved);
    assert!(!t.children[0].is_reserved);
    assert_eq!(t.children[0].children[0].name, "b.txt");
}

#[test]
fn room_counts_once_for_a_file_with_two_names() {
    let mut ctx = empty();
    put(&mut ctx, 5, 5, ".", 0, true);
    let mut rec = Record::new(IN_USE, 0)
        .standard_information(1, 2, 3, 0x20)
        .file_name(5, 1, "first")
        .file_name(5, 1, "second")
        .data(&[1; 20])
        .finish();
    process_record(&mut rec, 40, &mut ctx);
    let t = build_tree(&ctx, NTFS_ROOT_RECORD, "C:\\").unwrap();
    assert_eq!(t.file_count, 2);
    assert_eq!(t.logical_size, 40);
    assert_eq!(t.physical_size, 24);
}

#[test]
fn a_directory_in_itself_is_no_tree() {
    let mut ctx = empty();
    put(&mut ctx, 5, 5, ".", 0, true);
    put(&mut ctx, 30, 5, "a", 0, true);
    put(&mut ctx, 31, 30, "b", 0, true);
    put(&mut ctx, 30, 31, "a again", 0, true);
    assert!(matches!(build_tree(&ctx, NTFS_ROOT_RECORD, "C:\\"), Err(TreeError::EndlessDirectory)));
}

#[test]
fn sizes_beyond_64_bits_are_no_tree() {
    let mut ctx = empty();
    put(&mut ctx, 5, 5, ".", 0, true);
    for number in [30u64, 31] {
        let mut rec = Record::new(IN_USE, 0)
            .file_name(5, 1, "huge")
            .stream("", 0, 0, u64::MAX, u64::MAX, 0)
            .finish();
        process_record(&mut rec, number, &mut ctx);
    }
    assert!(matches!(build_tree(&ctx, NTFS_ROOT_RECORD, "C:\\"), Err(TreeError::SizesTooLarge)));
}
