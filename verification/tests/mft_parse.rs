//! Parsing records of the master file table.
use disk_ui::mft_parse::{
    apply_fixup, parse_record, ATTR_DATA, ATTR_END, ATTR_FILE_NAME, ATTR_STANDARD_INFORMATION,
};

fn put_u64(buf: &mut Vec<u8>, off: usize, v: u64) {
    let bytes = v.to_le_bytes();
    buf[off..off + 8].copy_from_slice(&bytes);
}
fn put_u32(buf: &mut Vec<u8>, off: usize, v: u32) {
    let bytes = v.to_le_bytes();
    buf[off..off + 4].copy_from_slice(&bytes);
}
fn put_u16(buf: &mut Vec<u8>, off: usize, v: u16) {
    let bytes = v.to_le_bytes();
    buf[off..off + 2].copy_from_slice(&bytes);
}

/// The smallest record of a file that has its usual attributes.
fn build_test_record(
    name: &str,
    parent_record: u64,
    is_dir: bool,
    real_size: u64,
    modified_ft: u64,
    attributes: u32,
) -> Vec<u8> {
    let mut buf = vec![0u8; 1024];

    buf[0..4].copy_from_slice(b"FILE");
    put_u16(&mut buf, 4, 0x30); // usa_offset
    put_u16(&mut buf, 6, 1);
    put_u16(&mut buf, 0x30, 0x0001);
    let flags: u16 = 0x01 | if is_dir { 0x02 } else { 0x00 };
    put_u16(&mut buf, 22, flags);
    put_u16(&mut buf, 20, 0x38); // first_attr_offset
    put_u64(&mut buf, 32, 0); // base_record_ref = 0

    let mut off = 0x38usize;

    let std_attr_content_len: usize = 0x48;
    let std_attr_total_len: usize = 24 + std_attr_content_len;
    put_u32(&mut buf, off, ATTR_STANDARD_INFORMATION);
    put_u32(&mut buf, off + 4, std_attr_total_len as u32);
    buf[off + 8] = 0; // resident
    put_u32(&mut buf, off + 16, std_attr_content_len as u32);
    put_u16(&mut buf, off + 20, 24); // value_off
    let content_off = off + 24;
    put_u64(&mut buf, content_off + 0x00, 0); // CreationTime
    put_u64(&mut buf, content_off + 0x08, modified_ft); // LastModificationTime
    put_u64(&mut buf, content_off + 0x10, 0);
    put_u64(&mut buf, content_off + 0x18, 0);
    put_u64(&mut buf, content_off + 0x20, real_size);
    put_u64(&mut buf, content_off + 0x28, real_size);
    put_u32(&mut buf, content_off + 0x30, attributes);
    put_u32(&mut buf, content_off + 0x34, 0);
    off += std_attr_total_len;

    let name_u16: Vec<u16> = name.encode_utf16().collect();
    let name_bytes_len = name_u16.len() * 2;
    let fn_content_len: usize = 66 + name_bytes_len;
    let fn_attr_total_len: usize = (24 + fn_content_len + 7) & !7;
    put_u32(&mut buf, off, ATTR_FILE_NAME);
    put_u32(&mut buf, off + 4, fn_attr_total_len as u32);
    buf[off + 8] = 0;
    put_u32(&mut buf, off + 16, fn_content_len as u32);
    put_u16(&mut buf, off + 20, 24);
    let fn_content_off = off + 24;
    put_u64(&mut buf, fn_content_off + 0, parent_record);
    for i in (8..64).step_by(8) {
        put_u64(&mut buf, fn_content_off + i, 0);
    }
    buf[fn_content_off + 64] = name_u16.len() as u8; // name_len
    buf[fn_content_off + 65] = 1; // ns = WIN32
    for (i, &c) in name_u16.iter().enumerate() {
        put_u16(&mut buf, fn_content_off + 66 + i * 2, c);
    }
    off += fn_attr_total_len;

    let data_attr_total_len: usize = 32;
    put_u32(&mut buf, off, ATTR_DATA);
    put_u32(&mut buf, off + 4, data_attr_total_len as u32);
    buf[off + 8] = 0; // resident
    buf[off + 9] = 0; // name_len = 0
    put_u32(&mut buf, off + 16, real_size as u32); // value_len
    put_u16(&mut buf, off + 20, 24);
    off += data_attr_total_len;

    put_u32(&mut buf, off, ATTR_END);
    put_u32(&mut buf, off + 4, 0);
    off += 8;

    buf.truncate(off);
    while buf.len() < 512 {
        buf.push(0);
    }
    buf
}

#[test]
fn test_parse_file_record() {
    let modified_ft: u64 = 132_000_000_000_000_000;
    let attributes: u32 = 0x20; // ARCHIVE
    let mut record = build_test_record("hello.txt", 42, false, 123_456, modified_ft, attributes);
    assert!(apply_fixup(&mut record, 512), "apply_fixup should succeed");
    let entry = parse_record(&record).expect("parse_record should return Some");
    assert_eq!(entry.name, "hello.txt");
    assert_eq!(entry.parent_record, 42);
    assert!(!entry.is_dir);
    assert!(entry.in_use);
    assert!(entry.is_base_record);
    assert_eq!(entry.real_size, 123_456);
    assert_eq!(entry.modified_ft, modified_ft);
    assert_eq!(entry.attributes, attributes);
}

#[test]
fn test_parse_directory_record() {
    let modified_ft: u64 = 132_500_000_000_000_000;
    let attributes: u32 = 0x10; // DIRECTORY
    let mut record = build_test_record("MyFolder", 5, true, 0, modified_ft, attributes);
    assert!(apply_fixup(&mut record, 512));
    let entry = parse_record(&record).expect("parse_record should return Some");
    assert_eq!(entry.name, "MyFolder");
    assert_eq!(entry.parent_record, 5);
    assert!(entry.is_dir);
    assert_eq!(entry.attributes, 0x10);
}

#[test]
fn test_parse_chinese_name() {
    let mut record = build_test_record("测试文件.txt", 7, false, 999, 0, 0x20);
    assert!(apply_fixup(&mut record, 512));
    let entry = parse_record(&record).expect("parse_record should return Some");
    assert_eq!(entry.name, "测试文件.txt");
    assert_eq!(entry.parent_record, 7);
}

#[test]
fn test_parse_invalid_magic() {
    let mut buf = vec![0u8; 1024];
    buf[0..4].copy_from_slice(b"BAAD");
    let _ = apply_fixup(&mut buf, 512);
    assert!(parse_record(&buf).is_none());
}

#[test]
fn test_parse_too_short() {
    let buf = vec![0u8; 10];
    assert!(parse_record(&buf).is_none());
}

#[test]
fn test_apply_fixup_usn_mismatch() {
    let mut buf = vec![0u8; 1024];
    buf[0..4].copy_from_slice(b"FILE");
    put_u16(&mut buf, 4, 0x30);
    put_u16(&mut buf, 6, 2);
    put_u16(&mut buf, 0x30, 0x1234); // USN
    put_u16(&mut buf, 510, 0x5678);
    assert!(!apply_fixup(&mut buf, 512));
}

#[test]
fn test_apply_fixup_usn_match() {
    let mut buf = vec![0u8; 1024];
    buf[0..4].copy_from_slice(b"FILE");
    put_u16(&mut buf, 4, 0x30);
    put_u16(&mut buf, 6, 2);
    put_u16(&mut buf, 0x30, 0x1234); // USN
    put_u16(&mut buf, 510, 0x1234);
    put_u16(&mut buf, 0x32, 0xABCD);
    assert!(apply_fixup(&mut buf, 512));
    let restored = u16::from_le_bytes([buf[510], buf[511]]);
    assert_eq!(restored, 0xABCD);
}

#[test]
fn test_parse_multiple_records_no_loss() {
    let records_data = vec![
        ("file_a.txt", 5u64, false, 100u64, 132_000_000_000_000_000u64, 0x20u32),
        ("file_b.log", 5, false, 200, 132_100_000_000_000_000, 0x20),
        ("subdir", 5, true, 0, 132_200_000_000_000_000, 0x10),
        ("file_c.bin", 5, false, 300, 132_300_000_000_000_000, 0xA0),
    ];
    let mut parsed_count = 0;
    for (name, parent, is_dir, size, mft, attrs) in &records_data {
        let mut rec = build_test_record(name, *parent, *is_dir, *size, *mft, *attrs);
        assert!(apply_fixup(&mut rec, 512), "fixup failed for {}", name);
        let entry = parse_record(&rec).expect(&format!("parse failed for {}", name));
        assert_eq!(entry.name, *name);
        assert_eq!(entry.parent_record, *parent);
        assert_eq!(entry.is_dir, *is_dir);
        assert_eq!(entry.real_size, *size);
        assert_eq!(entry.modified_ft, *mft);
        assert_eq!(entry.attributes, *attrs);
        parsed_count += 1;
    }
    assert_eq!(parsed_count, records_data.len(), "应该解析出全部记录");
}

/// Without `$DATA` in the base record the size comes from `$FILE_NAME`.
#[test]
fn test_real_size_fallback_from_file_name() {
    let mut buf = vec![0u8; 1024];
    buf[0..4].copy_from_slice(b"FILE");
    put_u16(&mut buf, 4, 0x30); // usa_offset
    put_u16(&mut buf, 6, 1); // usa_count = 1
    put_u16(&mut buf, 0x30, 0x0001); // USN
    put_u16(&mut buf, 22, 0x01); // flags: in_use, not dir
    put_u16(&mut buf, 20, 0x38); // first_attr_offset
    put_u64(&mut buf, 32, 0); // base_record_ref = 0

    let mut off = 0x38usize;

    let std_len: usize = 0x48;
    let std_total: usize = 24 + std_len;
    put_u32(&mut buf, off, ATTR_STANDARD_INFORMATION);
    put_u32(&mut buf, off + 4, std_total as u32);
    buf[off + 8] = 0;
    put_u32(&mut buf, off + 16, std_len as u32);
    put_u16(&mut buf, off + 20, 24);
    off += std_total;

    let expected_size: u64 = 214_281_216;
    let name = "Hermes.exe";
    let name_u16: Vec<u16> = name.encode_utf16().collect();
    let name_bytes_len = name_u16.len() * 2;
    let fn_content_len: usize = 66 + name_bytes_len;
    let fn_total: usize = (24 + fn_content_len + 7) & !7;
    put_u32(&mut buf, off, ATTR_FILE_NAME);
    put_u32(&mut buf, off + 4, fn_total as u32);
    buf[off + 8] = 0;
    put_u32(&mut buf, off + 16, fn_content_len as u32);
    put_u16(&mut buf, off + 20, 24);
    let fn_off = off + 24;
    put_u64(&mut buf, fn_off + 0, 5); // parent = root (5)
    // AllocatedSize at +40
    put_u64(&mut buf, fn_off + 40, expected_size);
    put_u64(&mut buf, fn_off + 48, expected_size);
    // Flags at +56
    put_u32(&mut buf, fn_off + 56, 0x20); // ARCHIVE
    put_u32(&mut buf, fn_off + 60, 0);
    buf[fn_off + 64] = name_u16.len() as u8;
    buf[fn_off + 65] = 1; // ns = WIN32
    for (i, &c) in name_u16.iter().enumerate() {
        put_u16(&mut buf, fn_off + 66 + i * 2, c);
    }
    off += fn_total;

    put_u32(&mut buf, off, ATTR_END);
    put_u32(&mut buf, off + 4, 0);

    // apply_fixup + parse
    assert!(apply_fixup(&mut buf, 512));
    let entry = parse_record(&buf).expect("parse should succeed");
    assert_eq!(entry.name, "Hermes.exe");
    assert_eq!(
        entry.real_size, expected_size,
        "real_size 应该从 $FILE_NAME 的 RealSize fallback 拿到，而不是 0"
    );
}

/// The long name wins over the short one, though the short one stands first.
#[test]
fn test_filename_prefers_win32_over_dos() {
    let mut buf = vec![0u8; 1024];
    buf[0..4].copy_from_slice(b"FILE");
    put_u16(&mut buf, 4, 0x30);
    put_u16(&mut buf, 6, 1);
    put_u16(&mut buf, 0x30, 0x0001);
    put_u16(&mut buf, 22, 0x03); // flags: in_use + directory
    put_u16(&mut buf, 20, 0x38);
    put_u64(&mut buf, 32, 0);

    let mut off = 0x38usize;

    let dos_name = "PROGRA~1";
    let dos_u16: Vec<u16> = dos_name.encode_utf16().collect();
    let dos_bytes = dos_u16.len() * 2;
    let dos_content = 66 + dos_bytes;
    let dos_total = (24 + dos_content + 7) & !7;
    put_u32(&mut buf, off, ATTR_FILE_NAME);
    put_u32(&mut buf, off + 4, dos_total as u32);
    buf[off + 8] = 0;
    put_u32(&mut buf, off + 16, dos_content as u32);
    put_u16(&mut buf, off + 20, 24);
    let dos_off = off + 24;
    put_u64(&mut buf, dos_off + 0, 5);
    put_u64(&mut buf, dos_off + 48, 0);
    buf[dos_off + 64] = dos_u16.len() as u8;
    buf[dos_off + 65] = 2; // ns = DOS
    for (i, &c) in dos_u16.iter().enumerate() {
        put_u16(&mut buf, dos_off + 66 + i * 2, c);
    }
    off += dos_total;

    let win_name = "Program Files";
    let win_u16: Vec<u16> = win_name.encode_utf16().collect();
    let win_bytes = win_u16.len() * 2;
    let win_content = 66 + win_bytes;
    let win_total = (24 + win_content + 7) & !7;
    put_u32(&mut buf, off, ATTR_FILE_NAME);
    put_u32(&mut buf, off + 4, win_total as u32);
    buf[off + 8] = 0;
    put_u32(&mut buf, off + 16, win_content as u32);
    put_u16(&mut buf, off + 20, 24);
    let win_off = off + 24;
    put_u64(&mut buf, win_off + 0, 5);
    put_u64(&mut buf, win_off + 48, 0);
    buf[win_off + 64] = win_u16.len() as u8;
    buf[win_off + 65] = 1; // ns = WIN32
    for (i, &c) in win_u16.iter().enumerate() {
        put_u16(&mut buf, win_off + 66 + i * 2, c);
    }
    off += win_total;

    put_u32(&mut buf, off, ATTR_END);
    put_u32(&mut buf, off + 4, 0);

    assert!(apply_fixup(&mut buf, 512));
    let entry = parse_record(&buf).expect("parse should succeed");
    assert_eq!(
        entry.name, "Program Files",
        "应该选 WIN32 长名，不是 DOS 8.3 短名 PROGRA~1"
    );
}
