//! Reading a whole MFT: from its raw records to the tree of the volume.
//!
//! First every record is taken in: what its attributes say is gathered under the number of the
//! file's base record, so an extension record adds to the file that it extends, and every name
//! is filed under its parent directory. Then the tree is built from the root directory down.
use vstd::prelude::*;
use std::collections::HashMap;

use crate::bytes::{fits, read_u16, read_u16s, read_u32, read_u64};
#[allow(unused_imports)]
use crate::bytes::{le16, le16s, le32, le64};
use crate::mft_parse::{
    check_attribute, check_file_record, restore_sector_ends, ATTR_DATA, ATTR_FILE_NAME,
    ATTR_STANDARD_INFORMATION,
};
#[allow(unused_imports)]
use crate::mft_parse::{
    attribute_offsets, first_attribute, fixed_up, has_value_header, is_file_record, is_resident,
    record_in_use, record_is_dir, record_number, usa_in_record, value_len, value_start,
};
use crate::text::same_text;
#[allow(unused_imports)]
use crate::text::utf16_lossy;
use crate::wide::from_wide;

verus! {

use crate::mft_parse::{
    at_sector_end, clear_of_sector_ends, law_fixup_restores_sector_ends, sector_end, sector_end_matches,
};
use crate::bytes::{holds, law_written_u32_is_read, law_written_u64_is_read, le_bytes};

broadcast use vstd::std_specs::hash::group_hash_axioms;

/// NTFS keeps the root directory in this record.
pub const NTFS_ROOT_RECORD: u64 = 5;

/// Records below this number are files that NTFS keeps for itself.
pub const NTFS_RESERVED_MAX: u64 = 16;

pub const ATTR_REPARSE_POINT: u32 = 0xC0;

pub const FILE_ATTRIBUTE_DIRECTORY: u32 = 0x10;

pub const FILE_ATTRIBUTE_NORMAL: u32 = 0x80;

pub const FILE_ATTRIBUTE_COMPRESSED: u32 = 0x800;

/// The reparse tag of files that the system keeps compressed.
pub const IO_REPARSE_TAG_WOF: u32 = 0x80000017;

/// Why a volume could not be read.
#[derive(Debug)]
pub struct MftError(pub String);

impl MftError {
    /// The reason, as text.
    pub fn message(&self) -> (r: &String)
        ensures
            r@ == self.0@,
    {
        &self.0
    }
}

/// What all the records of a file say about it.
#[derive(Clone, Copy, Debug)]
pub struct FileRecordBase {
    pub logical_size: u64,
    pub physical_size: u64,
    pub last_modified_ft: u64,
    pub created_ft: u64,
    pub accessed_ft: u64,
    pub attributes: u32,
    pub reparse_tag: u32,
}

/// A file about which nothing is known yet.
pub open spec fn unknown_file() -> FileRecordBase {
    FileRecordBase {
        logical_size: 0,
        physical_size: 0,
        last_modified_ft: 0,
        created_ft: 0,
        accessed_ft: 0,
        attributes: 0,
        reparse_tag: 0,
    }
}

impl Default for FileRecordBase {
    fn default() -> (b: Self)
        ensures
            b == unknown_file(),
    {
        FileRecordBase {
            logical_size: 0,
            physical_size: 0,
            last_modified_ft: 0,
            created_ft: 0,
            accessed_ft: 0,
            attributes: 0,
            reparse_tag: 0,
        }
    }
}

/// One name of a file, as its parent directory lists it.
#[derive(Debug, Clone)]
pub struct FileRecordName {
    pub name: String,
    pub base_record: u64,
}

/// The mathematical content of a [`FileRecordName`].
pub struct Listed {
    pub name: Seq<char>,
    pub base_record: u64,
}

impl View for FileRecordName {
    type V = Listed;

    open spec fn view(&self) -> Listed {
        Listed { name: self.name@, base_record: self.base_record }
    }
}

/// What has been taken in of a volume.
pub struct NtfsContext {
    /// By the number of its base record, what is known of a file.
    pub base_file_records: HashMap<u64, FileRecordBase>,
    /// By the record number of a directory, the names in it.
    pub parent_to_children: HashMap<u64, Vec<FileRecordName>>,
    pub bytes_per_cluster: u32,
    pub bytes_per_record: u32,
}

/// The mathematical content of an [`NtfsContext`].
#[verifier::ext_equal]
pub struct Volume {
    pub files: Map<u64, FileRecordBase>,
    pub listings: Map<u64, Seq<Listed>>,
}

/// The names in a directory, in order.
pub open spec fn listing(v: Seq<FileRecordName>) -> Seq<Listed> {
    Seq::new(v.len(), |i: int| v[i]@)
}

impl View for NtfsContext {
    type V = Volume;

    open spec fn view(&self) -> Volume {
        Volume {
            files: self.base_file_records@,
            listings: self.parent_to_children@.map_values(|v: Vec<FileRecordName>| listing(v@)),
        }
    }
}

impl NtfsContext {
    /// A volume of which nothing has been taken in.
    pub fn new(bytes_per_cluster: u32, bytes_per_record: u32) -> (c: Self)
        ensures
            c@ == (Volume { files: Map::empty(), listings: Map::empty() }),
            c.bytes_per_cluster == bytes_per_cluster,
            c.bytes_per_record == bytes_per_record,
    {
        let c = NtfsContext {
            base_file_records: HashMap::new(),
            parent_to_children: HashMap::new(),
            bytes_per_cluster,
            bytes_per_record,
        };
        assert(c@.listings =~= Map::<u64, Seq<Listed>>::empty());
        c
    }
}

// ---------------------------------------------------------------------------------------------
// One record
// ---------------------------------------------------------------------------------------------

/// `n` rounded up to a multiple of 8: the room that a value inside a record takes.
pub open spec fn rounded_up_to_8(n: int) -> u64 {
    ((n + 7) / 8 * 8) as u64
}

/// What the `$STANDARD_INFORMATION` at `off` makes of a file's attributes.
pub open spec fn marked_attributes(attributes: u32, is_dir: bool) -> u32 {
    let a = if is_dir {
        attributes | FILE_ATTRIBUTE_DIRECTORY
    } else {
        attributes
    };
    if a == 0 {
        FILE_ATTRIBUTE_NORMAL
    } else {
        a
    }
}

/// Whether `off` starts a `$STANDARD_INFORMATION` that holds times and attributes.
pub open spec fn is_std_info(r: Seq<u8>, off: int) -> bool {
    &&& le32(r, off) == ATTR_STANDARD_INFORMATION
    &&& is_resident(r, off)
    &&& has_value_header(r, off)
    &&& value_len(r, off) >= 0x24
    &&& value_start(r, off) + 0x24 <= r.len()
}

/// Whether `off` starts a `$REPARSE_POINT` that holds a tag.
pub open spec fn is_reparse_point(r: Seq<u8>, off: int) -> bool {
    &&& le32(r, off) == ATTR_REPARSE_POINT
    &&& is_resident(r, off)
    &&& has_value_header(r, off)
    &&& value_start(r, off) + 4 <= r.len()
}

/// The name of the stream whose `$DATA` starts at `off`, if all of it lies in the record.
pub open spec fn stream_name(r: Seq<u8>, off: int) -> Option<Seq<char>> {
    let start = off + le16(r, off + 10);
    let chars = r[off + 9] as nat;
    if start + 2 * chars <= r.len() {
        Some(utf16_lossy(le16s(r, start, chars)))
    } else {
        None
    }
}

/// Whether the `$DATA` at `off`, kept outside the record, is the one that starts the stream.
pub open spec fn starts_stream(r: Seq<u8>, off: int) -> bool {
    off + 24 <= r.len() && le64(r, off + 16) == 0
}

/// What the `$DATA` at `off` says of the file `b`.
///
/// A stream kept in the record takes up its length, rounded up. Of a stream kept outside, the
/// first part says how long it is and how much room it has; the room of a compressed or sparse
/// one is kept elsewhere. The stream of compressed system files counts for the room only, and
/// every other named stream for nothing.
pub open spec fn with_data(r: Seq<u8>, off: int, b: FileRecordBase) -> FileRecordBase {
    if r[off + 9] > 0 {
        if stream_name(r, off) != Some("WofCompressedData"@) {
            b
        } else if is_resident(r, off) {
            if off + 20 <= r.len() {
                FileRecordBase { physical_size: rounded_up_to_8(le32(r, off + 16) as int), ..b }
            } else {
                b
            }
        } else if starts_stream(r, off) && off + 0x30 <= r.len() {
            FileRecordBase { physical_size: le64(r, off + 0x28), ..b }
        } else {
            b
        }
    } else if is_resident(r, off) {
        if off + 20 <= r.len() {
            FileRecordBase {
                logical_size: le32(r, off + 16) as u64,
                physical_size: rounded_up_to_8(le32(r, off + 16) as int),
                ..b
            }
        } else {
            b
        }
    } else if starts_stream(r, off) && off + 0x38 <= r.len() {
        let flags = le16(r, off + 12);
        let room = if flags & 0x0001 != 0 || flags & 0x8000 != 0 {
            if off + 0x48 <= r.len() {
                le64(r, off + 0x40)
            } else {
                0
            }
        } else {
            le64(r, off + 0x28)
        };
        FileRecordBase {
            logical_size: le64(r, off + 0x30),
            physical_size: if room > 0 {
                room
            } else {
                b.physical_size
            },
            ..b
        }
    } else {
        b
    }
}

/// What the attribute at `off` says of the file `b`.
pub open spec fn with_attribute(r: Seq<u8>, is_dir: bool, off: int, b: FileRecordBase) -> FileRecordBase {
    let start = value_start(r, off);
    if is_std_info(r, off) {
        FileRecordBase {
            created_ft: le64(r, start),
            last_modified_ft: le64(r, start + 0x08),
            accessed_ft: le64(r, start + 0x18),
            attributes: marked_attributes(le32(r, start + 0x20), is_dir),
            ..b
        }
    } else if le32(r, off) == ATTR_DATA {
        with_data(r, off, b)
    } else if is_reparse_point(r, off) {
        FileRecordBase {
            reparse_tag: le32(r, start),
            attributes: if le32(r, start) == IO_REPARSE_TAG_WOF {
                b.attributes | FILE_ATTRIBUTE_COMPRESSED
            } else {
                b.attributes
            },
            ..b
        }
    } else {
        b
    }
}

/// What the attributes at `offs` say of the file `b`, one after the other.
pub open spec fn with_attributes(r: Seq<u8>, is_dir: bool, offs: Seq<int>, b: FileRecordBase) -> FileRecordBase
    decreases offs.len(),
{
    if offs.len() == 0 {
        b
    } else {
        with_attribute(r, is_dir, offs.last(), with_attributes(r, is_dir, offs.drop_last(), b))
    }
}

/// The parent directory and the name, if `off` starts a `$FILE_NAME` to be listed. Short (8.3)
/// names, `.` and `..` are not listed.
pub open spec fn listed_at(r: Seq<u8>, off: int) -> Option<(u64, Seq<char>)> {
    let start = value_start(r, off);
    let chars = r[start + 0x40] as nat;
    let name = utf16_lossy(le16s(r, start + 0x42, chars));
    if le32(r, off) == ATTR_FILE_NAME && is_resident(r, off) && has_value_header(r, off) && value_len(r, off)
        >= 0x42 && start + 0x42 <= r.len() && r[start + 0x41] != 2 && chars > 0 && start + 0x42 + 2 * chars
        <= r.len() && name != "."@ && name != ".."@ {
        Some((record_number(le64(r, start)), name))
    } else {
        None
    }
}

/// `m` with `e` added at the end of the listing of `parent`.
pub open spec fn with_listed(m: Map<u64, Seq<Listed>>, parent: u64, e: Listed) -> Map<u64, Seq<Listed>> {
    m.insert(
        parent,
        (if m.contains_key(parent) {
            m[parent]
        } else {
            Seq::empty()
        }).push(e),
    )
}

/// `m` with the names at `offs` listed, in order, as names of file `base`.
pub open spec fn with_names(r: Seq<u8>, offs: Seq<int>, base: u64, m: Map<u64, Seq<Listed>>) -> Map<
    u64,
    Seq<Listed>,
>
    decreases offs.len(),
{
    if offs.len() == 0 {
        m
    } else {
        let before = with_names(r, offs.drop_last(), base, m);
        match listed_at(r, offs.last()) {
            Some((parent, name)) => with_listed(before, parent, Listed { name, base_record: base }),
            None => before,
        }
    }
}

/// The bytes of a record once its update sequence is undone, and whether they can be used. A
/// record whose array is missing or does not fit is used as it is.
pub open spec fn usable_bytes(r: Seq<u8>) -> (Seq<u8>, bool) {
    if usa_in_record(r) {
        fixed_up(r, 512)
    } else {
        (r, true)
    }
}

/// The number of the base record of the file that record `r`, number `current`, belongs to.
pub open spec fn base_index(r: Seq<u8>, current: u64) -> u64 {
    if le64(r, 32) > 0 {
        record_number(le64(r, 32))
    } else {
        current
    }
}

/// The volume once record number `current`, with the bytes `r`, is taken in.
pub open spec fn with_record(v: Volume, r: Seq<u8>, current: u64) -> Volume {
    if !is_file_record(r) || !usable_bytes(r).1 || !record_in_use(r) {
        v
    } else {
        let u = usable_bytes(r).0;
        let base = base_index(r, current);
        let offs = attribute_offsets(u, first_attribute(r));
        let known = if v.files.contains_key(base) {
            v.files[base]
        } else {
            unknown_file()
        };
        Volume {
            files: v.files.insert(base, with_attributes(u, record_is_dir(r), offs, known)),
            listings: with_names(u, offs, base, v.listings),
        }
    }
}

fn round_up_to_8(n: u32) -> (r: u64)
    ensures
        r == rounded_up_to_8(n as int),
{
    (n as u64 + 7) / 8 * 8
}

fn read_stream_name(rec: &[u8], off: usize) -> (res: Option<String>)
    requires
        off + 16 <= rec.len(),
    ensures
        match res {
            Some(s) => stream_name(rec@, off as int) == Some(s@),
            None => stream_name(rec@, off as int) is None,
        },
{
    let name_off: usize = read_u16(rec, off + 10) as usize;
    let chars: usize = rec[off + 9] as usize;
    let len: usize = rec.len();
    if !fits(len, off, name_off) || !fits(len, off + name_off, 2 * chars) {
        return None;
    }
    let units = read_u16s(rec, off + name_off, chars);
    Some(from_wide(units.as_slice()))
}

fn take_in_data(rec: &[u8], off: usize, b: FileRecordBase) -> (res: FileRecordBase)
    requires
        off + 16 <= rec.len(),
    ensures
        res == with_data(rec@, off as int, b),
{
    let len: usize = rec.len();
    let resident: bool = rec[off + 8] == 0;
    if rec[off + 9] > 0 {
        let wof: bool = match read_stream_name(rec, off) {
            Some(name) => same_text(name.as_str(), "WofCompressedData"),
            None => false,
        };
        if !wof {
            return b;
        }
        if resident {
            if fits(len, off, 20) {
                return FileRecordBase { physical_size: round_up_to_8(read_u32(rec, off + 16)), ..b };
            }
        } else if fits(len, off, 0x30) && read_u64(rec, off + 16) == 0 {
            return FileRecordBase { physical_size: read_u64(rec, off + 0x28), ..b };
        }
        return b;
    }
    if resident {
        if fits(len, off, 20) {
            let n: u32 = read_u32(rec, off + 16);
            return FileRecordBase { logical_size: n as u64, physical_size: round_up_to_8(n), ..b };
        }
    } else if fits(len, off, 0x38) && read_u64(rec, off + 16) == 0 {
        let flags: u16 = read_u16(rec, off + 12);
        let room: u64 = if flags & 0x0001 != 0 || flags & 0x8000 != 0 {
            if fits(len, off, 0x48) {
                read_u64(rec, off + 0x40)
            } else {
                0
            }
        } else {
            read_u64(rec, off + 0x28)
        };
        return FileRecordBase {
            logical_size: read_u64(rec, off + 0x30),
            physical_size: if room > 0 {
                room
            } else {
                b.physical_size
            },
            ..b
        };
    }
    b
}

fn take_in_attribute(rec: &[u8], is_dir: bool, off: usize, b: FileRecordBase) -> (res: FileRecordBase)
    requires
        off + 16 <= rec.len(),
    ensures
        res == with_attribute(rec@, is_dir, off as int, b),
{
    let len: usize = rec.len();
    let kind: u32 = read_u32(rec, off);
    if kind == ATTR_DATA {
        return take_in_data(rec, off, b);
    }
    if rec[off + 8] != 0 || !fits(len, off, 22) {
        return b;
    }
    let value_off: usize = read_u16(rec, off + 20) as usize;
    if !fits(len, off, value_off) {
        return b;
    }
    let start: usize = off + value_off;
    if kind == ATTR_STANDARD_INFORMATION {
        if fits(len, start, 0x24) && read_u32(rec, off + 16) >= 0x24 {
            let found: u32 = read_u32(rec, start + 0x20);
            let marked: u32 = if is_dir {
                found | FILE_ATTRIBUTE_DIRECTORY
            } else {
                found
            };
            return FileRecordBase {
                created_ft: read_u64(rec, start),
                last_modified_ft: read_u64(rec, start + 0x08),
                accessed_ft: read_u64(rec, start + 0x18),
                attributes: if marked == 0 {
                    FILE_ATTRIBUTE_NORMAL
                } else {
                    marked
                },
                ..b
            };
        }
    } else if kind == ATTR_REPARSE_POINT {
        if fits(len, start, 4) {
            let tag: u32 = read_u32(rec, start);
            return FileRecordBase {
                reparse_tag: tag,
                attributes: if tag == IO_REPARSE_TAG_WOF {
                    b.attributes | FILE_ATTRIBUTE_COMPRESSED
                } else {
                    b.attributes
                },
                ..b
            };
        }
    }
    b
}

fn read_listed(rec: &[u8], off: usize) -> (res: Option<(u64, String)>)
    requires
        off + 16 <= rec.len(),
    ensures
        match res {
            Some((parent, name)) => listed_at(rec@, off as int) == Some((parent, name@)),
            None => listed_at(rec@, off as int) is None,
        },
{
    let len: usize = rec.len();
    if read_u32(rec, off) != ATTR_FILE_NAME || rec[off + 8] != 0 || !fits(len, off, 22) {
        return None;
    }
    let value_off: usize = read_u16(rec, off + 20) as usize;
    if read_u32(rec, off + 16) < 0x42 || !fits(len, off, value_off) || !fits(len, off + value_off, 0x42) {
        return None;
    }
    let start: usize = off + value_off;
    let chars: usize = rec[start + 0x40] as usize;
    if rec[start + 0x41] == 2 || chars == 0 || !fits(len, start + 0x42, 2 * chars) {
        return None;
    }
    let units = read_u16s(rec, start + 0x42, chars);
    let name = from_wide(units.as_slice());
    if same_text(name.as_str(), ".") || same_text(name.as_str(), "..") {
        return None;
    }
    Some((read_u64(rec, start) % 0x1_0000_0000_0000, name))
}

fn add_listed(m: &mut HashMap<u64, Vec<FileRecordName>>, parent: u64, name: String, base: u64)
    ensures
        final(m)@.map_values(|v: Vec<FileRecordName>| listing(v@)) == with_listed(
            old(m)@.map_values(|v: Vec<FileRecordName>| listing(v@)),
            parent,
            (Listed { name: name@, base_record: base }),
        ),
{
    let ghost before = m@;
    let ghost f = |v: Vec<FileRecordName>| listing(v@);
    let ghost e = Listed { name: name@, base_record: base };
    let names = m.entry(parent).or_insert(Vec::new());
    let ghost had = names@;
    names.push(FileRecordName { name, base_record: base });
    proof {
        let now = m@[parent]@;
        assert(listing(now) =~= listing(had).push(e));
        assert(!before.contains_key(parent) ==> listing(had) =~= Seq::<Listed>::empty());
        assert(m@.map_values(f) =~= with_listed(before.map_values(f), parent, e));
    }
}

/// Takes in one MFT record: undoes its update sequence and gathers what its attributes say.
/// A record that is no FILE record, is not in use, or whose sector ends do not match is skipped.
pub fn process_record(rec: &mut [u8], current_record: u64, ctx: &mut NtfsContext)
    ensures
        final(ctx)@ == with_record(old(ctx)@, old(rec)@, current_record),
        final(ctx).bytes_per_cluster == old(ctx).bytes_per_cluster,
        final(ctx).bytes_per_record == old(ctx).bytes_per_record,
        final(rec)@ == (if is_file_record(old(rec)@) {
            usable_bytes(old(rec)@).0
        } else {
            old(rec)@
        }),
{
    let ghost r = rec@;
    if !check_file_record(rec) {
        return;
    }
    let usa: usize = read_u16(rec, 4) as usize;
    let count: usize = read_u16(rec, 6) as usize;
    let flags: u16 = read_u16(rec, 22);
    let is_dir: bool = (flags / 2) % 2 == 1;
    let first: usize = read_u16(rec, 20) as usize;
    let base_ref: u64 = read_u64(rec, 32);
    let base: u64 = if base_ref > 0 {
        base_ref % 0x1_0000_0000_0000
    } else {
        current_record
    };
    if count > 0 && fits(rec.len(), usa, 2 * count) {
        if !restore_sector_ends(rec, 512) {
            return;
        }
    }
    let ghost u = rec@;
    assert(usable_bytes(r) == (u, true));
    if flags % 2 != 1 {
        return;
    }
    let mut known: FileRecordBase = match ctx.base_file_records.get(&base) {
        Some(b) => *b,
        None => FileRecordBase::default(),
    };
    let ghost known0 = known;
    let ghost listings0 = ctx@.listings;
    let ghost f = |v: Vec<FileRecordName>| listing(v@);
    let ghost mut seen: Seq<int> = Seq::empty();
    let mut off: usize = first;
    while check_attribute(rec, off)
        invariant
            rec@ == u,
            f == (|v: Vec<FileRecordName>| listing(v@)),
            ctx.base_file_records@ == old(ctx).base_file_records@,
            ctx.bytes_per_cluster == old(ctx).bytes_per_cluster,
            ctx.bytes_per_record == old(ctx).bytes_per_record,
            attribute_offsets(u, first as int) =~= seen + attribute_offsets(u, off as int),
            known == with_attributes(u, is_dir, seen, known0),
            ctx.parent_to_children@.map_values(f) == with_names(u, seen, base, listings0),
        decreases rec@.len() - off,
    {
        proof {
            assert(seen.push(off as int).drop_last() =~= seen);
            assert(seen.push(off as int).last() == off as int);
        }
        known = take_in_attribute(rec, is_dir, off, known);
        if let Some((parent, name)) = read_listed(rec, off) {
            add_listed(&mut ctx.parent_to_children, parent, name, base);
        }
        let len: u32 = read_u32(rec, off + 4);
        proof {
            seen = seen.push(off as int);
        }
        off = off + len as usize;
    }
    assert(attribute_offsets(u, first as int) =~= seen);
    ctx.base_file_records.insert(base, known);
    assert(ctx@.listings =~= with_names(u, seen, base, listings0));
    assert(ctx@ =~= with_record(old(ctx)@, r, current_record));
}

/// Taking in a record changes what is known of one file at most, and listings only get longer.
pub proof fn law_record_adds_to_one_file(v: Volume, r: Seq<u8>, current: u64)
    ensures
        ({
            let w = with_record(v, r, current);
            let base = base_index(r, current);
            &&& w.files.remove(base) == v.files.remove(base)
            &&& forall|d: u64| #[trigger]
                v.listings.contains_key(d) ==> w.listings.contains_key(d) && v.listings[d].is_prefix_of(
                    w.listings[d],
                )
        }),
{
    let w = with_record(v, r, current);
    let base = base_index(r, current);
    assert(w.files.remove(base) =~= v.files.remove(base));
    let u = usable_bytes(r).0;
    let offs = attribute_offsets(u, first_attribute(r));
    assert forall|d: u64| #[trigger] v.listings.contains_key(d) implies w.listings.contains_key(d)
        && v.listings[d].is_prefix_of(w.listings[d]) by {
        lemma_names_only_added(u, offs, base, v.listings, d);
    }
}

proof fn lemma_names_only_added(r: Seq<u8>, offs: Seq<int>, base: u64, m: Map<u64, Seq<Listed>>, d: u64)
    requires
        m.contains_key(d),
    ensures
        with_names(r, offs, base, m).contains_key(d),
        m[d].is_prefix_of(with_names(r, offs, base, m)[d]),
    decreases offs.len(),
{
    if offs.len() > 0 {
        lemma_names_only_added(r, offs.drop_last(), base, m, d);
        let before = with_names(r, offs.drop_last(), base, m)[d];
        let after = with_names(r, offs, base, m)[d];
        assert(m[d] =~= before.subrange(0, m[d].len() as int));
        assert(after.subrange(0, m[d].len() as int) =~= before.subrange(0, m[d].len() as int));
    }
}

// ---------------------------------------------------------------------------------------------
// The runs of the MFT on disk
// ---------------------------------------------------------------------------------------------

/// The volume once the records in `chunk[off..end]` are taken in, each of `size` bytes. The chunk
/// starts `start` bytes into the MFT. What is left over at the end is not a whole record.
pub open spec fn with_chunk(v: Volume, chunk: Seq<u8>, end: int, size: int, start: int, off: int) -> Volume
    decreases end - off,
{
    if size <= 0 || off + size > end {
        v
    } else {
        with_chunk(
            with_record(v, chunk.subrange(off, off + size), ((start + off) / size) as u64),
            chunk,
            end,
            size,
            start,
            off + size,
        )
    }
}

/// Takes in every whole record in the first `end` bytes of `chunk`, which starts `start` bytes
/// into the MFT, and says how many there were.
pub fn process_chunk(chunk: &[u8], end: usize, record_size: usize, start: u64, ctx: &mut NtfsContext) -> (n: u64)
    requires
        end <= chunk.len(),
        record_size > 0,
        start + end <= u64::MAX,
    ensures
        final(ctx)@ == with_chunk(old(ctx)@, chunk@, end as int, record_size as int, start as int, 0),
        final(ctx).bytes_per_cluster == old(ctx).bytes_per_cluster,
        final(ctx).bytes_per_record == old(ctx).bytes_per_record,
        n == end / record_size,
{
    let mut off: usize = 0;
    let mut n: u64 = 0;
    let ghost goal = with_chunk(ctx@, chunk@, end as int, record_size as int, start as int, 0);
    while record_size <= end - off
        invariant
            off <= end <= chunk@.len(),
            end <= chunk.len(),
            record_size > 0,
            start + end <= u64::MAX,
            off == n * record_size,
            n <= off,
            ctx.bytes_per_cluster == old(ctx).bytes_per_cluster,
            ctx.bytes_per_record == old(ctx).bytes_per_record,
            with_chunk(ctx@, chunk@, end as int, record_size as int, start as int, off as int) == goal,
        decreases end - off,
    {
        let part = vstd::slice::slice_subrange(chunk, off, off + record_size);
        let mut rec: Vec<u8> = vstd::slice::slice_to_vec(part);
        let number: u64 = (start + off as u64) / (record_size as u64);
        process_record(rec.as_mut_slice(), number, ctx);
        assert((n + 1) * record_size == off + record_size) by (nonlinear_arith)
            requires
                off == n * record_size,
        ;
        off = off + record_size;
        n = n + 1;
    }
    assert(n == end / record_size) by (nonlinear_arith)
        requires
            off == n * record_size,
            off <= end,
            end - off < record_size,
            record_size > 0,
    ;
    n
}

/// Whether the number of records seen has just passed a multiple of 50000, or is within one chunk
/// of it.
pub fn progress_is_due(records_processed: u64, bytes_read: usize, record_size: usize) -> (r: bool)
    requires
        record_size > 0,
    ensures
        r == (records_processed % 50_000 < bytes_read / record_size),
{
    records_processed % 50_000 < (bytes_read / record_size) as u64
}

/// A stretch of the MFT: the first cluster of the file that it holds, where it starts on disk, and
/// how many clusters it has.
pub type MftRun = (u64, i64, u64);

/// How much is read at a time.
pub const CHUNK_SIZE: usize = 4 * 1024 * 1024;

/// A stretch of the MFT while it is being read.
pub struct RunReader {
    /// Where on the volume the next byte is.
    pub file_offset: i64,
    /// Where in the MFT the next byte is.
    pub mft_offset: u64,
    /// How many bytes are left.
    pub remaining: u64,
}

/// Whether all places in a run can be numbered.
pub open spec fn run_fits(run: MftRun, cluster_size: u32) -> bool {
    &&& run.2 * cluster_size <= u64::MAX
    &&& run.0 * cluster_size + run.2 * cluster_size <= u64::MAX
    &&& i64::MIN <= run.1 * cluster_size
    &&& run.1 * cluster_size + run.2 * cluster_size <= i64::MAX
}

impl RunReader {
    /// Whether reading to the end keeps all numbers in range.
    pub open spec fn in_range(&self) -> bool {
        &&& self.file_offset + self.remaining <= i64::MAX
        &&& self.mft_offset + self.remaining <= u64::MAX
    }

    /// Starts to read a run. A run whose places cannot be numbered cannot be read.
    pub fn new(run: MftRun, cluster_size: u32) -> (res: Option<RunReader>)
        ensures
            res is Some == run_fits(run, cluster_size),
            match res {
                Some(r) => {
                    &&& r.in_range()
                    &&& r.file_offset == run.1 * cluster_size
                    &&& r.mft_offset == run.0 * cluster_size
                    &&& r.remaining == run.2 * cluster_size
                },
                None => true,
            },
    {
        let size: i128 = cluster_size as i128;
        proof {
            assert(-0x8000_0000_0000_0000 * 0xFFFF_FFFF <= run.1 * size <= 0x7FFF_FFFF_FFFF_FFFF * 0xFFFF_FFFF)
                by (nonlinear_arith)
                requires
                    0 <= size <= 0xFFFF_FFFF,
                    i64::MIN <= run.1 <= i64::MAX,
            ;
            assert(0 <= run.0 * size <= 0xFFFF_FFFF_FFFF_FFFF * 0xFFFF_FFFF) by (nonlinear_arith)
                requires
                    0 <= size <= 0xFFFF_FFFF,
                    0 <= run.0 <= u64::MAX,
            ;
            assert(0 <= run.2 * size <= 0xFFFF_FFFF_FFFF_FFFF * 0xFFFF_FFFF) by (nonlinear_arith)
                requires
                    0 <= size <= 0xFFFF_FFFF,
                    0 <= run.2 <= u64::MAX,
            ;
        }
        let bytes: i128 = run.2 as i128 * size;
        let from: i128 = run.1 as i128 * size;
        let mft: i128 = run.0 as i128 * size;
        if bytes > u64::MAX as i128 || mft + bytes > u64::MAX as i128 || from < i64::MIN as i128 || from + bytes
            > i64::MAX as i128 {
            return None;
        }
        Some(RunReader { file_offset: from as i64, mft_offset: mft as u64, remaining: bytes as u64 })
    }

    /// Where to read next, and how much; nothing once the run is read.
    pub fn next_read(&self) -> (res: Option<(i64, usize)>)
        ensures
            match res {
                Some((at, len)) => {
                    &&& at == self.file_offset
                    &&& len == (if self.remaining < 4 * 1024 * 1024 {
                        self.remaining as int
                    } else {
                        4_194_304
                    })
                    &&& len > 0
                },
                None => self.remaining == 0,
            },
    {
        if self.remaining == 0 {
            None
        } else if self.remaining < CHUNK_SIZE as u64 {
            Some((self.file_offset, self.remaining as usize))
        } else {
            Some((self.file_offset, CHUNK_SIZE))
        }
    }

    /// Moves on by the bytes that were read.
    pub fn advance(&mut self, bytes_read: usize)
        requires
            old(self).in_range(),
            bytes_read <= old(self).remaining,
        ensures
            final(self).in_range(),
            final(self).file_offset == old(self).file_offset + bytes_read,
            final(self).mft_offset == old(self).mft_offset + bytes_read,
            final(self).remaining == old(self).remaining - bytes_read,
    {
        let n: u64 = bytes_read as u64;
        self.file_offset = (self.file_offset as i128 + n as i128) as i64;
        self.mft_offset = self.mft_offset + n;
        self.remaining = self.remaining - n;
    }
}

/// The MFT as one stretch, where nothing more is known than where it starts and how long it is.
pub fn single_run(valid_data_length: i64, start_lcn: i64, cluster_size: u32) -> (r: Vec<MftRun>)
    requires
        cluster_size > 0,
    ensures
        r@ == seq![(0u64, start_lcn, (valid_data_length as u64 / cluster_size as u64) as u64)],
{
    let mut out: Vec<MftRun> = Vec::new();
    out.push((0, start_lcn, valid_data_length as u64 / cluster_size as u64));
    assert(out@ =~= seq![(0u64, start_lcn, (valid_data_length as u64 / cluster_size as u64) as u64)]);
    out
}

/// How many extents the retrieval pointers in `buf` list; none where the buffer is too short to
/// say.
pub open spec fn extent_count(buf: Seq<u8>) -> int {
    if buf.len() < 16 {
        0
    } else {
        le32(buf, 0) as int
    }
}

/// The first cluster of extent `i`: where the one before it ends.
pub open spec fn extent_start(buf: Seq<u8>, i: int) -> u64 {
    if i <= 0 {
        le64(buf, 8)
    } else {
        le64(buf, 16 * i)
    }
}

/// `a - b`, kept within 64 bits.
pub open spec fn wrapping_difference(a: u64, b: u64) -> u64 {
    if a >= b {
        (a - b) as u64
    } else {
        (a - b + 0x1_0000_0000_0000_0000) as u64
    }
}

/// The runs among the first `n` extents: all that are on disk (a sparse one has no place), as far
/// as the buffer goes.
pub open spec fn listed_runs(buf: Seq<u8>, n: int) -> Seq<MftRun>
    decreases n,
{
    if n <= 0 {
        Seq::empty()
    } else {
        let before = listed_runs(buf, n - 1);
        let at = 16 * n;
        if at + 16 <= buf.len() && le64(buf, at + 8) < 0x8000_0000_0000_0000 {
            before.push(
                (
                    extent_start(buf, n - 1),
                    le64(buf, at + 8) as i64,
                    wrapping_difference(le64(buf, at), extent_start(buf, n - 1)),
                ),
            )
        } else {
            before
        }
    }
}

/// Reads a buffer of retrieval pointers: the count of extents, the first cluster, and then for
/// each extent the cluster after its last and its place on disk. Without a single run on disk, an
/// empty run at `mft_start_lcn` stands for them.
pub fn parse_retrieval_pointers(buf: &[u8], mft_start_lcn: i64) -> (runs: Vec<MftRun>)
    ensures
        runs@ == (if listed_runs(buf@, extent_count(buf@)).len() == 0 {
            seq![(0u64, mft_start_lcn, 0u64)]
        } else {
            listed_runs(buf@, extent_count(buf@))
        }),
{
    let len: usize = buf.len();
    let mut runs: Vec<MftRun> = Vec::new();
    if len >= 16 {
        let count: u32 = read_u32(buf, 0);
        let mut start: u64 = read_u64(buf, 8);
        let mut at: usize = 16;
        let mut i: u32 = 0;
        while i < count && fits(len, at, 16)
            invariant
                i <= count,
                len == buf.len(),
                16 <= len,
                count == extent_count(buf@),
                at == 16 * (i + 1),
                i > 0 ==> at <= len,
                start == extent_start(buf@, i as int),
                runs@ == listed_runs(buf@, i as int),
            ensures
                i <= count,
                i == count || at + 16 > len,
                at == 16 * (i + 1),
                runs@ == listed_runs(buf@, i as int),
            decreases count - i,
        {
            let next: u64 = read_u64(buf, at);
            let lcn: u64 = read_u64(buf, at + 8);
            if lcn < 0x8000_0000_0000_0000 {
                let clusters: u64 = if next >= start {
                    next - start
                } else {
                    0xFFFF_FFFF_FFFF_FFFF - start + next + 1
                };
                runs.push((start, lcn as i64, clusters));
            }
            start = next;
            i = i + 1;
            if len - at == 16 {
                // The buffer ends here.
                proof {
                    lemma_no_runs_past_end(buf@, i as int, count as int);
                }
                assert(runs@ == listed_runs(buf@, count as int));
                if runs.len() == 0 {
                    runs.push((0, mft_start_lcn, 0));
                    assert(runs@ =~= seq![(0u64, mft_start_lcn, 0u64)]);
                }
                return runs;
            }
            at = at + 16;
        }
        proof {
            lemma_no_runs_past_end(buf@, i as int, count as int);
        }
    }
    if runs.len() == 0 {
        runs.push((0, mft_start_lcn, 0));
        assert(runs@ =~= seq![(0u64, mft_start_lcn, 0u64)]);
    }
    runs
}

/// Extents that the buffer has no room for add nothing.
proof fn lemma_no_runs_past_end(buf: Seq<u8>, i: int, n: int)
    requires
        0 <= i <= n,
        i == n || 16 * (i + 1) + 16 > buf.len(),
    ensures
        listed_runs(buf, n) == listed_runs(buf, i),
    decreases n - i,
{
    if i < n {
        lemma_no_runs_past_end(buf, i, n - 1);
    }
}

/// What is to be done next while an MFT is read.
pub enum LoadAction {
    /// Read `len` bytes of the volume from `offset` on, and report what came of it.
    Read { offset: i64, len: usize },
    /// Everything has been read.
    Finished,
}

/// The reading of an MFT, run by run and chunk by chunk.
pub struct MftLoader {
    pub ctx: NtfsContext,
    pub runs: Vec<MftRun>,
    /// The first run not yet begun.
    pub next_run: usize,
    /// The run being read.
    pub reader: Option<RunReader>,
    pub records_processed: u64,
}

impl MftLoader {
    /// Whether the numbers of the run being read stay in range.
    pub open spec fn well_formed(&self) -> bool {
        &&& self.next_run <= self.runs@.len()
        &&& self.ctx.bytes_per_record >= 1024
        &&& match self.reader {
            Some(r) => r.in_range(),
            None => true,
        }
    }

    /// Whether there is something in run `i` to be read.
    pub open spec fn worth_reading(&self, i: int) -> bool {
        run_fits(self.runs@[i], self.ctx.bytes_per_cluster) && self.runs@[i].2 * self.ctx.bytes_per_cluster > 0
    }

    /// Whether the run being read has bytes left.
    pub open spec fn run_goes_on(&self) -> bool {
        self.reader matches Some(r) && r.remaining > 0
    }

    /// The start of reading: nothing has been taken in. Records are never taken to be under 1024
    /// bytes.
    pub fn new(bytes_per_cluster: u32, bytes_per_record: u32, runs: Vec<MftRun>) -> (l: Self)
        ensures
            l.well_formed(),
            l.ctx@ == (Volume { files: Map::empty(), listings: Map::empty() }),
            l.ctx.bytes_per_cluster == bytes_per_cluster,
            l.ctx.bytes_per_record == (if bytes_per_record < 1024 {
                1024
            } else {
                bytes_per_record
            }),
            l.runs == runs,
            l.next_run == 0,
            l.reader is None,
            l.records_processed == 0,
    {
        let record: u32 = if bytes_per_record < 1024 {
            1024
        } else {
            bytes_per_record
        };
        MftLoader {
            ctx: NtfsContext::new(bytes_per_cluster, record),
            runs,
            next_run: 0,
            reader: None,
            records_processed: 0,
        }
    }

    /// What is to be done next: the run being read is read to its end; then the next run that has
    /// anything to be read is begun.
    pub fn next_action(&mut self) -> (action: LoadAction)
        requires
            old(self).well_formed(),
        ensures
            final(self).well_formed(),
            final(self).ctx == old(self).ctx,
            final(self).runs == old(self).runs,
            final(self).records_processed == old(self).records_processed,
            old(self).run_goes_on() ==> final(self).reader == old(self).reader && final(self).next_run == old(
                self,
            ).next_run,
            !old(self).run_goes_on() ==> {
                let k = final(self).next_run as int;
                match action {
                    LoadAction::Read { .. } => {
                        &&& old(self).next_run < k
                        &&& old(self).worth_reading(k - 1)
                        &&& forall|i: int| old(self).next_run <= i < k - 1 ==> !old(self).worth_reading(i)
                        &&& final(self).reader->0.file_offset == old(self).runs@[k - 1].1 * old(
                            self,
                        ).ctx.bytes_per_cluster
                        &&& final(self).reader->0.mft_offset == old(self).runs@[k - 1].0 * old(
                            self,
                        ).ctx.bytes_per_cluster
                        &&& final(self).reader->0.remaining == old(self).runs@[k - 1].2 * old(
                            self,
                        ).ctx.bytes_per_cluster
                    },
                    LoadAction::Finished => {
                        &&& k == old(self).runs@.len()
                        &&& forall|i: int|
                            old(self).next_run <= i < old(self).runs@.len() ==> !old(self).worth_reading(i)
                    },
                }
            },
            match action {
                LoadAction::Read { offset, len } => {
                    &&& final(self).run_goes_on()
                    &&& offset == final(self).reader->0.file_offset
                    &&& 0 < len <= final(self).reader->0.remaining
                    &&& len == (if final(self).reader->0.remaining < 4 * 1024 * 1024 {
                        final(self).reader->0.remaining as int
                    } else {
                        4_194_304
                    })
                },
                LoadAction::Finished => !final(self).run_goes_on(),
            },
    {
        loop
            invariant
                self.well_formed(),
                old(self).well_formed(),
                self.ctx == old(self).ctx,
                self.runs == old(self).runs,
                self.records_processed == old(self).records_processed,
                old(self).next_run <= self.next_run,
                old(self).run_goes_on() ==> self.reader == old(self).reader && self.next_run == old(
                    self,
                ).next_run,
                !old(self).run_goes_on() ==> {
                    let k = self.next_run as int;
                    if self.run_goes_on() {
                        &&& old(self).next_run < k
                        &&& old(self).worth_reading(k - 1)
                        &&& forall|i: int| old(self).next_run <= i < k - 1 ==> !old(self).worth_reading(i)
                        &&& self.reader->0.file_offset == self.runs@[k - 1].1 * self.ctx.bytes_per_cluster
                        &&& self.reader->0.mft_offset == self.runs@[k - 1].0 * self.ctx.bytes_per_cluster
                        &&& self.reader->0.remaining == self.runs@[k - 1].2 * self.ctx.bytes_per_cluster
                    } else {
                        forall|i: int| old(self).next_run <= i < k ==> !old(self).worth_reading(i)
                    }
                },
            decreases self.runs@.len() - self.next_run,
        {
            if let Some(reader) = &self.reader {
                if let Some((offset, len)) = reader.next_read() {
                    return LoadAction::Read { offset, len };
                }
            }
            if self.next_run >= self.runs.len() {
                return LoadAction::Finished;
            }
            let run: MftRun = self.runs[self.next_run];
            self.reader = RunReader::new(run, self.ctx.bytes_per_cluster);
            self.next_run = self.next_run + 1;
        }
    }

    /// Takes in the bytes that were read. Says how many records there have been so far, if it is
    /// time to report that.
    pub fn bytes_read(&mut self, chunk: &[u8], count: usize) -> (progress: Option<u64>)
        requires
            old(self).well_formed(),
            old(self).run_goes_on(),
            count <= old(self).reader->0.remaining,
            count <= chunk.len(),
            old(self).records_processed + count <= u64::MAX,
        ensures
            final(self).well_formed(),
            final(self).runs == old(self).runs,
            final(self).next_run == old(self).next_run,
            final(self).ctx@ == with_chunk(
                old(self).ctx@,
                chunk@,
                count as int,
                old(self).ctx.bytes_per_record as int,
                old(self).reader->0.mft_offset as int,
                0,
            ),
            final(self).ctx.bytes_per_cluster == old(self).ctx.bytes_per_cluster,
            final(self).ctx.bytes_per_record == old(self).ctx.bytes_per_record,
            final(self).reader is Some,
            final(self).reader->0.file_offset == old(self).reader->0.file_offset + count,
            final(self).reader->0.mft_offset == old(self).reader->0.mft_offset + count,
            final(self).reader->0.remaining == old(self).reader->0.remaining - count,
            final(self).records_processed == old(self).records_processed + count
                / old(self).ctx.bytes_per_record as usize,
            progress == (if final(self).records_processed % 50_000 < count / old(
                self,
            ).ctx.bytes_per_record as usize {
                Some(final(self).records_processed)
            } else {
                None
            }),
    {
        let record_size: usize = self.ctx.bytes_per_record as usize;
        let start: u64 = match &self.reader {
            Some(r) => r.mft_offset,
            None => 0,
        };
        let n: u64 = process_chunk(chunk, count, record_size, start, &mut self.ctx);
        assert(n <= count) by (nonlinear_arith)
            requires
                n == count / record_size,
                record_size > 0,
        ;
        self.records_processed = self.records_processed + n;
        if let Some(r) = &mut self.reader {
            r.advance(count);
        }
        if progress_is_due(self.records_processed, count, record_size) {
            Some(self.records_processed)
        } else {
            None
        }
    }

    /// Gives up the run being read.
    pub fn read_failed(&mut self)
        requires
            old(self).well_formed(),
        ensures
            final(self).well_formed(),
            final(self).reader is None,
            final(self).ctx == old(self).ctx,
            final(self).runs == old(self).runs,
            final(self).next_run == old(self).next_run,
            final(self).records_processed == old(self).records_processed,
    {
        self.reader = None;
    }
}

// ---------------------------------------------------------------------------------------------
// What is read of runs and chunks
// ---------------------------------------------------------------------------------------------

/// Records are numbered by where they stand in the MFT, one after the other: a chunk that starts with
/// a whole record says what that record says, under the number of its place, and then what the rest of
/// the chunk says from the next place on.
pub proof fn law_chunks_are_records_in_turn(v: Volume, record: Seq<u8>, rest: Seq<u8>, number: nat)
    requires
        record.len() > 0,
        (number + 1) * record.len() + rest.len() <= u64::MAX,
    ensures
        with_chunk(
            v,
            record + rest,
            (record.len() + rest.len()) as int,
            record.len() as int,
            (number * record.len()) as int,
            0,
        ) == with_chunk(
            with_record(v, record, number as u64),
            rest,
            rest.len() as int,
            record.len() as int,
            ((number + 1) * record.len()) as int,
            0,
        ),
{
    let size = record.len() as int;
    let start = (number * record.len()) as int;
    let chunk = record + rest;
    assert(chunk.subrange(0, size) =~= record);
    assert(start / size == number) by {
        vstd::arithmetic::div_mod::lemma_div_multiples_vanish(number as int, size);
        assert(size * number == number * size) by (nonlinear_arith);
    }
    assert((number + 1) * size == start + size) by (nonlinear_arith)
        requires
            start == number * size,
    ;
    lemma_chunk_moved(with_record(v, record, number as u64), record, rest, size, start, 0);
}

/// A chunk can be looked at from any of its records on.
proof fn lemma_chunk_moved(v: Volume, front: Seq<u8>, rest: Seq<u8>, size: int, start: int, off: int)
    requires
        size > 0,
        front.len() == size,
        0 <= off,
    ensures
        with_chunk(v, front + rest, size + rest.len(), size, start, size + off) == with_chunk(
            v,
            rest,
            rest.len() as int,
            size,
            start + size,
            off,
        ),
    decreases rest.len() - off,
{
    if off + size <= rest.len() {
        assert((front + rest).subrange(size + off, size + off + size) =~= rest.subrange(off, off + size));
        lemma_chunk_moved(
            with_record(v, rest.subrange(off, off + size), ((start + size + off) / size) as u64),
            front,
            rest,
            size,
            start,
            off + size,
        );
    }
}

/// A chunk that is shorter than a record says nothing.
pub proof fn law_rests_of_chunks_say_nothing(v: Volume, chunk: Seq<u8>, size: int, start: int)
    requires
        chunk.len() < size,
    ensures
        with_chunk(v, chunk, chunk.len() as int, size, start, 0) == v,
{
}

/// An extent of a file: the cluster of the file after its last one, and its place on disk.
pub struct Extent {
    pub next: u64,
    pub place: u64,
}

/// Whether a buffer of retrieval pointers lists the extents `es` of a file, the first of which starts
/// with cluster `start`.
pub open spec fn holds_extents(buf: Seq<u8>, start: u64, es: Seq<Extent>) -> bool {
    &&& es.len() <= u32::MAX
    &&& buf.len() >= 16 * (es.len() + 1)
    &&& holds(buf, 0, le_bytes(es.len(), 4))
    &&& holds(buf, 8, le_bytes(start as nat, 8))
    &&& forall|i: int|
        0 <= i < es.len() ==> #[trigger] holds(buf, 16 * (i + 1), le_bytes(es[i].next as nat, 8)) && holds(
            buf,
            16 * (i + 1) + 8,
            le_bytes(es[i].place as nat, 8),
        )
}

/// The first cluster of extent `i`.
pub open spec fn extent_begins(start: u64, es: Seq<Extent>, i: int) -> u64 {
    if i == 0 {
        start
    } else {
        es[i - 1].next
    }
}

proof fn lemma_extents_are_read(buf: Seq<u8>, start: u64, es: Seq<Extent>, n: int)
    requires
        holds_extents(buf, start, es),
        0 <= n <= es.len(),
        forall|i: int| 0 <= i < es.len() ==> (#[trigger] es[i]).place < 0x8000_0000_0000_0000,
        forall|i: int| 0 <= i < es.len() ==> extent_begins(start, es, i) <= (#[trigger] es[i]).next,
    ensures
        listed_runs(buf, n).len() == n,
        forall|i: int|
            0 <= i < n ==> {
                let run = #[trigger] listed_runs(buf, n)[i];
                &&& run.0 == extent_begins(start, es, i)
                &&& run.1 == es[i].place
                &&& run.0 + run.2 == es[i].next
            },
    decreases n,
{
    if n > 0 {
        lemma_extents_are_read(buf, start, es, n - 1);
        let i = n - 1;
        let e = es[i];
        assert(holds(buf, 16 * (i + 1), le_bytes(es[i].next as nat, 8)));
        law_written_u64_is_read(buf, 16 * n, e.next);
        law_written_u64_is_read(buf, 16 * n + 8, e.place);
        if i == 0 {
            law_written_u64_is_read(buf, 8, start);
        } else {
            assert(holds(buf, 16 * (i - 1 + 1), le_bytes(es[i - 1].next as nat, 8)));
            law_written_u64_is_read(buf, 16 * i, es[i - 1].next);
        }
        assert(extent_start(buf, i) == extent_begins(start, es, i));
        assert(extent_begins(start, es, i) <= es[i].next);
        let before = listed_runs(buf, i);
        let now = listed_runs(buf, n);
        assert forall|k: int| 0 <= k < n implies {
            let run = #[trigger] now[k];
            &&& run.0 == extent_begins(start, es, k)
            &&& run.1 == es[k].place
            &&& run.0 + run.2 == es[k].next
        } by {
            if k < i {
                assert(now[k] == before[k]);
            }
        }
    }
}

/// The runs of a file are its extents, one run for each and in their order, where all of them are on
/// disk: each starts where the one before it ends, goes up to where it is said to end, and is at the
/// place on disk that is given for it.
pub proof fn law_runs_are_the_extents(buf: Seq<u8>, start: u64, es: Seq<Extent>)
    requires
        holds_extents(buf, start, es),
        forall|i: int| 0 <= i < es.len() ==> (#[trigger] es[i]).place < 0x8000_0000_0000_0000,
        forall|i: int| 0 <= i < es.len() ==> extent_begins(start, es, i) <= (#[trigger] es[i]).next,
    ensures
        ({
            let runs = listed_runs(buf, extent_count(buf));
            &&& runs.len() == es.len()
            &&& forall|i: int|
                0 <= i < es.len() ==> {
                    &&& (#[trigger] runs[i]).0 == extent_begins(start, es, i)
                    &&& runs[i].1 == es[i].place
                    &&& runs[i].0 + runs[i].2 == es[i].next
                }
        }),
{
    law_written_u32_is_read(buf, 0, es.len() as u32);
    lemma_extents_are_read(buf, start, es, es.len() as int);
}


/// Whether sector `j` of 512 bytes, counted from 1, ends in these two bytes, if it lies in `r`.
pub open spec fn sector_ends_in(r: Seq<u8>, j: int, a: u8, b: u8) -> bool {
    512 * j <= r.len() ==> r[512 * j - 2] == a && r[512 * j - 1] == b
}

/// A record is used only if each of its sectors of 512 bytes ends in the update sequence number,
/// and changes nothing otherwise. Those ends are then replaced by the bytes that the array kept for
/// them, and no other byte changes.
pub proof fn law_sector_ends_are_restored(v: Volume, r: Seq<u8>, current: u64, p: int)
    requires
        r.len() >= 48,
        le16(r, 6) > 0,
        le16(r, 4) + 2 * le16(r, 6) <= r.len(),
        clear_of_sector_ends(le16(r, 4) as int, 1, le16(r, 6) as int, 512),
        0 <= p < r.len(),
    ensures
        ({
            let array = le16(r, 4) as int;
            let count = le16(r, 6) as int;
            let (u, ok) = usable_bytes(r);
            &&& ok == (forall|j: int|
                1 <= j < count ==> #[trigger] sector_ends_in(r, j, r[array], r[array + 1]))
            &&& !ok ==> with_record(v, r, current) == v
            &&& u.len() == r.len()
            &&& ok ==> forall|j: int|
                1 <= j < count ==> #[trigger] sector_ends_in(u, j, r[array + 2 * j], r[array + 2 * j + 1])
            &&& (p % 512 < 510 || p >= 512 * (count - 1)) ==> u[p] == r[p]
        }),
{
    let array = le16(r, 4) as int;
    let count = le16(r, 6) as int;
    law_fixup_restores_sector_ends(r, 512);
    let (u, ok) = usable_bytes(r);
    let usn = (r[array], r[array + 1]);
    assert forall|j: int|
        #![trigger sector_ends_in(r, j, r[array], r[array + 1])]
        #![trigger sector_end_matches(r, j, 512, usn)]
        sector_ends_in(r, j, r[array], r[array + 1]) == sector_end_matches(r, j, 512, usn) by {
        assert(sector_end(j, 512) == 512 * j);
    }
    if ok {
        assert forall|j: int| 1 <= j < count implies #[trigger] sector_ends_in(
            u,
            j,
            r[array + 2 * j],
            r[array + 2 * j + 1],
        ) by {
            assert(sector_end(j, 512) == 512 * j);
        }
    }
    if p % 512 < 510 || p >= 512 * (count - 1) {
        assert(!at_sector_end(p, 1, count, 512)) by {
            assert forall|j: int| 1 <= j < count implies p != #[trigger] sector_end(j, 512) - 2 && p
                != sector_end(j, 512) - 1 by {
                assert(sector_end(j, 512) == 512 * j);
            }
        }
    }
}

/// Bytes that do not start with the word `FILE`, or are too short for the head of a record, change
/// nothing.
pub proof fn law_only_file_records_count(v: Volume, r: Seq<u8>, current: u64)
    requires
        r.len() < 48 || r.take(4) != seq![0x46u8, 0x49u8, 0x4Cu8, 0x45u8],
    ensures
        with_record(v, r, current) == v,
{
    if r.len() >= 48 && is_file_record(r) {
        assert(r.take(4) =~= seq![0x46u8, 0x49u8, 0x4Cu8, 0x45u8]);
    }
}

} // verus!
