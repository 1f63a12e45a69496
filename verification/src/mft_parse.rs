//! Single MFT records: undoing the update sequence, and reading the attributes of a FILE record.
//!
//! Nothing here touches a disk. Every read is guarded by the record's length, so a damaged
//! record never stops the program: an attribute whose header or content runs off the end of the
//! record contributes nothing.
use vstd::prelude::*;

use crate::bytes::{fits, read_u16, read_u16s, read_u32, read_u64};
use crate::text::owned;
#[allow(unused_imports)]
use crate::bytes::{le16, le16s, le32, le64};
#[allow(unused_imports)]
use crate::text::utf16_lossy;
use crate::wide::from_wide;

verus! {

pub const ATTR_STANDARD_INFORMATION: u32 = 0x10;

pub const ATTR_FILE_NAME: u32 = 0x30;

pub const ATTR_DATA: u32 = 0x80;

pub const ATTR_END: u32 = 0xFFFF_FFFF;

/// NTFS keeps the root directory in this record.
pub const ROOT_RECORD_INDEX: u64 = 5;

/// Where `$STANDARD_INFORMATION` holds the time of the last modification.
pub const STD_INFO_OFFSET_MODIFIED: usize = 0x08;

/// Where `$STANDARD_INFORMATION` holds the file attributes.
pub const STD_INFO_OFFSET_FLAGS: usize = 0x30;

/// The shortest `$STANDARD_INFORMATION` that is read.
pub const STD_INFO_MIN_LEN: usize = 0x38;

/// What is kept of one MFT record.
#[derive(Debug, Clone, PartialEq, Eq)]
pub struct RawEntry {
    pub parent_record: u64,
    pub name: String,
    pub is_dir: bool,
    pub in_use: bool,
    pub is_base_record: bool,
    pub real_size: u64,
    /// Time of the last modification (FILETIME), from `$STANDARD_INFORMATION`.
    pub modified_ft: u64,
    /// File attributes, from `$STANDARD_INFORMATION`.
    pub attributes: u32,
}

/// The mathematical content of a [`RawEntry`].
pub struct EntryModel {
    pub parent_record: u64,
    pub name: Seq<char>,
    pub is_dir: bool,
    pub in_use: bool,
    pub is_base_record: bool,
    pub real_size: u64,
    pub modified_ft: u64,
    pub attributes: u32,
}

impl View for RawEntry {
    type V = EntryModel;

    open spec fn view(&self) -> EntryModel {
        EntryModel {
            parent_record: self.parent_record,
            name: self.name@,
            is_dir: self.is_dir,
            in_use: self.in_use,
            is_base_record: self.is_base_record,
            real_size: self.real_size,
            modified_ft: self.modified_ft,
            attributes: self.attributes,
        }
    }
}

// ---------------------------------------------------------------------------------------------
// The update sequence
// ---------------------------------------------------------------------------------------------

/// Checks and restores the sector ends from sector `i` on: the last two bytes of sector `i` must
/// hold the update sequence number `usn`, and are then replaced by entry `i` of the array at
/// `usa`. The flag says whether every sector end matched; the bytes are those reached so far.
pub open spec fn restore_sectors(
    r: Seq<u8>,
    i: nat,
    count: nat,
    usa: nat,
    sector: nat,
    usn: (u8, u8),
) -> (Seq<u8>, bool)
    decreases count - i,
{
    let end = (i * sector) as int;
    if i >= count || end > r.len() {
        (r, true)
    } else if r[end - 2] != usn.0 || r[end - 1] != usn.1 {
        (r, false)
    } else {
        let r1 = r.update(end - 2, r[(usa + 2 * i) as int]);
        let r2 = r1.update(end - 1, r1[(usa + 2 * i + 1) as int]);
        restore_sectors(r2, i + 1, count, usa, sector, usn)
    }
}

/// Where the update sequence array of a record starts.
pub open spec fn usa_offset(r: Seq<u8>) -> nat {
    le16(r, 4) as nat
}

/// How many entries the update sequence array has, the update sequence number included.
pub open spec fn usa_count(r: Seq<u8>) -> nat {
    le16(r, 6) as nat
}

/// Whether the update sequence array is there and lies inside the record.
pub open spec fn usa_in_record(r: Seq<u8>) -> bool {
    usa_count(r) > 0 && usa_offset(r) + 2 * usa_count(r) <= r.len()
}

/// What undoing the update sequence of `r` gives for sectors of `sector` bytes.
pub open spec fn fixed_up(r: Seq<u8>, sector: nat) -> (Seq<u8>, bool) {
    let usa = usa_offset(r);
    restore_sectors(r, 1, usa_count(r), usa, sector, (r[usa as int], r[usa as int + 1]))
}

/// The size of a sector: never taken to be under 512 bytes.
pub open spec fn sector_size(bytes_per_sector: u32) -> nat {
    if bytes_per_sector < 512 {
        512
    } else {
        bytes_per_sector as nat
    }
}

/// Checks and restores the sector ends of `record`, for an array that lies inside it.
pub(crate) fn restore_sector_ends(record: &mut [u8], sector: u32) -> (ok: bool)
    requires
        old(record).len() >= 8,
        usa_in_record(old(record)@),
        sector >= 512,
    ensures
        final(record)@.len() == old(record)@.len(),
        (final(record)@, ok) == fixed_up(old(record)@, sector as nat),
{
    let len: usize = record.len();
    let usa: usize = read_u16(record, 4) as usize;
    let count: usize = read_u16(record, 6) as usize;
    let usn0: u8 = record[usa];
    let usn1: u8 = record[usa + 1];
    let ghost start = record@;
    let mut i: usize = 1;
    while i < count
        invariant
            1 <= i <= count,
            count <= 0xFFFF,
            sector >= 512,
            record@.len() == len,
            start == old(record)@,
            start.len() == len,
            usa == usa_offset(start),
            count == usa_count(start),
            (usn0, usn1) == (start[usa as int], start[usa + 1]),
            usa + 2 * count <= len,
            restore_sectors(record@, i as nat, count as nat, usa as nat, sector as nat, (usn0, usn1))
                == restore_sectors(start, 1, count as nat, usa as nat, sector as nat, (usn0, usn1)),
        ensures
            record@.len() == len,
            (record@, true) == restore_sectors(
                start,
                1,
                count as nat,
                usa as nat,
                sector as nat,
                (usn0, usn1),
            ),
        decreases count - i,
    {
        assert(i * sector <= 0xFFFF * 0xFFFF_FFFF) by (nonlinear_arith)
            requires
                i <= 0xFFFF,
                sector <= 0xFFFF_FFFF,
        ;
        assert(i * sector >= 512) by (nonlinear_arith)
            requires
                i >= 1,
                sector >= 512,
        ;
        let wide_end: u64 = (i as u64) * (sector as u64);
        if wide_end > len as u64 {
            break;
        }
        let end: usize = wide_end as usize;
        if record[end - 2] != usn0 || record[end - 1] != usn1 {
            return false;
        }
        let first: u8 = record[usa + 2 * i];
        record[end - 2] = first;
        let second: u8 = record[usa + 2 * i + 1];
        record[end - 1] = second;
        i = i + 1;
    }
    true
}

/// Undoes the update sequence of one MFT record.
///
/// On disk the last two bytes of every sector are replaced by the update sequence number, and
/// the true bytes are kept in the update sequence array. `false` means that the record is too
/// short, that its array does not fit, or that a sector end does not hold the number: such a
/// record is damaged.
pub fn apply_fixup(record: &mut [u8], bytes_per_sector: u32) -> (ok: bool)
    ensures
        final(record)@.len() == old(record)@.len(),
        old(record)@.len() < 8 || !usa_in_record(old(record)@) ==> !ok && final(record)@ == old(
            record,
        )@,
        old(record)@.len() >= 8 && usa_in_record(old(record)@) ==> (final(record)@, ok) == fixed_up(
            old(record)@,
            sector_size(bytes_per_sector),
        ),
{
    if record.len() < 8 {
        return false;
    }
    let usa: usize = read_u16(record, 4) as usize;
    let count: usize = read_u16(record, 6) as usize;
    if count == 0 || !fits(record.len(), usa, 2 * count) {
        return false;
    }
    let sector: u32 = if bytes_per_sector < 512 {
        512
    } else {
        bytes_per_sector
    };
    restore_sector_ends(record, sector)
}

/// Where sector `i` of a record ends, sectors being counted from 1.
pub open spec fn sector_end(i: int, sector: nat) -> int {
    i * sector
}

/// Whether sector `i` of `r` ends inside it and carries the update sequence number there.
pub open spec fn sector_end_matches(r: Seq<u8>, i: int, sector: nat, usn: (u8, u8)) -> bool {
    sector_end(i, sector) <= r.len() ==> r[sector_end(i, sector) - 2] == usn.0 && r[sector_end(i, sector)
        - 1] == usn.1
}

/// Whether byte `p` is one of the last two of some sector from `i` up to, not including, `count`.
pub open spec fn at_sector_end(p: int, i: int, count: int, sector: nat) -> bool {
    exists|j: int|
        i <= j < count && (p == #[trigger] sector_end(j, sector) - 2 || p == sector_end(j, sector) - 1)
}

/// Whether none of the `count` entries of an array at `usa` lies on the end of a sector from `i` on.
pub open spec fn clear_of_sector_ends(usa: int, i: int, count: int, sector: nat) -> bool {
    forall|p: int| usa <= p < usa + 2 * count ==> !#[trigger] at_sector_end(p, i, count, sector)
}

proof fn lemma_restore_sectors(r: Seq<u8>, i: nat, count: nat, usa: nat, sector: nat, usn: (u8, u8))
    requires
        i >= 1,
        sector >= 512,
        usa + 2 * count <= r.len(),
        clear_of_sector_ends(usa as int, i as int, count as int, sector),
    ensures
        ({
            let (f, ok) = restore_sectors(r, i, count, usa, sector, usn);
            &&& f.len() == r.len()
            &&& ok == (forall|j: int| i <= j < count ==> #[trigger] sector_end_matches(r, j, sector, usn))
            &&& ok ==> forall|j: int|
                i <= j < count && #[trigger] sector_end(j, sector) <= r.len() ==> f[sector_end(j, sector)
                    - 2] == r[usa + 2 * j] && f[sector_end(j, sector) - 1] == r[usa + 2 * j + 1]
            &&& forall|p: int|
                0 <= p < r.len() && !at_sector_end(p, i as int, count as int, sector) ==> #[trigger] f[p] == r[p]
        }),
    decreases count - i,
{
    let end = sector_end(i as int, sector);
    let (f, ok) = restore_sectors(r, i, count, usa, sector, usn);
    // Later sectors end at least one whole sector further on.
    assert forall|j: int| i < j implies #[trigger] sector_end(j, sector) >= end + sector by {
        assert(j * sector >= i * sector + sector) by (nonlinear_arith)
            requires
                j >= i + 1,
        ;
    }
    assert(end >= sector) by (nonlinear_arith)
        requires
            i >= 1,
            end == i * sector,
    ;
    if i >= count {
    } else if end > r.len() {
        assert forall|j: int| i <= j < count implies #[trigger] sector_end_matches(r, j, sector, usn) by {}
    } else if r[end - 2] != usn.0 || r[end - 1] != usn.1 {
        assert(!sector_end_matches(r, i as int, sector, usn));
    } else {
        let r1 = r.update(end - 2, r[(usa + 2 * i) as int]);
        let r2 = r1.update(end - 1, r1[(usa + 2 * i + 1) as int]);
        assert forall|p: int| usa <= p < usa + 2 * count implies !#[trigger] at_sector_end(
            p,
            i as int + 1,
            count as int,
            sector,
        ) by {
            assert(!at_sector_end(p, i as int, count as int, sector));
        }
        assert forall|p: int| usa <= p < usa + 2 * count implies #[trigger] r2[p] == r[p] by {
            assert(!at_sector_end(p, i as int, count as int, sector));
            assert(p != sector_end(i as int, sector) - 2 && p != sector_end(i as int, sector) - 1);
        }
        lemma_restore_sectors(r2, i + 1, count, usa, sector, usn);
        assert(sector_end_matches(r, i as int, sector, usn));
        assert forall|j: int|
            #![trigger sector_end_matches(r, j, sector, usn)]
            #![trigger sector_end_matches(r2, j, sector, usn)]
            i < j < count implies sector_end_matches(r, j, sector, usn) == sector_end_matches(
            r2,
            j,
            sector,
            usn,
        ) by {}
        assert(!at_sector_end(end - 2, i as int + 1, count as int, sector));
        assert(!at_sector_end(end - 1, i as int + 1, count as int, sector));
        assert forall|p: int|
            0 <= p < r.len() && !at_sector_end(p, i as int, count as int, sector) implies #[trigger] f[p]
            == r[p] by {
            assert(p != sector_end(i as int, sector) - 2 && p != sector_end(i as int, sector) - 1);
            assert(!at_sector_end(p, i as int + 1, count as int, sector));
        }
        if ok {
            assert forall|j: int|
                i <= j < count && #[trigger] sector_end(j, sector) <= r.len() implies f[sector_end(
                j,
                sector,
            ) - 2] == r[usa + 2 * j] && f[sector_end(j, sector) - 1] == r[usa + 2 * j + 1] by {}
        }
    }
}

/// Undoing the update sequence restores exactly the sector ends: where the array itself does not lie
/// on one, the record is accepted exactly if every sector inside it ends in the update sequence
/// number; the last two bytes of each such sector then are those that the array kept; and no other
/// byte ever changes.
pub proof fn law_fixup_restores_sector_ends(r: Seq<u8>, sector: nat)
    requires
        r.len() >= 8,
        usa_in_record(r),
        sector >= 512,
        clear_of_sector_ends(usa_offset(r) as int, 1, usa_count(r) as int, sector),
    ensures
        ({
            let (f, ok) = fixed_up(r, sector);
            let usa = usa_offset(r) as int;
            let count = usa_count(r) as int;
            &&& f.len() == r.len()
            &&& ok == (forall|j: int|
                1 <= j < count ==> #[trigger] sector_end_matches(r, j, sector, (r[usa], r[usa + 1])))
            &&& ok ==> forall|j: int|
                1 <= j < count && #[trigger] sector_end(j, sector) <= r.len() ==> f[sector_end(j, sector)
                    - 2] == r[usa + 2 * j] && f[sector_end(j, sector) - 1] == r[usa + 2 * j + 1]
            &&& forall|p: int|
                0 <= p < r.len() && !at_sector_end(p, 1, count, sector) ==> #[trigger] f[p] == r[p]
        }),
{
    let usa = usa_offset(r);
    lemma_restore_sectors(r, 1, usa_count(r), usa, sector, (r[usa as int], r[usa as int + 1]));
}

// ---------------------------------------------------------------------------------------------
// FILE records
// ---------------------------------------------------------------------------------------------

/// Whether `r` is long enough for a record header and starts with the FILE signature.
pub open spec fn is_file_record(r: Seq<u8>) -> bool {
    r.len() >= 48 && r[0] == 0x46 && r[1] == 0x49 && r[2] == 0x4C && r[3] == 0x45
}

/// Where the first attribute of a record starts.
pub open spec fn first_attribute(r: Seq<u8>) -> int {
    le16(r, 20) as int
}

/// The flag that marks a record in use.
pub open spec fn record_in_use(r: Seq<u8>) -> bool {
    le16(r, 22) % 2 == 1
}

/// The flag that marks a directory.
pub open spec fn record_is_dir(r: Seq<u8>) -> bool {
    (le16(r, 22) / 2) % 2 == 1
}

/// The record number inside a file reference: its lower 48 bits.
pub open spec fn record_number(reference: u64) -> u64 {
    reference % 0x1_0000_0000_0000
}

/// Whether an attribute can be read at `off`: its fixed header lies inside the record, it is not
/// the end mark, and it takes up room that the record has.
pub open spec fn attribute_at(r: Seq<u8>, off: int) -> bool {
    &&& 0 <= off
    &&& off + 16 <= r.len()
    &&& le32(r, off) != ATTR_END
    &&& le32(r, off + 4) != 0
    &&& off + le32(r, off + 4) <= r.len()
}

/// Where the attributes start that are found from `off` on, in order.
pub open spec fn attribute_offsets(r: Seq<u8>, off: int) -> Seq<int>
    decreases r.len() - off,
{
    if attribute_at(r, off) {
        seq![off] + attribute_offsets(r, off + le32(r, off + 4))
    } else {
        Seq::empty()
    }
}

/// Whether the attribute at `off` keeps its value inside the record.
pub open spec fn is_resident(r: Seq<u8>, off: int) -> bool {
    r[off + 8] == 0
}

/// Whether the header of the attribute at `off` is there up to the place of its value.
pub open spec fn has_value_header(r: Seq<u8>, off: int) -> bool {
    off + 22 <= r.len()
}

/// Where the value of a resident attribute starts.
pub open spec fn value_start(r: Seq<u8>, off: int) -> int {
    off + le16(r, off + 20)
}

/// How long the value of a resident attribute is.
pub open spec fn value_len(r: Seq<u8>, off: int) -> int {
    le32(r, off + 16) as int
}

/// The modification time and the file attributes, if `off` starts a `$STANDARD_INFORMATION` that
/// holds both.
pub open spec fn std_info_at(r: Seq<u8>, off: int) -> Option<(u64, u32)> {
    let start = value_start(r, off);
    if le32(r, off) == ATTR_STANDARD_INFORMATION && is_resident(r, off) && has_value_header(r, off)
        && value_len(r, off) >= STD_INFO_MIN_LEN && start + STD_INFO_MIN_LEN <= r.len() {
        Some((le64(r, start + STD_INFO_OFFSET_MODIFIED), le32(r, start + STD_INFO_OFFSET_FLAGS)))
    } else {
        None
    }
}

/// One name of a file.
pub struct NameModel {
    /// 0 = POSIX, 1 = WIN32, 2 = DOS (8.3), 3 = WIN32 and DOS.
    pub namespace: u8,
    pub name: Seq<char>,
    pub parent: u64,
    pub real_size: u64,
}

/// The name, if `off` starts a `$FILE_NAME` that holds a whole one.
pub open spec fn file_name_at(r: Seq<u8>, off: int) -> Option<NameModel> {
    let start = value_start(r, off);
    let len = value_len(r, off);
    let chars = r[start + 64] as nat;
    if le32(r, off) == ATTR_FILE_NAME && is_resident(r, off) && has_value_header(r, off) && len >= 66
        && start + len <= r.len() && chars > 0 && 66 + 2 * chars <= len {
        Some(
            NameModel {
                namespace: r[start + 65],
                name: utf16_lossy(le16s(r, start + 66, chars)),
                parent: record_number(le64(r, start)),
                real_size: le64(r, start + 48),
            },
        )
    } else {
        None
    }
}

/// The size of the file's main stream, if `off` starts an unnamed `$DATA`. A `$DATA` that is kept
/// outside the record and whose header is cut off counts as empty.
pub open spec fn data_size_at(r: Seq<u8>, off: int) -> Option<u64> {
    if le32(r, off) == ATTR_DATA && has_value_header(r, off) && r[off + 9] == 0 {
        Some(
            if is_resident(r, off) {
                le32(r, off + 16) as u64
            } else if off + 56 <= r.len() {
                le64(r, off + 48)
            } else {
                0
            },
        )
    } else {
        None
    }
}

/// What the last readable `$STANDARD_INFORMATION` among `offs` says; zeros if there is none.
pub open spec fn last_std_info(r: Seq<u8>, offs: Seq<int>) -> (u64, u32)
    decreases offs.len(),
{
    if offs.len() == 0 {
        (0, 0)
    } else {
        match std_info_at(r, offs.last()) {
            Some(x) => x,
            None => last_std_info(r, offs.drop_last()),
        }
    }
}

/// What the last unnamed `$DATA` among `offs` says; 0 if there is none.
pub open spec fn last_data_size(r: Seq<u8>, offs: Seq<int>) -> u64
    decreases offs.len(),
{
    if offs.len() == 0 {
        0
    } else {
        match data_size_at(r, offs.last()) {
            Some(x) => x,
            None => last_data_size(r, offs.drop_last()),
        }
    }
}

/// The names among `offs`, in order.
pub open spec fn names_among(r: Seq<u8>, offs: Seq<int>) -> Seq<NameModel>
    decreases offs.len(),
{
    if offs.len() == 0 {
        Seq::empty()
    } else {
        let before = names_among(r, offs.drop_last());
        match file_name_at(r, offs.last()) {
            Some(n) => before.push(n),
            None => before,
        }
    }
}

/// How little a namespace is preferred: long names first, 8.3 names last.
pub open spec fn namespace_rank(namespace: u8) -> int {
    if namespace == 1 {
        0
    } else if namespace == 3 {
        1
    } else if namespace == 0 {
        2
    } else if namespace == 2 {
        3
    } else {
        4
    }
}

/// The most preferred of `names`, the first of them where several are.
pub open spec fn best_name(names: Seq<NameModel>) -> NameModel
    recommends
        names.len() > 0,
    decreases names.len(),
{
    if names.len() <= 1 {
        names[0]
    } else {
        let best = best_name(names.drop_last());
        if namespace_rank(names.last().namespace) < namespace_rank(best.namespace) {
            names.last()
        } else {
            best
        }
    }
}

/// What a FILE record says.
pub open spec fn parsed(r: Seq<u8>) -> EntryModel {
    let offs = attribute_offsets(r, first_attribute(r));
    let names = names_among(r, offs);
    let size = last_data_size(r, offs);
    let info = last_std_info(r, offs);
    EntryModel {
        parent_record: if names.len() == 0 {
            0
        } else {
            best_name(names).parent
        },
        name: if names.len() == 0 {
            "<FRN_0>"@
        } else {
            best_name(names).name
        },
        is_dir: record_is_dir(r),
        in_use: record_in_use(r),
        is_base_record: record_number(le64(r, 32)) == 0,
        real_size: if size == 0 && names.len() > 0 {
            best_name(names).real_size
        } else {
            size
        },
        modified_ft: info.0,
        attributes: info.1,
    }
}

struct NameCandidate {
    namespace: u8,
    name: String,
    parent: u64,
    real_size: u64,
}

impl View for NameCandidate {
    type V = NameModel;

    closed spec fn view(&self) -> NameModel {
        NameModel {
            namespace: self.namespace,
            name: self.name@,
            parent: self.parent,
            real_size: self.real_size,
        }
    }
}

/// Whether `record` is long enough for a record header and starts with the FILE signature.
pub(crate) fn check_file_record(record: &[u8]) -> (ok: bool)
    ensures
        ok == is_file_record(record@),
{
    record.len() >= 48 && record[0] == 0x46 && record[1] == 0x49 && record[2] == 0x4C && record[3] == 0x45
}

/// Whether an attribute can be read at `off`.
pub(crate) fn check_attribute(record: &[u8], off: usize) -> (ok: bool)
    ensures
        ok == attribute_at(record@, off as int),
        ok ==> off + 16 <= record.len() && off + le32(record@, off + 4) <= record.len(),
{
    if !fits(record.len(), off, 16) {
        return false;
    }
    if read_u32(record, off) == ATTR_END {
        return false;
    }
    let len: u32 = read_u32(record, off + 4);
    len != 0 && fits(record.len(), off, len as usize)
}

fn read_std_info(record: &[u8], off: usize) -> (res: Option<(u64, u32)>)
    requires
        attribute_at(record@, off as int),
    ensures
        res == std_info_at(record@, off as int),
{
    let len: usize = record.len();
    if read_u32(record, off) != ATTR_STANDARD_INFORMATION || record[off + 8] != 0 || !fits(len, off, 22) {
        return None;
    }
    if (read_u32(record, off + 16) as usize) < STD_INFO_MIN_LEN {
        return None;
    }
    let value_off: usize = read_u16(record, off + 20) as usize;
    if !fits(len, off, value_off) || !fits(len, off + value_off, STD_INFO_MIN_LEN) {
        return None;
    }
    let start: usize = off + value_off;
    Some((read_u64(record, start + STD_INFO_OFFSET_MODIFIED), read_u32(record, start + STD_INFO_OFFSET_FLAGS)))
}

fn read_file_name(record: &[u8], off: usize) -> (res: Option<NameCandidate>)
    requires
        attribute_at(record@, off as int),
    ensures
        match res {
            Some(c) => file_name_at(record@, off as int) == Some(c@),
            None => file_name_at(record@, off as int) is None,
        },
{
    let len: usize = record.len();
    if read_u32(record, off) != ATTR_FILE_NAME || record[off + 8] != 0 || !fits(len, off, 22) {
        return None;
    }
    let value_len: usize = read_u32(record, off + 16) as usize;
    let value_off: usize = read_u16(record, off + 20) as usize;
    if value_len < 66 || !fits(len, off, value_off) || !fits(len, off + value_off, value_len) {
        return None;
    }
    let start: usize = off + value_off;
    let chars: usize = record[start + 64] as usize;
    if chars == 0 || 66 + 2 * chars > value_len {
        return None;
    }
    let units = read_u16s(record, start + 66, chars);
    Some(
        NameCandidate {
            namespace: record[start + 65],
            name: from_wide(units.as_slice()),
            parent: read_u64(record, start) % 0x1_0000_0000_0000,
            real_size: read_u64(record, start + 48),
        },
    )
}

fn read_data_size(record: &[u8], off: usize) -> (res: Option<u64>)
    requires
        attribute_at(record@, off as int),
    ensures
        res == data_size_at(record@, off as int),
{
    let len: usize = record.len();
    if read_u32(record, off) != ATTR_DATA || !fits(len, off, 22) || record[off + 9] != 0 {
        return None;
    }
    if record[off + 8] == 0 {
        Some(read_u32(record, off + 16) as u64)
    } else if fits(len, off, 56) {
        Some(read_u64(record, off + 48))
    } else {
        Some(0)
    }
}

fn rank_of_namespace(namespace: u8) -> (r: u8)
    ensures
        r == namespace_rank(namespace),
{
    match namespace {
        1 => 0,
        3 => 1,
        0 => 2,
        2 => 3,
        _ => 4,
    }
}

/// Reads one FILE record whose update sequence has been undone.
///
/// `None` means that the bytes are no FILE record. A record without a readable `$FILE_NAME` is
/// kept under the name `<FRN_0>`. Of several names the most preferred namespace wins; a size of 0
/// (as when the `$DATA` sits in another record) is replaced by the size that came with the name.
pub fn parse_record(record: &[u8]) -> (res: Option<RawEntry>)
    ensures
        match res {
            Some(e) => is_file_record(record@) && e@ == parsed(record@),
            None => !is_file_record(record@),
        },
{
    if !check_file_record(record) {
        return None;
    }
    let flags: u16 = read_u16(record, 22);
    let mut best: Option<NameCandidate> = None;
    let mut size: u64 = 0;
    let mut modified_ft: u64 = 0;
    let mut attributes: u32 = 0;
    let mut off: usize = read_u16(record, 20) as usize;
    let ghost first = off as int;
    let ghost mut seen: Seq<int> = Seq::empty();
    while check_attribute(record, off)
        invariant
            attribute_offsets(record@, first) =~= seen + attribute_offsets(record@, off as int),
            (modified_ft, attributes) == last_std_info(record@, seen),
            size == last_data_size(record@, seen),
            match best {
                Some(b) => names_among(record@, seen).len() > 0 && b@ == best_name(
                    names_among(record@, seen),
                ),
                None => names_among(record@, seen).len() == 0,
            },
        decreases record@.len() - off,
    {
        proof {
            assert(seen.push(off as int).drop_last() =~= seen);
            assert(seen.push(off as int).last() == off as int);
        }
        if let Some(info) = read_std_info(record, off) {
            modified_ft = info.0;
            attributes = info.1;
        }
        if let Some(s) = read_data_size(record, off) {
            size = s;
        }
        if let Some(c) = read_file_name(record, off) {
            let ghost names = names_among(record@, seen);
            assert(names.push(c@).drop_last() =~= names);
            let better: bool = match &best {
                Some(b) => rank_of_namespace(c.namespace) < rank_of_namespace(b.namespace),
                None => true,
            };
            if better {
                best = Some(c);
            }
        }
        let len: u32 = read_u32(record, off + 4);
        proof {
            seen = seen.push(off as int);
        }
        off = off + len as usize;
    }
    assert(attribute_offsets(record@, first) =~= seen);
    let (name, parent_record, name_size): (String, u64, u64) = match best {
        Some(b) => (b.name, b.parent, b.real_size),
        None => (owned("<FRN_0>"), 0, 0),
    };
    let real_size: u64 = if size == 0 {
        name_size
    } else {
        size
    };
    Some(
        RawEntry {
            parent_record,
            name,
            is_dir: (flags / 2) % 2 == 1,
            in_use: flags % 2 == 1,
            is_base_record: read_u64(record, 32) % 0x1_0000_0000_0000 == 0,
            real_size,
            modified_ft,
            attributes,
        },
    )
}

/// The types of the attributes found from `off` on, up to the end mark; one whose length makes no
/// sense is still listed, and is the last.
pub open spec fn attribute_types(r: Seq<u8>, off: int) -> Seq<u32>
    decreases r.len() - off,
{
    if 0 <= off && off + 16 <= r.len() && le32(r, off) != ATTR_END {
        seq![le32(r, off)] + (if attribute_at(r, off) {
            attribute_types(r, off + le32(r, off + 4))
        } else {
            Seq::empty()
        })
    } else {
        Seq::empty()
    }
}

/// Reads one FILE record, and lists the types of its attributes and whether a `$FILE_NAME` is
/// among them.
pub fn parse_record_with_diag(record: &[u8]) -> (res: Option<(RawEntry, Vec<u32>, bool)>)
    ensures
        match res {
            Some((e, types, named)) => {
                &&& is_file_record(record@)
                &&& e@ == parsed(record@)
                &&& types@ == attribute_types(record@, first_attribute(record@))
                &&& named == types@.contains(ATTR_FILE_NAME)
            },
            None => !is_file_record(record@),
        },
{
    let entry: RawEntry = match parse_record(record) {
        Some(e) => e,
        None => {
            return None;
        },
    };
    let mut types: Vec<u32> = Vec::new();
    let mut named: bool = false;
    let mut off: usize = read_u16(record, 20) as usize;
    let mut going: bool = true;
    let ghost first = off as int;
    while going && fits(record.len(), off, 16) && read_u32(record, off) != ATTR_END
        invariant
            attribute_types(record@, first) =~= types@ + (if going {
                attribute_types(record@, off as int)
            } else {
                Seq::empty()
            }),
            named == types@.contains(ATTR_FILE_NAME),
        decreases going as int, record@.len() - off,
    {
        let kind: u32 = read_u32(record, off);
        proof {
            assert(types@.push(kind).last() == kind);
            assert forall|k: u32| #[trigger] types@.push(kind).contains(k) == (types@.contains(k) || k
                == kind) by {
                if types@.contains(k) {
                    let i = types@.index_of(k);
                    assert(types@.push(kind)[i] == k);
                }
                assert(types@.push(kind)[types@.len() as int] == kind);
            }
        }
        types.push(kind);
        if kind == ATTR_FILE_NAME {
            named = true;
        }
        if check_attribute(record, off) {
            let len: u32 = read_u32(record, off + 4);
            off = off + len as usize;
        } else {
            going = false;
        }
    }
    Some((entry, types, named))
}

/// The name that a record gets is one of its names; none is preferred to it, and none before it
/// is preferred as much.
pub proof fn law_best_name_is_first_of_most_preferred(names: Seq<NameModel>)
    requires
        names.len() > 0,
    ensures
        exists|i: int|
            0 <= i < names.len() && best_name(names) == #[trigger] names[i] && (forall|j: int|
                0 <= j < names.len() ==> namespace_rank(names[i].namespace) <= namespace_rank(
                    (#[trigger] names[j]).namespace,
                )) && (forall|j: int|
                0 <= j < i ==> namespace_rank(names[i].namespace) < namespace_rank(
                    (#[trigger] names[j]).namespace,
                )),
    decreases names.len(),
{
    if names.len() <= 1 {
        assert(best_name(names) == names[0]);
    } else {
        let rest = names.drop_last();
        law_best_name_is_first_of_most_preferred(rest);
        let k = choose|i: int|
            0 <= i < rest.len() && best_name(rest) == #[trigger] rest[i] && (forall|j: int|
                0 <= j < rest.len() ==> namespace_rank(rest[i].namespace) <= namespace_rank(
                    (#[trigger] rest[j]).namespace,
                )) && (forall|j: int|
                0 <= j < i ==> namespace_rank(rest[i].namespace) < namespace_rank(
                    (#[trigger] rest[j]).namespace,
                ));
        assert forall|j: int| 0 <= j < rest.len() implies rest[j] == names[j] by {}
        let last = names.len() - 1;
        if namespace_rank(names.last().namespace) < namespace_rank(best_name(rest).namespace) {
            assert(best_name(names) == names[last]);
            assert forall|j: int| 0 <= j < last implies namespace_rank(names[last].namespace)
                < namespace_rank((#[trigger] names[j]).namespace) by {
                assert(names[j] == rest[j]);
            }
        } else {
            assert(best_name(names) == names[k]);
            assert forall|j: int| 0 <= j < names.len() implies namespace_rank(names[k].namespace)
                <= namespace_rank((#[trigger] names[j]).namespace) by {
                if j < last {
                    assert(names[j] == rest[j]);
                }
            }
            assert forall|j: int| 0 <= j < k implies namespace_rank(names[k].namespace) < namespace_rank(
                (#[trigger] names[j]).namespace,
            ) by {
                assert(names[j] == rest[j]);
            }
        }
    }
}

/// Whether some name is of the given namespace.
pub open spec fn has_namespace(names: Seq<NameModel>, namespace: u8) -> bool {
    exists|i: int| 0 <= i < names.len() && (#[trigger] names[i]).namespace == namespace
}

/// Long names are preferred: a record gets a WIN32 name (1) if it has one, else one that is WIN32 and
/// DOS at once (3), else a POSIX name (0), and a DOS name (2) only if there is nothing better.
pub proof fn law_long_names_are_preferred(names: Seq<NameModel>)
    requires
        names.len() > 0,
    ensures
        ({
            let n = best_name(names).namespace;
            &&& has_namespace(names, n)
            &&& has_namespace(names, 1) ==> n == 1
            &&& has_namespace(names, 3) ==> n == 1 || n == 3
            &&& has_namespace(names, 0) ==> n == 1 || n == 3 || n == 0
            &&& has_namespace(names, 2) ==> n == 1 || n == 3 || n == 0 || n == 2
        }),
{
    law_best_name_is_first_of_most_preferred(names);
    let i = choose|i: int|
        0 <= i < names.len() && best_name(names) == #[trigger] names[i] && (forall|j: int|
            0 <= j < names.len() ==> namespace_rank(names[i].namespace) <= namespace_rank(
                (#[trigger] names[j]).namespace,
            )) && (forall|j: int|
            0 <= j < i ==> namespace_rank(names[i].namespace) < namespace_rank((#[trigger] names[j]).namespace));
    assert(names[i].namespace == best_name(names).namespace);
}


/// Of several main streams in a record, the last one gives the size.
pub proof fn law_the_last_size_counts(r: Seq<u8>, offs: Seq<int>, k: int)
    requires
        0 <= k < offs.len(),
        data_size_at(r, offs[k]) is Some,
        forall|j: int| k < j < offs.len() ==> data_size_at(r, #[trigger] offs[j]) is None,
    ensures
        Some(last_data_size(r, offs)) == data_size_at(r, offs[k]),
    decreases offs.len(),
{
    if k < offs.len() - 1 {
        assert(data_size_at(r, offs[offs.len() - 1]) is None);
        law_the_last_size_counts(r, offs.drop_last(), k);
    }
}

/// Of several sets of times and marks in a record, the last one counts.
pub proof fn law_the_last_times_count(r: Seq<u8>, offs: Seq<int>, k: int)
    requires
        0 <= k < offs.len(),
        std_info_at(r, offs[k]) is Some,
        forall|j: int| k < j < offs.len() ==> std_info_at(r, #[trigger] offs[j]) is None,
    ensures
        Some(last_std_info(r, offs)) == std_info_at(r, offs[k]),
    decreases offs.len(),
{
    if k < offs.len() - 1 {
        assert(std_info_at(r, offs[offs.len() - 1]) is None);
        law_the_last_times_count(r, offs.drop_last(), k);
    }
}

/// Bytes that do not start with the word `FILE`, or are too short for the head of a record, are no
/// record; all others are.
pub proof fn law_records_start_with_their_word(r: Seq<u8>)
    ensures
        is_file_record(r) == (r.len() >= 48 && r.take(4) == seq![0x46u8, 0x49u8, 0x4Cu8, 0x45u8]),
{
    if r.len() >= 48 {
        let head = r.take(4);
        assert(head[0] == r[0] && head[1] == r[1] && head[2] == r[2] && head[3] == r[3]);
        if is_file_record(r) {
            assert(head =~= seq![0x46u8, 0x49u8, 0x4Cu8, 0x45u8]);
        }
    }
}

} // verus!
