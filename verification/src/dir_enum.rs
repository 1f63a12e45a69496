//! Directories as the system lists them: many entries at once, in a buffer, each with its sizes,
//! times and attributes and the id that tells its file apart from all others on the volume.
use vstd::prelude::*;

use crate::bytes::{fits, read_u16s, read_u32, read_u64};
use crate::scan::RawDirEntry;

verus! {

use crate::bytes::{
    holds, law_written_u32_is_read, law_written_u64_is_read, law_written_units_are_read, le16s, le32, le64, le_bytes,
    lemma_holds_both, lemma_le_bytes, unit_bytes, zeros,
};
use crate::scan::{entries_of, Entry};
use crate::text::utf16_lossy;
use crate::wide::{encoded, law_wide_text_reads_back};

/// How long an entry is in front of its name.
pub const HEADER_LEN: usize = 104;

/// The attribute of directories.
pub const FILE_ATTRIBUTE_DIRECTORY: u32 = 0x10;

/// The UTF-16 units of the name of the entry at `at`.
pub open spec fn name_units(b: Seq<u8>, at: int) -> Seq<u16> {
    le16s(b, at + HEADER_LEN, (le32(b, at + 60) / 2) as nat)
}

/// The entry at `at`.
pub open spec fn entry_at(b: Seq<u8>, at: int) -> Entry {
    Entry {
        name: utf16_lossy(name_units(b, at)),
        is_dir: le32(b, at + 56) & FILE_ATTRIBUTE_DIRECTORY != 0,
        logical: le64(b, at + 40),
        physical: le64(b, at + 48),
        attrs: le32(b, at + 56),
        modified_ft: le64(b, at + 24),
        created_ft: le64(b, at + 8),
        accessed_ft: le64(b, at + 16),
        file_id: le64(b, at + 96),
        reparse_tag: 0,
    }
}

/// Whether the entry at `at` lies within the buffer, name included.
pub open spec fn has_entry(b: Seq<u8>, at: int) -> bool {
    &&& at + HEADER_LEN <= b.len()
    &&& at + HEADER_LEN + le32(b, at + 60) <= b.len()
}

/// Whether the units are those of `.` or `..`, by which a directory lists itself and the one it
/// stands in.
pub open spec fn is_dots(units: Seq<u16>) -> bool {
    units == seq![0x2Eu16] || units == seq![0x2Eu16, 0x2Eu16]
}

/// The entries from `at` on: each tells how far on the next one is, and the last says 0. What does
/// not lie within the buffer is no entry.
pub open spec fn entries_from(b: Seq<u8>, at: int) -> Seq<Entry>
    decreases b.len() - at,
{
    if at < 0 || !has_entry(b, at) {
        Seq::empty()
    } else {
        let here = if is_dots(name_units(b, at)) {
            Seq::empty()
        } else {
            seq![entry_at(b, at)]
        };
        let next = le32(b, at) as int;
        if next == 0 || at + next > b.len() {
            here
        } else {
            here + entries_from(b, at + next)
        }
    }
}

fn tells_dots(units: &Vec<u16>) -> (r: bool)
    ensures
        r == is_dots(units@),
{
    let r = (units.len() == 1 && units[0] == 0x2E) || (units.len() == 2 && units[0] == 0x2E && units[1] == 0x2E);
    proof {
        if r {
            assert(units@ =~= seq![0x2Eu16] || units@ =~= seq![0x2Eu16, 0x2Eu16]);
        }
    }
    r
}

/// The entries that the system put into a buffer, which may be too short or hold anything.
pub fn parse_dir_batch(buf: &[u8]) -> (r: Vec<RawDirEntry>)
    ensures
        entries_of(r@) == entries_from(buf@, 0),
{
    let mut out: Vec<RawDirEntry> = Vec::new();
    let mut at: usize = 0;
    assert(entries_of(out@) =~= Seq::<Entry>::empty());
    loop
        invariant_except_break
            at <= buf@.len(),
            entries_of(out@) + entries_from(buf@, at as int) =~= entries_from(buf@, 0),
        ensures
            entries_of(out@) == entries_from(buf@, 0),
        decreases buf@.len() - at,
    {
        if !fits(buf.len(), at, HEADER_LEN) {
            break;
        }
        let name_len: u32 = read_u32(buf, at + 60);
        if !fits(buf.len(), at + HEADER_LEN, name_len as usize) {
            break;
        }
        let units = read_u16s(buf, at + HEADER_LEN, (name_len / 2) as usize);
        let ghost before = out@;
        if !tells_dots(&units) {
            let attrs: u32 = read_u32(buf, at + 56);
            let e = RawDirEntry {
                name: String::from_utf16_lossy(units.as_slice()),
                is_dir: attrs & FILE_ATTRIBUTE_DIRECTORY != 0,
                logical: read_u64(buf, at + 40),
                physical: read_u64(buf, at + 48),
                attrs,
                modified_ft: read_u64(buf, at + 24),
                created_ft: read_u64(buf, at + 8),
                accessed_ft: read_u64(buf, at + 16),
                file_id: read_u64(buf, at + 96),
                reparse_tag: 0,
            };
            out.push(e);
            assert(entries_of(out@) =~= entries_of(before).push(entry_at(buf@, at as int)));
        }
        let next: u32 = read_u32(buf, at);
        if next == 0 || next as usize > buf.len() - at {
            break;
        }
        at = at + next as usize;
    }
    out
}

// ---------------------------------------------------------------------------------------------
// What the system writes
// ---------------------------------------------------------------------------------------------

/// The entry `e` as the system writes it, with the next one `next` bytes further on.
#[verifier::opaque]
pub open spec fn written(e: Entry, next: u32) -> Seq<u8> {
    le_bytes(next as nat, 4) + zeros(4) + le_bytes(e.created_ft as nat, 8) + le_bytes(e.accessed_ft as nat, 8)
        + le_bytes(e.modified_ft as nat, 8) + zeros(8) + le_bytes(e.logical as nat, 8) + le_bytes(
        e.physical as nat,
        8,
    ) + le_bytes(e.attrs as nat, 4) + le_bytes(2 * encoded(e.name).len(), 4) + zeros(32) + le_bytes(
        e.file_id as nat,
        8,
    ) + unit_bytes(encoded(e.name))
}

/// How many bytes an entry takes up.
pub open spec fn written_len(e: Entry) -> nat {
    104 + 2 * encoded(e.name).len()
}

/// Whether `e` is an entry as the system lists them: marked as a directory if it is one, with no tag,
/// and with a name that fits and is neither `.` nor `..`.
pub open spec fn can_be_listed(e: Entry) -> bool {
    &&& e.is_dir == (e.attrs / 0x10 % 2 == 1)
    &&& e.reparse_tag == 0
    &&& encoded(e.name).len() < 0x4000_0000
    &&& e.name != "."@
    &&& e.name != ".."@
}

proof fn lemma_written(b: Seq<u8>, at: int, e: Entry, next: u32)
    requires
        holds(b, at, written(e, next)),
        encoded(e.name).len() < 0x4000_0000,
    ensures
        written(e, next).len() == written_len(e),
        le32(b, at) == next,
        le64(b, at + 8) == e.created_ft,
        le64(b, at + 16) == e.accessed_ft,
        le64(b, at + 24) == e.modified_ft,
        le64(b, at + 40) == e.logical,
        le64(b, at + 48) == e.physical,
        le32(b, at + 56) == e.attrs,
        le32(b, at + 60) == 2 * encoded(e.name).len(),
        le64(b, at + 96) == e.file_id,
        le16s(b, at + 104, encoded(e.name).len()) == encoded(e.name),
{
    reveal(written);
    let n = encoded(e.name);
    let a0 = le_bytes(next as nat, 4);
    let a1 = zeros(4);
    let a2 = le_bytes(e.created_ft as nat, 8);
    let a3 = le_bytes(e.accessed_ft as nat, 8);
    let a4 = le_bytes(e.modified_ft as nat, 8);
    let a5 = zeros(8);
    let a6 = le_bytes(e.logical as nat, 8);
    let a7 = le_bytes(e.physical as nat, 8);
    let a8 = le_bytes(e.attrs as nat, 4);
    let a9 = le_bytes(2 * n.len(), 4);
    let b0 = zeros(32);
    let b1 = le_bytes(e.file_id as nat, 8);
    let b2 = unit_bytes(n);
    lemma_le_bytes(next as nat, 4);
    lemma_le_bytes(e.created_ft as nat, 8);
    lemma_le_bytes(e.accessed_ft as nat, 8);
    lemma_le_bytes(e.modified_ft as nat, 8);
    lemma_le_bytes(e.logical as nat, 8);
    lemma_le_bytes(e.physical as nat, 8);
    lemma_le_bytes(e.attrs as nat, 4);
    lemma_le_bytes(2 * n.len(), 4);
    lemma_le_bytes(e.file_id as nat, 8);
    lemma_holds_both(b, at, a0 + a1 + a2 + a3 + a4 + a5 + a6 + a7 + a8 + a9 + b0 + b1, b2);
    lemma_holds_both(b, at, a0 + a1 + a2 + a3 + a4 + a5 + a6 + a7 + a8 + a9 + b0, b1);
    lemma_holds_both(b, at, a0 + a1 + a2 + a3 + a4 + a5 + a6 + a7 + a8 + a9, b0);
    lemma_holds_both(b, at, a0 + a1 + a2 + a3 + a4 + a5 + a6 + a7 + a8, a9);
    lemma_holds_both(b, at, a0 + a1 + a2 + a3 + a4 + a5 + a6 + a7, a8);
    lemma_holds_both(b, at, a0 + a1 + a2 + a3 + a4 + a5 + a6, a7);
    lemma_holds_both(b, at, a0 + a1 + a2 + a3 + a4 + a5, a6);
    lemma_holds_both(b, at, a0 + a1 + a2 + a3 + a4, a5);
    lemma_holds_both(b, at, a0 + a1 + a2 + a3, a4);
    lemma_holds_both(b, at, a0 + a1 + a2, a3);
    lemma_holds_both(b, at, a0 + a1, a2);
    lemma_holds_both(b, at, a0, a1);
    law_written_u32_is_read(b, at, next);
    law_written_u64_is_read(b, at + 8, e.created_ft);
    law_written_u64_is_read(b, at + 16, e.accessed_ft);
    law_written_u64_is_read(b, at + 24, e.modified_ft);
    law_written_u64_is_read(b, at + 40, e.logical);
    law_written_u64_is_read(b, at + 48, e.physical);
    law_written_u32_is_read(b, at + 56, e.attrs);
    law_written_u32_is_read(b, at + 60, (2 * n.len()) as u32);
    law_written_u64_is_read(b, at + 96, e.file_id);
    law_written_units_are_read(b, at + 104, n);
}

/// The units of a name that is not `.` or `..` are not those of these.
proof fn lemma_no_dots(name: Seq<char>)
    requires
        name != "."@,
        name != ".."@,
    ensures
        !is_dots(encoded(name)),
{
    law_wide_text_reads_back(name);
    reveal_strlit(".");
    reveal_strlit("..");
    reveal_with_fuel(utf16_lossy, 3);
    let one = seq![0x2Eu16];
    let two = seq![0x2Eu16, 0x2Eu16];
    assert(one.skip(1) =~= Seq::empty());
    assert(two.skip(1) =~= one);
    assert(0x2Eu16 as char == '.');
    assert(utf16_lossy(one) =~= "."@);
    assert(utf16_lossy(two) =~= ".."@);
}

/// Whether the entries `es` stand in `b` from `at` on as the system writes them: each says how far on
/// the next one is, and the last says 0.
pub open spec fn holds_entries(b: Seq<u8>, at: int, es: Seq<Entry>) -> bool
    decreases es.len(),
{
    if es.len() == 0 {
        at == b.len()
    } else if es.len() == 1 {
        holds(b, at, written(es[0], 0))
    } else {
        exists|next: u32|
            #![trigger written(es[0], next)]
            next >= written_len(es[0]) && holds(b, at, written(es[0], next)) && at + next <= b.len()
                && holds_entries(b, at + next, es.skip(1))
    }
}

/// Whatever entries the system writes into a buffer are read, all of them and in their order, each
/// with its name, its two sizes, its three times, its attributes and its id.
pub proof fn law_written_entries_are_read(b: Seq<u8>, at: int, es: Seq<Entry>)
    requires
        0 <= at,
        holds_entries(b, at, es),
        forall|i: int| 0 <= i < es.len() ==> can_be_listed(#[trigger] es[i]),
    ensures
        entries_from(b, at) == es,
    decreases es.len(),
{
    if es.len() == 0 {
        assert(!has_entry(b, at));
        assert(es =~= Seq::empty());
    } else {
        let e = es[0];
        assert(can_be_listed(e));
        let next: u32 = if es.len() == 1 {
            0
        } else {
            choose|next: u32|
                #![trigger written(es[0], next)]
                next >= written_len(es[0]) && holds(b, at, written(es[0], next)) && at + next <= b.len()
                    && holds_entries(b, at + next, es.skip(1))
        };
        lemma_written(b, at, e, next);
        lemma_no_dots(e.name);
        law_wide_text_reads_back(e.name);
        let a = e.attrs;
        assert((a & 0x10 != 0) == (a / 0x10 % 2 == 1)) by (bit_vector);
        assert((2 * encoded(e.name).len()) as u32 / 2 == encoded(e.name).len());
        assert(name_units(b, at) == encoded(e.name));
        assert(entry_at(b, at) == e);
        if es.len() == 1 {
            assert(es =~= seq![e]);
        } else {
            let rest = es.skip(1);
            assert forall|i: int| 0 <= i < rest.len() implies can_be_listed(#[trigger] rest[i]) by {
                assert(can_be_listed(es[i + 1]));
            }
            law_written_entries_are_read(b, at + next, rest);
            assert(es =~= seq![e] + rest);
        }
    }
}


/// The entries `.` and `..` are left out, and what stands behind them is read.
pub proof fn law_dots_are_left_out(b: Seq<u8>, at: int)
    requires
        0 <= at,
        at + 104 + le32(b, at + 60) <= b.len(),
        le16s(b, at + 104, (le32(b, at + 60) / 2) as nat) == seq![0x2Eu16] || le16s(
            b,
            at + 104,
            (le32(b, at + 60) / 2) as nat,
        ) == seq![0x2Eu16, 0x2Eu16],
    ensures
        le32(b, at) == 0 ==> entries_from(b, at).len() == 0,
        le32(b, at) > 0 && at + le32(b, at) <= b.len() ==> entries_from(b, at) == entries_from(b, at + le32(b, at)),
{
    let next = le32(b, at) as int;
    if next > 0 && at + next <= b.len() {
        assert(Seq::<Entry>::empty() + entries_from(b, at + next) =~= entries_from(b, at + next));
    }
}

} // verus!
