//! FILE records as they are written, and what is learned from them.
//!
//! Every number of a record has its place, and so has every attribute. Here records are put together
//! from the numbers and names that they are to tell, and it is shown that a volume knows exactly
//! those once the record is taken in, and that reading the single record gives them too.
use vstd::prelude::*;

verus! {

use crate::bytes::{
    holds,
    law_written_u16_is_read,
    law_written_u32_is_read,
    law_written_u64_is_read,
    law_written_units_are_read,
    le16,
    le16s,
    le32,
    le64,
    le_bytes,
    lemma_holds_both,
    lemma_le_bytes,
    unit_bytes,
    zeros,
};
use crate::mft_parse::{
    attribute_at,
    attribute_offsets,
    data_size_at,
    file_name_at,
    first_attribute,
    has_value_header,
    is_file_record,
    is_resident,
    last_data_size,
    last_std_info,
    names_among,
    parsed,
    record_in_use,
    record_is_dir,
    record_number,
    std_info_at,
    usa_in_record,
    value_len,
    value_start,
    NameModel,
};
use crate::mft_scan::{
    base_index,
    is_reparse_point,
    is_std_info,
    listed_at,
    marked_attributes,
    rounded_up_to_8,
    starts_stream,
    stream_name,
    unknown_file,
    usable_bytes,
    with_attribute,
    with_attributes,
    with_data,
    with_listed,
    with_names,
    with_record,
    FileRecordBase,
    Listed,
    Volume,
};
use crate::text::utf16_lossy;
use crate::wide::{encoded, law_wide_text_reads_back};

// ---------------------------------------------------------------------------------------------
// Writing
// ---------------------------------------------------------------------------------------------

/// The attribute of type `kind`, called `name`, that has `value` inside the record.
#[verifier::opaque]
pub open spec fn kept_inside(kind: u32, name: Seq<u16>, value: Seq<u8>) -> Seq<u8> {
    le_bytes(kind as nat, 4) + le_bytes(24 + 2 * name.len() + value.len(), 4) + seq![0u8] + seq![name.len() as u8]
        + le_bytes(24, 2) + zeros(4) + le_bytes(value.len(), 4) + le_bytes(24 + 2 * name.len(), 2) + zeros(2)
        + unit_bytes(name) + value
}

/// What an attribute tells of a stream that is kept outside the record.
pub struct Stream {
    pub flags: u16,
    pub name: Seq<u16>,
    /// The number of the first cluster of the stream that this attribute tells about.
    pub lowest: u64,
    /// The room that is set aside.
    pub allocated: u64,
    /// The length in bytes.
    pub size: u64,
    /// The room that is used, where the stream is compressed or sparse.
    pub used: u64,
}

/// The `$DATA` attribute of a stream that is kept outside the record.
#[verifier::opaque]
pub open spec fn kept_outside(s: Stream) -> Seq<u8> {
    le_bytes(0x80, 4) + le_bytes(0x48 + 2 * s.name.len(), 4) + seq![1u8] + seq![s.name.len() as u8] + le_bytes(
        0x48,
        2,
    ) + le_bytes(s.flags as nat, 2) + zeros(2) + le_bytes(s.lowest as nat, 8) + zeros(16) + le_bytes(
        s.allocated as nat,
        8,
    ) + le_bytes(s.size as nat, 8) + zeros(8) + le_bytes(s.used as nat, 8) + unit_bytes(s.name)
}

/// A FILE record without an update sequence: its flags, the reference to the base record of its file
/// (0 for a base record), its attributes, and the end mark.
#[verifier::opaque]
pub open spec fn file_record(flags: u16, base_reference: u64, attributes: Seq<u8>) -> Seq<u8> {
    seq![0x46u8, 0x49u8, 0x4Cu8, 0x45u8] + zeros(16) + le_bytes(48, 2) + le_bytes(flags as nat, 2) + zeros(8)
        + le_bytes(base_reference as nat, 8) + zeros(8) + attributes + le_bytes(0xFFFF_FFFF, 4) + zeros(12)
}

proof fn lemma_zeros(r: Seq<u8>, at: int, n: nat)
    requires
        holds(r, at, zeros(n)),
    ensures
        forall|i: int| at <= i < at + n ==> #[trigger] r[i] == 0,
{
    assert forall|i: int| at <= i < at + n implies #[trigger] r[i] == 0 by {
        assert(zeros(n)[i - at] == 0);
    }
}

/// The fields of an attribute that has its value inside the record.
proof fn lemma_inside(r: Seq<u8>, off: int, kind: u32, name: Seq<u16>, value: Seq<u8>)
    requires
        holds(r, off, kept_inside(kind, name, value)),
        name.len() < 0x100,
        value.len() < 0x1_0000_0000 - 0x1000,
        kind != 0xFFFF_FFFF,
    ensures
        kept_inside(kind, name, value).len() == 24 + 2 * name.len() + value.len(),
        le32(r, off) == kind,
        le32(r, off + 4) == 24 + 2 * name.len() + value.len(),
        attribute_at(r, off),
        is_resident(r, off),
        r[off + 9] == name.len(),
        le16(r, off + 10) == 24,
        has_value_header(r, off),
        value_len(r, off) == value.len(),
        value_start(r, off) == off + 24 + 2 * name.len(),
        le16s(r, off + 24, name.len()) == name,
        holds(r, off + 24 + 2 * name.len(), value),
{
    reveal(kept_inside);
    let a0 = le_bytes(kind as nat, 4);
    let a1 = le_bytes(24 + 2 * name.len() + value.len(), 4);
    let a2 = seq![0u8];
    let a3 = seq![name.len() as u8];
    let a4 = le_bytes(24, 2);
    let a5 = zeros(4);
    let a6 = le_bytes(value.len(), 4);
    let a7 = le_bytes(24 + 2 * name.len(), 2);
    let a8 = zeros(2);
    let a9 = unit_bytes(name);
    lemma_le_bytes(kind as nat, 4);
    lemma_le_bytes(24 + 2 * name.len() + value.len(), 4);
    lemma_le_bytes(24, 2);
    lemma_le_bytes(value.len(), 4);
    lemma_le_bytes(24 + 2 * name.len(), 2);
    lemma_holds_both(r, off, a0 + a1 + a2 + a3 + a4 + a5 + a6 + a7 + a8 + a9, value);
    lemma_holds_both(r, off, a0 + a1 + a2 + a3 + a4 + a5 + a6 + a7 + a8, a9);
    lemma_holds_both(r, off, a0 + a1 + a2 + a3 + a4 + a5 + a6 + a7, a8);
    lemma_holds_both(r, off, a0 + a1 + a2 + a3 + a4 + a5 + a6, a7);
    lemma_holds_both(r, off, a0 + a1 + a2 + a3 + a4 + a5, a6);
    lemma_holds_both(r, off, a0 + a1 + a2 + a3 + a4, a5);
    lemma_holds_both(r, off, a0 + a1 + a2 + a3, a4);
    lemma_holds_both(r, off, a0 + a1 + a2, a3);
    lemma_holds_both(r, off, a0 + a1, a2);
    lemma_holds_both(r, off, a0, a1);
    law_written_u32_is_read(r, off, kind);
    law_written_u32_is_read(r, off + 4, (24 + 2 * name.len() + value.len()) as u32);
    assert(a2[0] == 0 && a3[0] == name.len() as u8);
    assert(r[off + 8 + 0] == a2[0]);
    assert(r[off + 9 + 0] == a3[0]);
    law_written_u16_is_read(r, off + 10, 24);
    law_written_u32_is_read(r, off + 16, value.len() as u32);
    law_written_u16_is_read(r, off + 20, (24 + 2 * name.len()) as u16);
    law_written_units_are_read(r, off + 24, name);
}

/// The fields of an attribute of a stream that is kept outside the record.
proof fn lemma_outside(r: Seq<u8>, off: int, s: Stream)
    requires
        holds(r, off, kept_outside(s)),
        s.name.len() < 0x100,
    ensures
        kept_outside(s).len() == 0x48 + 2 * s.name.len(),
        off + 0x48 + 2 * s.name.len() <= r.len(),
        le32(r, off) == 0x80,
        le32(r, off + 4) == 0x48 + 2 * s.name.len(),
        attribute_at(r, off),
        r[off + 8] == 1,
        r[off + 9] == s.name.len(),
        le16(r, off + 10) == 0x48,
        le16(r, off + 12) == s.flags,
        le64(r, off + 16) == s.lowest,
        le64(r, off + 0x28) == s.allocated,
        le64(r, off + 0x30) == s.size,
        le64(r, off + 0x40) == s.used,
        le16s(r, off + 0x48, s.name.len()) == s.name,
{
    reveal(kept_outside);
    let a0 = le_bytes(0x80, 4);
    let a1 = le_bytes(0x48 + 2 * s.name.len(), 4);
    let a2 = seq![1u8];
    let a3 = seq![s.name.len() as u8];
    let a4 = le_bytes(0x48, 2);
    let a5 = le_bytes(s.flags as nat, 2);
    let a6 = zeros(2);
    let a7 = le_bytes(s.lowest as nat, 8);
    let a8 = zeros(16);
    let a9 = le_bytes(s.allocated as nat, 8);
    let b0 = le_bytes(s.size as nat, 8);
    let b1 = zeros(8);
    let b2 = le_bytes(s.used as nat, 8);
    let b3 = unit_bytes(s.name);
    lemma_le_bytes(0x80, 4);
    lemma_le_bytes(0x48 + 2 * s.name.len(), 4);
    lemma_le_bytes(0x48, 2);
    lemma_le_bytes(s.flags as nat, 2);
    lemma_le_bytes(s.lowest as nat, 8);
    lemma_le_bytes(s.allocated as nat, 8);
    lemma_le_bytes(s.size as nat, 8);
    lemma_le_bytes(s.used as nat, 8);
    lemma_holds_both(r, off, a0 + a1 + a2 + a3 + a4 + a5 + a6 + a7 + a8 + a9 + b0 + b1 + b2, b3);
    lemma_holds_both(r, off, a0 + a1 + a2 + a3 + a4 + a5 + a6 + a7 + a8 + a9 + b0 + b1, b2);
    lemma_holds_both(r, off, a0 + a1 + a2 + a3 + a4 + a5 + a6 + a7 + a8 + a9 + b0, b1);
    lemma_holds_both(r, off, a0 + a1 + a2 + a3 + a4 + a5 + a6 + a7 + a8 + a9, b0);
    lemma_holds_both(r, off, a0 + a1 + a2 + a3 + a4 + a5 + a6 + a7 + a8, a9);
    lemma_holds_both(r, off, a0 + a1 + a2 + a3 + a4 + a5 + a6 + a7, a8);
    lemma_holds_both(r, off, a0 + a1 + a2 + a3 + a4 + a5 + a6, a7);
    lemma_holds_both(r, off, a0 + a1 + a2 + a3 + a4 + a5, a6);
    lemma_holds_both(r, off, a0 + a1 + a2 + a3 + a4, a5);
    lemma_holds_both(r, off, a0 + a1 + a2 + a3, a4);
    lemma_holds_both(r, off, a0 + a1 + a2, a3);
    lemma_holds_both(r, off, a0 + a1, a2);
    lemma_holds_both(r, off, a0, a1);
    law_written_u32_is_read(r, off, 0x80);
    law_written_u32_is_read(r, off + 4, (0x48 + 2 * s.name.len()) as u32);
    assert(a2[0] == 1 && a3[0] == s.name.len() as u8);
    assert(r[off + 8 + 0] == a2[0]);
    assert(r[off + 9 + 0] == a3[0]);
    law_written_u16_is_read(r, off + 10, 0x48);
    law_written_u16_is_read(r, off + 12, s.flags);
    law_written_u64_is_read(r, off + 16, s.lowest);
    law_written_u64_is_read(r, off + 0x28, s.allocated);
    law_written_u64_is_read(r, off + 0x30, s.size);
    law_written_u64_is_read(r, off + 0x40, s.used);
    law_written_units_are_read(r, off + 0x48, s.name);
}

/// The fields of a record's head, and where its attributes stand.
proof fn lemma_head(flags: u16, base_reference: u64, attributes: Seq<u8>)
    ensures
        ({
            let r = file_record(flags, base_reference, attributes);
            &&& r.len() == 64 + attributes.len()
            &&& is_file_record(r)
            &&& !usa_in_record(r)
            &&& first_attribute(r) == 48
            &&& le16(r, 22) == flags
            &&& le64(r, 32) == base_reference
            &&& holds(r, 48, attributes)
            &&& le32(r, 48 + attributes.len() as int) == 0xFFFF_FFFF
            &&& !attribute_at(r, 48 + attributes.len() as int)
        }),
{
    reveal(file_record);
    let r = file_record(flags, base_reference, attributes);
    let a0 = seq![0x46u8, 0x49u8, 0x4Cu8, 0x45u8];
    let a1 = zeros(16);
    let a2 = le_bytes(48, 2);
    let a3 = le_bytes(flags as nat, 2);
    let a4 = zeros(8);
    let a5 = le_bytes(base_reference as nat, 8);
    let a6 = zeros(8);
    let a8 = le_bytes(0xFFFF_FFFF, 4);
    let a9 = zeros(12);
    lemma_le_bytes(48, 2);
    lemma_le_bytes(flags as nat, 2);
    lemma_le_bytes(base_reference as nat, 8);
    lemma_le_bytes(0xFFFF_FFFF, 4);
    assert(holds(r, 0, r));
    lemma_holds_both(r, 0, a0 + a1 + a2 + a3 + a4 + a5 + a6 + attributes + a8, a9);
    lemma_holds_both(r, 0, a0 + a1 + a2 + a3 + a4 + a5 + a6 + attributes, a8);
    lemma_holds_both(r, 0, a0 + a1 + a2 + a3 + a4 + a5 + a6, attributes);
    lemma_holds_both(r, 0, a0 + a1 + a2 + a3 + a4 + a5, a6);
    lemma_holds_both(r, 0, a0 + a1 + a2 + a3 + a4, a5);
    lemma_holds_both(r, 0, a0 + a1 + a2 + a3, a4);
    lemma_holds_both(r, 0, a0 + a1 + a2, a3);
    lemma_holds_both(r, 0, a0 + a1, a2);
    lemma_holds_both(r, 0, a0, a1);
    assert(a0[0] == 0x46 && a0[1] == 0x49 && a0[2] == 0x4C && a0[3] == 0x45);
    lemma_zeros(r, 4, 16);
    assert(r[6] == 0 && r[7] == 0);
    law_written_u16_is_read(r, 20, 48);
    law_written_u16_is_read(r, 22, flags);
    law_written_u64_is_read(r, 32, base_reference);
    law_written_u32_is_read(r, 48 + attributes.len() as int, 0xFFFF_FFFF);
}

// ---------------------------------------------------------------------------------------------
// What a volume learns
// ---------------------------------------------------------------------------------------------

/// What a volume knows of file `number`; of a file that it has not come by, nothing.
pub open spec fn gathered(v: Volume, number: u64) -> FileRecordBase {
    if v.files.contains_key(number) {
        v.files[number]
    } else {
        FileRecordBase {
            logical_size: 0,
            physical_size: 0,
            last_modified_ft: 0,
            created_ft: 0,
            accessed_ft: 0,
            attributes: 0,
            reparse_tag: 0,
        }
    }
}

/// A reference to record `number`, whose record was used for the `sequence`-th time.
pub open spec fn reference_to(number: u64, sequence: u16) -> u64 {
    (number + 0x1_0000_0000_0000 * sequence) as u64
}

/// Whether a record with the number `current` and the given reference to a base record tells of file
/// `number`: a record without a reference is its own base record.
pub open spec fn tells_of(base_reference: u64, current: u64, number: u64) -> bool {
    if base_reference == 0 {
        number == current
    } else {
        number < 0x1_0000_0000_0000 && exists|q: u16| base_reference == #[trigger] reference_to(number, q)
    }
}

proof fn lemma_number(reference: u64, number: u64, sequence: u16)
    requires
        number < 0x1_0000_0000_0000,
        reference == reference_to(number, sequence),
    ensures
        record_number(reference) == number,
{
    assert(number + 0x1_0000_0000_0000 * sequence <= u64::MAX);
}

proof fn lemma_tells_of(r: Seq<u8>, base_reference: u64, current: u64, number: u64)
    requires
        le64(r, 32) == base_reference,
        tells_of(base_reference, current, number),
    ensures
        base_index(r, current) == number,
{
    if base_reference != 0 {
        let q = choose|q: u16| base_reference == #[trigger] reference_to(number, q);
        lemma_number(base_reference, number, q);
    }
}

/// A record in use adds what its attributes say to the file that it tells of.
proof fn lemma_in_use(v: Volume, flags: u16, base_reference: u64, attributes: Seq<u8>, current: u64, number: u64)
    requires
        flags % 2 == 1,
        tells_of(base_reference, current, number),
    ensures
        ({
            let r = file_record(flags, base_reference, attributes);
            let offs = attribute_offsets(r, 48);
            &&& with_record(v, r, current).files == v.files.insert(
                number,
                with_attributes(r, flags / 2 % 2 == 1, offs, gathered(v, number)),
            )
            &&& with_record(v, r, current).listings == with_names(r, offs, number, v.listings)
        }),
{
    lemma_head(flags, base_reference, attributes);
    let r = file_record(flags, base_reference, attributes);
    lemma_tells_of(r, base_reference, current, number);
    lemma_usable(r);
    let known = if v.files.contains_key(number) {
        v.files[number]
    } else {
        unknown_file()
    };
    assert(gathered(v, number) == known);
    assert(record_in_use(r));
    assert(record_is_dir(r) == (flags / 2 % 2 == 1));
}

proof fn lemma_usable(r: Seq<u8>)
    requires
        !usa_in_record(r),
    ensures
        usable_bytes(r) == (r, true),
{
}

/// The same for a record with a single attribute.
proof fn lemma_single(v: Volume, flags: u16, base_reference: u64, attribute: Seq<u8>, current: u64, number: u64)
    requires
        flags % 2 == 1,
        tells_of(base_reference, current, number),
        attribute_at(file_record(flags, base_reference, attribute), 48),
        le32(file_record(flags, base_reference, attribute), 52) == attribute.len(),
    ensures
        ({
            let r = file_record(flags, base_reference, attribute);
            &&& with_record(v, r, current).files == v.files.insert(
                number,
                with_attribute(r, flags / 2 % 2 == 1, 48, gathered(v, number)),
            )
            &&& with_record(v, r, current).listings == match listed_at(r, 48) {
                Some((parent, name)) => with_listed(v.listings, parent, Listed { name, base_record: number }),
                None => v.listings,
            }
        }),
{
    let r = file_record(flags, base_reference, attribute);
    lemma_in_use(v, flags, base_reference, attribute, current, number);
    lemma_head(flags, base_reference, attribute);
    reveal_with_fuel(attribute_offsets, 2);
    reveal_with_fuel(with_attributes, 2);
    reveal_with_fuel(with_names, 2);
    assert(attribute_offsets(r, 48) =~= seq![48int]);
    assert(seq![48int].drop_last() =~= Seq::empty());
}

/// A record that is not in use changes nothing, whatever its attributes say.
#[verifier::rlimit(40)]
pub proof fn law_unused_records_say_nothing(
    v: Volume,
    flags: u16,
    base_reference: u64,
    attributes: Seq<u8>,
    current: u64,
)
    requires
        flags % 2 == 0,
    ensures
        with_record(v, file_record(flags, base_reference, attributes), current) == v,
{
    lemma_head(flags, base_reference, attributes);
}

#[verifier::rlimit(40)]
proof fn lemma_outside_told(r: Seq<u8>, off: int, is_dir: bool, s: Stream, b: FileRecordBase)
    requires
        holds(r, off, kept_outside(s)),
        s.name.len() == 0,
    ensures
        listed_at(r, off) is None,
        s.lowest != 0 ==> with_attribute(r, is_dir, off, b) == b,
        s.lowest == 0 ==> with_attribute(r, is_dir, off, b) == (FileRecordBase {
            logical_size: s.size,
            physical_size: if s.flags % 2 == 1 || s.flags >= 0x8000 {
                if s.used > 0 {
                    s.used
                } else {
                    b.physical_size
                }
            } else if s.allocated > 0 {
                s.allocated
            } else {
                b.physical_size
            },
            ..b
        }),
{
    lemma_outside(r, off, s);
    let f = s.flags;
    assert((f & 0x0001 != 0) == (f % 2 == 1)) by (bit_vector);
    assert((f & 0x8000 != 0) == (f >= 0x8000)) by (bit_vector);
}

/// A stream that is kept outside the record tells its whole size, in all of its 64 bits, and the
/// room that it has: the room that it uses, where it is compressed or sparse, else the room that is
/// set aside. Room that is not told leaves the room that is known. Nothing else about the file
/// changes, and no other file. Only the attribute that starts the stream tells anything.
#[verifier::rlimit(40)]
pub proof fn law_streams_outside_tell_size_and_room(
    v: Volume,
    flags: u16,
    base_reference: u64,
    s: Stream,
    current: u64,
    number: u64,
)
    requires
        flags % 2 == 1,
        tells_of(base_reference, current, number),
        s.name.len() == 0,
    ensures
        ({
            let w = with_record(v, file_record(flags, base_reference, kept_outside(s)), current);
            let before = gathered(v, number);
            let after = w.files[number];
            &&& w.files.contains_key(number) && w.files.remove(number) == v.files.remove(number)
            &&& w.listings == v.listings
            &&& s.lowest != 0 ==> after == before
            &&& s.lowest == 0 ==> {
                &&& after.logical_size == s.size
                &&& s.flags % 2 == 1 || s.flags >= 0x8000 ==> s.used > 0 ==> after.physical_size == s.used
                &&& s.flags % 2 == 0 && s.flags < 0x8000 ==> s.allocated > 0 ==> after.physical_size == s.allocated
                &&& s.used == 0 && s.allocated == 0 ==> after.physical_size == before.physical_size
                &&& after == (FileRecordBase {
                    logical_size: after.logical_size,
                    physical_size: after.physical_size,
                    ..before
                })
            }
        }),
{
    let r = file_record(flags, base_reference, kept_outside(s));
    lemma_head(flags, base_reference, kept_outside(s));
    lemma_outside(r, 48, s);
    lemma_outside_told(r, 48, flags / 2 % 2 == 1, s, gathered(v, number));
    lemma_single(v, flags, base_reference, kept_outside(s), current, number);
    let w = with_record(v, r, current);
    assert(w.files.remove(number) =~= v.files.remove(number));
}

proof fn lemma_rounded(n: nat)
    requires
        n < 0x1_0000_0000,
    ensures
        n <= rounded_up_to_8(n as int) < n + 8,
        rounded_up_to_8(n as int) % 8 == 0,
{
}

#[verifier::rlimit(40)]
proof fn lemma_inside_told(r: Seq<u8>, off: int, is_dir: bool, content: Seq<u8>, b: FileRecordBase)
    requires
        holds(r, off, kept_inside(0x80, Seq::empty(), content)),
        content.len() < 0x1_0000_0000 - 0x1000,
    ensures
        listed_at(r, off) is None,
        ({
            let after = with_attribute(r, is_dir, off, b);
            &&& after.logical_size == content.len()
            &&& content.len() <= after.physical_size < content.len() + 8
            &&& after.physical_size % 8 == 0
            &&& after == (FileRecordBase {
                logical_size: after.logical_size,
                physical_size: after.physical_size,
                ..b
            })
        }),
{
    lemma_inside(r, off, 0x80, Seq::empty(), content);
    lemma_rounded(content.len());
    assert(with_attribute(r, is_dir, off, b) == with_data(r, off, b));
}

/// A stream that is kept inside the record is as long as what is there, and has room for it in steps
/// of 8 bytes, and no more. Nothing else about the file changes, and no other file.
#[verifier::rlimit(40)]
pub proof fn law_streams_inside_tell_size_and_room(
    v: Volume,
    flags: u16,
    base_reference: u64,
    content: Seq<u8>,
    current: u64,
    number: u64,
)
    requires
        flags % 2 == 1,
        tells_of(base_reference, current, number),
        content.len() < 0x1_0000_0000 - 0x1000,
    ensures
        ({
            let w = with_record(
                v,
                file_record(flags, base_reference, kept_inside(0x80, Seq::empty(), content)),
                current,
            );
            let before = gathered(v, number);
            let after = w.files[number];
            &&& w.files.contains_key(number) && w.files.remove(number) == v.files.remove(number)
            &&& w.listings == v.listings
            &&& after.logical_size == content.len()
            &&& content.len() <= after.physical_size < content.len() + 8
            &&& after.physical_size % 8 == 0
            &&& after == (FileRecordBase {
                logical_size: after.logical_size,
                physical_size: after.physical_size,
                ..before
            })
        }),
{
    let a = kept_inside(0x80, Seq::empty(), content);
    let r = file_record(flags, base_reference, a);
    lemma_head(flags, base_reference, a);
    lemma_inside(r, 48, 0x80, Seq::empty(), content);
    lemma_inside_told(r, 48, flags / 2 % 2 == 1, content, gathered(v, number));
    lemma_single(v, flags, base_reference, a, current, number);
    let w = with_record(v, r, current);
    assert(w.files.remove(number) =~= v.files.remove(number));
}

#[verifier::rlimit(40)]
proof fn lemma_named_outside_told(r: Seq<u8>, off: int, is_dir: bool, s: Stream, b: FileRecordBase)
    requires
        holds(r, off, kept_outside(s)),
        0 < s.name.len() < 0x100,
    ensures
        listed_at(r, off) is None,
        with_attribute(r, is_dir, off, b) == (FileRecordBase {
            physical_size: if utf16_lossy(s.name) == "WofCompressedData"@ && s.lowest == 0 {
                s.allocated
            } else {
                b.physical_size
            },
            ..b
        }),
{
    lemma_outside(r, off, s);
    assert(stream_name(r, off) == Some(utf16_lossy(s.name)));
    assert(with_attribute(r, is_dir, off, b) == with_data(r, off, b));
}

#[verifier::rlimit(40)]
proof fn lemma_named_inside_told(
    r: Seq<u8>,
    off: int,
    is_dir: bool,
    name: Seq<u16>,
    content: Seq<u8>,
    b: FileRecordBase,
)
    requires
        holds(r, off, kept_inside(0x80, name, content)),
        0 < name.len() < 0x100,
        content.len() < 0x1_0000_0000 - 0x1000,
    ensures
        listed_at(r, off) is None,
        ({
            let room = with_attribute(r, is_dir, off, b).physical_size;
            &&& with_attribute(r, is_dir, off, b) == (FileRecordBase { physical_size: room, ..b })
            &&& if utf16_lossy(name) == "WofCompressedData"@ {
                content.len() <= room < content.len() + 8 && room % 8 == 0
            } else {
                room == b.physical_size
            }
        }),
{
    lemma_inside(r, off, 0x80, name, content);
    lemma_rounded(content.len());
    assert(stream_name(r, off) == Some(utf16_lossy(name)));
    assert(with_attribute(r, is_dir, off, b) == with_data(r, off, b));
}

/// Of the streams that have a name, only that of compressed system files counts: it tells the room
/// that the file has, and nothing more. Every other one says nothing. This is of streams that are
/// kept outside the record.
#[verifier::rlimit(40)]
pub proof fn law_named_streams_outside_tell_room_at_most(
    v: Volume,
    flags: u16,
    base_reference: u64,
    s: Stream,
    current: u64,
    number: u64,
)
    requires
        flags % 2 == 1,
        tells_of(base_reference, current, number),
        0 < s.name.len() < 0x100,
    ensures
        ({
            let w = with_record(v, file_record(flags, base_reference, kept_outside(s)), current);
            let before = gathered(v, number);
            let room = w.files[number].physical_size;
            &&& w.listings == v.listings
            &&& w.files == v.files.insert(number, FileRecordBase { physical_size: room, ..before })
            &&& room == if utf16_lossy(s.name) == "WofCompressedData"@ && s.lowest == 0 {
                s.allocated
            } else {
                before.physical_size
            }
        }),
{
    let a = kept_outside(s);
    let r = file_record(flags, base_reference, a);
    lemma_head(flags, base_reference, a);
    lemma_outside(r, 48, s);
    lemma_named_outside_told(r, 48, flags / 2 % 2 == 1, s, gathered(v, number));
    lemma_single(v, flags, base_reference, a, current, number);
}

/// The same of streams that are kept inside the record: room is counted in steps of 8 bytes.
#[verifier::rlimit(40)]
pub proof fn law_named_streams_inside_tell_room_at_most(
    v: Volume,
    flags: u16,
    base_reference: u64,
    name: Seq<u16>,
    content: Seq<u8>,
    current: u64,
    number: u64,
)
    requires
        flags % 2 == 1,
        tells_of(base_reference, current, number),
        0 < name.len() < 0x100,
        content.len() < 0x1_0000_0000 - 0x1000,
    ensures
        ({
            let w = with_record(v, file_record(flags, base_reference, kept_inside(0x80, name, content)), current);
            let before = gathered(v, number);
            let room = w.files[number].physical_size;
            &&& w.listings == v.listings
            &&& w.files == v.files.insert(number, FileRecordBase { physical_size: room, ..before })
            &&& if utf16_lossy(name) == "WofCompressedData"@ {
                content.len() <= room < content.len() + 8 && room % 8 == 0
            } else {
                room == before.physical_size
            }
        }),
{
    let a = kept_inside(0x80, name, content);
    let r = file_record(flags, base_reference, a);
    lemma_head(flags, base_reference, a);
    lemma_inside(r, 48, 0x80, name, content);
    lemma_named_inside_told(r, 48, flags / 2 % 2 == 1, name, content, gathered(v, number));
    lemma_single(v, flags, base_reference, a, current, number);
}

/// The times and the attributes of a file.
pub struct Times {
    pub created: u64,
    pub modified: u64,
    /// When the record itself was last changed.
    pub changed: u64,
    pub accessed: u64,
    pub attributes: u32,
    /// What stands where a single record is looked at for attributes.
    pub marks: u32,
}

/// The `$STANDARD_INFORMATION` of a file.
#[verifier::opaque]
pub open spec fn times_value(t: Times) -> Seq<u8> {
    le_bytes(t.created as nat, 8) + le_bytes(t.modified as nat, 8) + le_bytes(t.changed as nat, 8) + le_bytes(
        t.accessed as nat,
        8,
    ) + le_bytes(t.attributes as nat, 4) + zeros(12) + le_bytes(t.marks as nat, 4) + zeros(4)
}

proof fn lemma_times(r: Seq<u8>, at: int, t: Times)
    requires
        holds(r, at, times_value(t)),
    ensures
        times_value(t).len() == 0x38,
        le64(r, at) == t.created,
        le64(r, at + 8) == t.modified,
        le64(r, at + 0x18) == t.accessed,
        le32(r, at + 0x20) == t.attributes,
        le32(r, at + 0x30) == t.marks,
{
    reveal(times_value);
    let a0 = le_bytes(t.created as nat, 8);
    let a1 = le_bytes(t.modified as nat, 8);
    let a2 = le_bytes(t.changed as nat, 8);
    let a3 = le_bytes(t.accessed as nat, 8);
    let a4 = le_bytes(t.attributes as nat, 4);
    let a5 = zeros(12);
    let a6 = le_bytes(t.marks as nat, 4);
    let a7 = zeros(4);
    lemma_le_bytes(t.created as nat, 8);
    lemma_le_bytes(t.modified as nat, 8);
    lemma_le_bytes(t.changed as nat, 8);
    lemma_le_bytes(t.accessed as nat, 8);
    lemma_le_bytes(t.attributes as nat, 4);
    lemma_le_bytes(t.marks as nat, 4);
    lemma_holds_both(r, at, a0 + a1 + a2 + a3 + a4 + a5 + a6, a7);
    lemma_holds_both(r, at, a0 + a1 + a2 + a3 + a4 + a5, a6);
    lemma_holds_both(r, at, a0 + a1 + a2 + a3 + a4, a5);
    lemma_holds_both(r, at, a0 + a1 + a2 + a3, a4);
    lemma_holds_both(r, at, a0 + a1 + a2, a3);
    lemma_holds_both(r, at, a0 + a1, a2);
    lemma_holds_both(r, at, a0, a1);
    law_written_u64_is_read(r, at, t.created);
    law_written_u64_is_read(r, at + 8, t.modified);
    law_written_u64_is_read(r, at + 0x18, t.accessed);
    law_written_u32_is_read(r, at + 0x20, t.attributes);
    law_written_u32_is_read(r, at + 0x30, t.marks);
}

/// The attributes that a file has once its record is taken in: those of a directory say that it is
/// one, and no attributes at all are those of a normal file.
pub open spec fn told_attributes(attributes: u32, is_dir: bool) -> u32 {
    if is_dir {
        attributes | 0x10
    } else if attributes == 0 {
        0x80
    } else {
        attributes
    }
}

#[verifier::rlimit(40)]
proof fn lemma_times_told(r: Seq<u8>, off: int, is_dir: bool, t: Times, b: FileRecordBase)
    requires
        holds(r, off, kept_inside(0x10, Seq::empty(), times_value(t))),
    ensures
        listed_at(r, off) is None,
        with_attribute(r, is_dir, off, b) == (FileRecordBase {
            created_ft: t.created,
            last_modified_ft: t.modified,
            accessed_ft: t.accessed,
            attributes: told_attributes(t.attributes, is_dir),
            ..b
        }),
{
    let n = Seq::<u16>::empty();
    lemma_times_len(t);
    lemma_inside(r, off, 0x10, n, times_value(t));
    lemma_times(r, off + 24, t);
    let a = t.attributes;
    assert(a | 0x10 != 0) by (bit_vector);
    assert(is_std_info(r, off));
}

/// The times and attributes of a file come from its `$STANDARD_INFORMATION`, each from its own
/// field. Nothing else about the file changes, and no other file.
#[verifier::rlimit(40)]
pub proof fn law_times_and_attributes_are_told(
    v: Volume,
    flags: u16,
    base_reference: u64,
    t: Times,
    current: u64,
    number: u64,
)
    requires
        flags % 2 == 1,
        tells_of(base_reference, current, number),
    ensures
        ({
            let a = kept_inside(0x10, Seq::empty(), times_value(t));
            let w = with_record(v, file_record(flags, base_reference, a), current);
            let before = gathered(v, number);
            &&& w.listings == v.listings
            &&& w.files == v.files.insert(
                number,
                FileRecordBase {
                    created_ft: t.created,
                    last_modified_ft: t.modified,
                    accessed_ft: t.accessed,
                    attributes: told_attributes(t.attributes, flags / 2 % 2 == 1),
                    ..before
                },
            )
        }),
{
    let a = kept_inside(0x10, Seq::empty(), times_value(t));
    let r = file_record(flags, base_reference, a);
    lemma_head(flags, base_reference, a);
    lemma_times_told(r, 48, flags / 2 % 2 == 1, t, gathered(v, number));
    lemma_times_len(t);
    lemma_inside(r, 48, 0x10, Seq::empty(), times_value(t));
    lemma_single(v, flags, base_reference, a, current, number);
}

/// A name of a file.
pub struct Naming {
    /// The number of the directory that lists the name.
    pub parent: u64,
    pub sequence: u16,
    /// The size that is noted with the name.
    pub size: u64,
    pub namespace: u8,
    pub text: Seq<char>,
}

impl Naming {
    /// Whether there is room for the name in a record.
    pub open spec fn fits(self) -> bool {
        self.parent < 0x1_0000_0000_0000 && 0 < encoded(self.text).len() < 0x100
    }
}

/// The `$FILE_NAME` of a file.
#[verifier::opaque]
pub open spec fn name_value(n: Naming) -> Seq<u8> {
    le_bytes(reference_to(n.parent, n.sequence) as nat, 8) + zeros(40) + le_bytes(n.size as nat, 8) + zeros(8)
        + seq![encoded(n.text).len() as u8] + seq![n.namespace] + unit_bytes(encoded(n.text))
}

proof fn lemma_name_len(n: Naming)
    ensures
        name_value(n).len() == 0x42 + 2 * encoded(n.text).len(),
{
    reveal(name_value);
    lemma_le_bytes(reference_to(n.parent, n.sequence) as nat, 8);
    lemma_le_bytes(n.size as nat, 8);
}

proof fn lemma_naming(r: Seq<u8>, at: int, n: Naming)
    requires
        holds(r, at, name_value(n)),
        n.fits(),
    ensures
        le64(r, at) == reference_to(n.parent, n.sequence),
        record_number(le64(r, at)) == n.parent,
        le64(r, at + 0x30) == n.size,
        r[at + 0x40] == encoded(n.text).len(),
        r[at + 0x41] == n.namespace,
        utf16_lossy(le16s(r, at + 0x42, encoded(n.text).len())) == n.text,
        at + 0x42 + 2 * encoded(n.text).len() <= r.len(),
{
    lemma_name_len(n);
    reveal(name_value);
    let u = encoded(n.text);
    let a0 = le_bytes(reference_to(n.parent, n.sequence) as nat, 8);
    let a1 = zeros(40);
    let a2 = le_bytes(n.size as nat, 8);
    let a3 = zeros(8);
    let a4 = seq![u.len() as u8];
    let a5 = seq![n.namespace];
    let a6 = unit_bytes(u);
    lemma_le_bytes(reference_to(n.parent, n.sequence) as nat, 8);
    lemma_le_bytes(n.size as nat, 8);
    lemma_holds_both(r, at, a0 + a1 + a2 + a3 + a4 + a5, a6);
    lemma_holds_both(r, at, a0 + a1 + a2 + a3 + a4, a5);
    lemma_holds_both(r, at, a0 + a1 + a2 + a3, a4);
    lemma_holds_both(r, at, a0 + a1 + a2, a3);
    lemma_holds_both(r, at, a0 + a1, a2);
    lemma_holds_both(r, at, a0, a1);
    law_written_u64_is_read(r, at, reference_to(n.parent, n.sequence));
    law_written_u64_is_read(r, at + 0x30, n.size);
    assert(a4[0] == u.len() as u8 && a5[0] == n.namespace);
    assert(r[at + 0x40 + 0] == a4[0]);
    assert(r[at + 0x41 + 0] == a5[0]);
    law_written_units_are_read(r, at + 0x42, u);
    law_wide_text_reads_back(n.text);
    assert(reference_to(n.parent, n.sequence) == n.parent + 0x1_0000_0000_0000 * n.sequence);
}

/// Whether a name is listed in its directory: short names in the style of old systems are not, nor are
/// the names of a directory in itself and in what it holds.
pub open spec fn is_shown(n: Naming) -> bool {
    n.namespace != 2 && n.text != "."@ && n.text != ".."@
}

#[verifier::rlimit(40)]
proof fn lemma_name_told(r: Seq<u8>, off: int, is_dir: bool, n: Naming, b: FileRecordBase)
    requires
        holds(r, off, kept_inside(0x30, Seq::empty(), name_value(n))),
        n.fits(),
    ensures
        with_attribute(r, is_dir, off, b) == b,
        listed_at(r, off) == (if is_shown(n) {
            Some((n.parent, n.text))
        } else {
            None
        }),
{
    lemma_name_len(n);
    lemma_inside(r, off, 0x30, Seq::empty(), name_value(n));
    lemma_naming(r, off + 24, n);
}

/// Every name of a file is listed under the directory that its `$FILE_NAME` refers to, behind the
/// names that are there, as a name of that file, but for those that are not shown. It changes no
/// other listing, and nothing that is known of the file.
#[verifier::rlimit(40)]
pub proof fn law_names_are_listed_in_their_directory(
    v: Volume,
    flags: u16,
    base_reference: u64,
    n: Naming,
    current: u64,
    number: u64,
)
    requires
        flags % 2 == 1,
        tells_of(base_reference, current, number),
        n.fits(),
    ensures
        ({
            let a = kept_inside(0x30, Seq::empty(), name_value(n));
            let w = with_record(v, file_record(flags, base_reference, a), current);
            let had = if v.listings.contains_key(n.parent) {
                v.listings[n.parent]
            } else {
                Seq::empty()
            };
            &&& w.files == v.files.insert(number, gathered(v, number))
            &&& !is_shown(n) ==> w.listings == v.listings
            &&& is_shown(n) ==> {
                &&& w.listings.contains_key(n.parent)
                &&& w.listings[n.parent] == had + seq![Listed { name: n.text, base_record: number }]
                &&& w.listings.remove(n.parent) == v.listings.remove(n.parent)
            }
        }),
{
    let a = kept_inside(0x30, Seq::empty(), name_value(n));
    let r = file_record(flags, base_reference, a);
    lemma_head(flags, base_reference, a);
    lemma_name_told(r, 48, flags / 2 % 2 == 1, n, gathered(v, number));
    lemma_name_len(n);
    lemma_inside(r, 48, 0x30, Seq::empty(), name_value(n));
    lemma_single(v, flags, base_reference, a, current, number);
    let w = with_record(v, r, current);
    let had = if v.listings.contains_key(n.parent) {
        v.listings[n.parent]
    } else {
        Seq::empty()
    };
    if is_shown(n) {
        assert(w.listings[n.parent] =~= had + seq![Listed { name: n.text, base_record: number }]);
        assert(w.listings.remove(n.parent) =~= v.listings.remove(n.parent));
    }
}

#[verifier::rlimit(40)]
proof fn lemma_tag_told(r: Seq<u8>, off: int, is_dir: bool, tag: u32, rest: Seq<u8>, b: FileRecordBase)
    requires
        holds(r, off, kept_inside(0xC0, Seq::empty(), le_bytes(tag as nat, 4) + rest)),
        rest.len() < 0x1_0000_0000 - 0x2000,
    ensures
        listed_at(r, off) is None,
        with_attribute(r, is_dir, off, b) == (FileRecordBase {
            reparse_tag: tag,
            attributes: if tag == 0x8000_0017 {
                b.attributes | 0x800
            } else {
                b.attributes
            },
            ..b
        }),
{
    let value = le_bytes(tag as nat, 4) + rest;
    lemma_le_bytes(tag as nat, 4);
    lemma_inside(r, off, 0xC0, Seq::empty(), value);
    lemma_holds_both(r, off + 24, le_bytes(tag as nat, 4), rest);
    law_written_u32_is_read(r, off + 24, tag);
    assert(is_reparse_point(r, off));
}

/// A `$REPARSE_POINT` tells its tag, which stands before everything else in it; the tag of compressed
/// system files also marks the file as compressed. Nothing else about the file changes, and no other
/// file.
#[verifier::rlimit(40)]
pub proof fn law_reparse_tags_are_told(
    v: Volume,
    flags: u16,
    base_reference: u64,
    tag: u32,
    rest: Seq<u8>,
    current: u64,
    number: u64,
)
    requires
        flags % 2 == 1,
        tells_of(base_reference, current, number),
        rest.len() < 0x1_0000_0000 - 0x2000,
    ensures
        ({
            let a = kept_inside(0xC0, Seq::empty(), le_bytes(tag as nat, 4) + rest);
            let w = with_record(v, file_record(flags, base_reference, a), current);
            let before = gathered(v, number);
            &&& w.listings == v.listings
            &&& w.files == v.files.insert(
                number,
                FileRecordBase {
                    reparse_tag: tag,
                    attributes: if tag == 0x8000_0017 {
                        before.attributes | 0x800
                    } else {
                        before.attributes
                    },
                    ..before
                },
            )
        }),
{
    let value = le_bytes(tag as nat, 4) + rest;
    let a = kept_inside(0xC0, Seq::empty(), value);
    let r = file_record(flags, base_reference, a);
    lemma_le_bytes(tag as nat, 4);
    lemma_head(flags, base_reference, a);
    lemma_tag_told(r, 48, flags / 2 % 2 == 1, tag, rest, gathered(v, number));
    lemma_inside(r, 48, 0xC0, Seq::empty(), value);
    lemma_single(v, flags, base_reference, a, current, number);
}

// ---------------------------------------------------------------------------------------------
// Whole records
// ---------------------------------------------------------------------------------------------

/// The attributes of an ordinary file: its times, a name, and a stream that is kept outside.
pub open spec fn file_attributes(t: Times, n: Naming, s: Stream) -> Seq<u8> {
    kept_inside(0x10, Seq::empty(), times_value(t)) + kept_inside(0x30, Seq::empty(), name_value(n)) + kept_outside(s)
}

proof fn lemma_times_len(t: Times)
    ensures
        times_value(t).len() == 0x38,
{
    reveal(times_value);
    lemma_le_bytes(t.created as nat, 8);
    lemma_le_bytes(t.modified as nat, 8);
    lemma_le_bytes(t.changed as nat, 8);
    lemma_le_bytes(t.accessed as nat, 8);
    lemma_le_bytes(t.attributes as nat, 4);
    lemma_le_bytes(t.marks as nat, 4);
}

/// Where the three attributes of an ordinary file stand.
proof fn lemma_three(flags: u16, base_reference: u64, t: Times, n: Naming, s: Stream) -> (offs: (int, int, int))
    requires
        n.fits(),
        s.name.len() == 0,
    ensures
        ({
            let r = file_record(flags, base_reference, file_attributes(t, n, s));
            &&& attribute_offsets(r, 48) == seq![offs.0, offs.1, offs.2]
            &&& holds(r, offs.0, kept_inside(0x10, Seq::empty(), times_value(t)))
            &&& holds(r, offs.1, kept_inside(0x30, Seq::empty(), name_value(n)))
            &&& holds(r, offs.2, kept_outside(s))
        }),
{
    let a = kept_inside(0x10, Seq::empty(), times_value(t));
    let b = kept_inside(0x30, Seq::empty(), name_value(n));
    let c = kept_outside(s);
    let all = file_attributes(t, n, s);
    let r = file_record(flags, base_reference, all);
    lemma_head(flags, base_reference, all);
    lemma_holds_both(r, 48, a + b, c);
    lemma_holds_both(r, 48, a, b);
    lemma_times_len(t);
    lemma_name_len(n);
    let o1 = 48 + a.len() as int;
    let o2 = o1 + b.len() as int;
    lemma_inside(r, 48, 0x10, Seq::empty(), times_value(t));
    lemma_inside(r, o1, 0x30, Seq::empty(), name_value(n));
    lemma_outside(r, o2, s);
    let end = 48 + all.len() as int;
    assert(end == o2 + c.len());
    assert(attribute_offsets(r, end) =~= Seq::empty());
    assert(attribute_offsets(r, o2) =~= seq![o2]);
    assert(attribute_offsets(r, o1) =~= seq![o1, o2]);
    assert(attribute_offsets(r, 48) =~= seq![48int, o1, o2]);
    (48, o1, o2)
}

#[verifier::rlimit(40)]
proof fn lemma_all_told(
    r: Seq<u8>,
    at: (int, int, int),
    is_dir: bool,
    t: Times,
    n: Naming,
    s: Stream,
    b: FileRecordBase,
)
    requires
        holds(r, at.0, kept_inside(0x10, Seq::empty(), times_value(t))),
        holds(r, at.1, kept_inside(0x30, Seq::empty(), name_value(n))),
        holds(r, at.2, kept_outside(s)),
        n.fits(),
        s.name.len() == 0,
        s.lowest == 0,
        s.flags == 0,
        s.allocated > 0,
    ensures
        with_attributes(r, is_dir, seq![at.0, at.1, at.2], b) == (FileRecordBase {
            logical_size: s.size,
            physical_size: s.allocated,
            last_modified_ft: t.modified,
            created_ft: t.created,
            accessed_ft: t.accessed,
            attributes: told_attributes(t.attributes, is_dir),
            reparse_tag: b.reparse_tag,
        }),
{
    let offs = seq![at.0, at.1, at.2];
    lemma_times_told(r, at.0, is_dir, t, b);
    let b1 = with_attribute(r, is_dir, at.0, b);
    lemma_name_told(r, at.1, is_dir, n, b1);
    lemma_outside_told(r, at.2, is_dir, s, b1);
    assert(offs.drop_last() =~= seq![at.0, at.1]);
    assert(seq![at.0, at.1].drop_last() =~= seq![at.0]);
    assert(seq![at.0].drop_last() =~= Seq::empty());
    assert(with_attributes(r, is_dir, Seq::empty(), b) == b);
    assert(with_attributes(r, is_dir, seq![at.0], b) == b1);
    assert(with_attributes(r, is_dir, seq![at.0, at.1], b) == b1);
}

proof fn lemma_all_listed(
    r: Seq<u8>,
    at: (int, int, int),
    n: Naming,
    t: Times,
    s: Stream,
    number: u64,
    m: Map<u64, Seq<Listed>>,
)
    requires
        holds(r, at.0, kept_inside(0x10, Seq::empty(), times_value(t))),
        holds(r, at.1, kept_inside(0x30, Seq::empty(), name_value(n))),
        holds(r, at.2, kept_outside(s)),
        n.fits(),
        is_shown(n),
        s.name.len() == 0,
    ensures
        with_names(r, seq![at.0, at.1, at.2], number, m) == with_listed(
            m,
            n.parent,
            (Listed { name: n.text, base_record: number }),
        ),
{
    let offs = seq![at.0, at.1, at.2];
    let b = unknown_file();
    lemma_times_told(r, at.0, false, t, b);
    lemma_name_told(r, at.1, false, n, b);
    lemma_outside_told(r, at.2, false, s, b);
    assert(offs.drop_last() =~= seq![at.0, at.1]);
    assert(seq![at.0, at.1].drop_last() =~= seq![at.0]);
    assert(seq![at.0].drop_last() =~= Seq::empty());
    assert(with_names(r, Seq::empty(), number, m) == m);
    assert(with_names(r, seq![at.0], number, m) == m);
    assert(with_names(r, seq![at.0, at.1], number, m) == with_listed(
        m,
        n.parent,
        Listed { name: n.text, base_record: number },
    ));
}

/// Taking in the record of an ordinary file makes the volume know its size, its room, its three
/// times and its attributes, and lists its name in its directory: each attribute adds what it says
/// to what the others said.
#[verifier::rlimit(40)]
pub proof fn law_a_record_tells_all_of_its_file(
    v: Volume,
    flags: u16,
    base_reference: u64,
    t: Times,
    n: Naming,
    s: Stream,
    current: u64,
    number: u64,
)
    requires
        flags % 2 == 1,
        tells_of(base_reference, current, number),
        n.fits(),
        is_shown(n),
        s.name.len() == 0,
        s.lowest == 0,
        s.flags == 0,
        s.allocated > 0,
    ensures
        ({
            let w = with_record(v, file_record(flags, base_reference, file_attributes(t, n, s)), current);
            let had = if v.listings.contains_key(n.parent) {
                v.listings[n.parent]
            } else {
                Seq::empty()
            };
            &&& w.files == v.files.insert(
                number,
                FileRecordBase {
                    logical_size: s.size,
                    physical_size: s.allocated,
                    last_modified_ft: t.modified,
                    created_ft: t.created,
                    accessed_ft: t.accessed,
                    attributes: told_attributes(t.attributes, flags / 2 % 2 == 1),
                    reparse_tag: gathered(v, number).reparse_tag,
                },
            )
            &&& w.listings.contains_key(n.parent)
            &&& w.listings[n.parent] == had.push(Listed { name: n.text, base_record: number })
            &&& w.listings.remove(n.parent) == v.listings.remove(n.parent)
        }),
{
    let is_dir = flags / 2 % 2 == 1;
    let all = file_attributes(t, n, s);
    let r = file_record(flags, base_reference, all);
    let (o0, o1, o2) = lemma_three(flags, base_reference, t, n, s);
    lemma_in_use(v, flags, base_reference, all, current, number);
    lemma_all_told(r, (o0, o1, o2), is_dir, t, n, s, gathered(v, number));
    lemma_all_listed(r, (o0, o1, o2), n, t, s, number, v.listings);
    assert(with_record(v, r, current).listings.remove(n.parent) =~= v.listings.remove(n.parent));
}

/// Reading the single record of an ordinary file gives its directory, its name, its size, the time of
/// its last modification and what its flags say; a size of 0 is replaced by the one noted with the
/// name.
#[verifier::rlimit(40)]
pub proof fn law_a_single_record_reads_as_written(
    flags: u16,
    base_reference: u64,
    t: Times,
    n: Naming,
    s: Stream,
)
    requires
        n.fits(),
        s.name.len() == 0,
    ensures
        ({
            let e = parsed(file_record(flags, base_reference, file_attributes(t, n, s)));
            &&& is_file_record(file_record(flags, base_reference, file_attributes(t, n, s)))
            &&& e.parent_record == n.parent
            &&& e.name == n.text
            &&& e.in_use == (flags % 2 == 1)
            &&& e.is_dir == (flags / 2 % 2 == 1)
            &&& e.is_base_record == (base_reference % 0x1_0000_0000_0000 == 0)
            &&& s.size > 0 ==> e.real_size == s.size
            &&& s.size == 0 ==> e.real_size == n.size
            &&& e.modified_ft == t.modified
            &&& e.attributes == t.marks
        }),
{
    let all = file_attributes(t, n, s);
    let r = file_record(flags, base_reference, all);
    lemma_head(flags, base_reference, all);
    let (o0, o1, o2) = lemma_three(flags, base_reference, t, n, s);
    lemma_times_len(t);
    lemma_name_len(n);
    lemma_inside(r, o0, 0x10, Seq::empty(), times_value(t));
    lemma_times(r, o0 + 24, t);
    lemma_inside(r, o1, 0x30, Seq::empty(), name_value(n));
    lemma_naming(r, o1 + 24, n);
    lemma_outside(r, o2, s);
    let m = NameModel { namespace: n.namespace, name: n.text, parent: n.parent, real_size: n.size };
    assert(std_info_at(r, o0) == Some((t.modified, t.marks)));
    assert(std_info_at(r, o1) is None && std_info_at(r, o2) is None);
    assert(file_name_at(r, o1) == Some(m));
    assert(file_name_at(r, o0) is None && file_name_at(r, o2) is None);
    assert(data_size_at(r, o2) == Some(s.size));
    assert(data_size_at(r, o0) is None && data_size_at(r, o1) is None);
    let offs = seq![o0, o1, o2];
    assert(offs.drop_last() =~= seq![o0, o1]);
    assert(seq![o0, o1].drop_last() =~= seq![o0]);
    assert(seq![o0].drop_last() =~= Seq::empty());
    assert(names_among(r, Seq::empty()) =~= Seq::empty());
    assert(names_among(r, seq![o0]) =~= Seq::empty());
    assert(names_among(r, seq![o0, o1]) =~= seq![m]);
    assert(names_among(r, offs) =~= seq![m]);
    assert(last_std_info(r, seq![o0]) == (t.modified, t.marks));
    assert(last_std_info(r, seq![o0, o1]) == (t.modified, t.marks));
    assert(last_std_info(r, offs) == (t.modified, t.marks));
    assert(last_data_size(r, offs) == s.size);
}

} // verus!
