//! The disks of the machine: their names, their room, and which of them there are.
use vstd::prelude::*;

use crate::text::{chars_of, owned};
use crate::wide::from_wide;

verus! {

use crate::model::opt_text;
use crate::text::utf16_lossy;
use crate::wide::{encoded, law_wide_text_reads_back, units_of};

/// What is known of a disk once it was asked.
#[derive(Debug)]
pub struct DiskInfo {
    pub drive_letter: char,
    pub volume_label: String,
    pub file_system: String,
    pub total_bytes: u64,
    pub free_bytes: u64,
    pub used_bytes: u64,
}

/// What a [`DiskInfo`] says.
pub struct Disk {
    pub drive_letter: char,
    pub volume_label: Seq<char>,
    pub file_system: Seq<char>,
    pub total_bytes: u64,
    pub free_bytes: u64,
    pub used_bytes: u64,
}

impl View for DiskInfo {
    type V = Disk;

    open spec fn view(&self) -> Disk {
        Disk {
            drive_letter: self.drive_letter,
            volume_label: self.volume_label@,
            file_system: self.file_system@,
            total_bytes: self.total_bytes,
            free_bytes: self.free_bytes,
            used_bytes: self.used_bytes,
        }
    }
}

impl Clone for DiskInfo {
    fn clone(&self) -> (res: Self)
        ensures
            res@ == self@,
    {
        DiskInfo {
            drive_letter: self.drive_letter,
            volume_label: self.volume_label.clone(),
            file_system: self.file_system.clone(),
            total_bytes: self.total_bytes,
            free_bytes: self.free_bytes,
            used_bytes: self.used_bytes,
        }
    }
}

impl Default for DiskInfo {
    fn default() -> (res: Self)
        ensures
            res@ == (Disk {
                drive_letter: '\0',
                volume_label: Seq::empty(),
                file_system: Seq::empty(),
                total_bytes: 0,
                free_bytes: 0,
                used_bytes: 0,
            }),
    {
        DiskInfo {
            drive_letter: '\0',
            volume_label: String::new(),
            file_system: String::new(),
            total_bytes: 0,
            free_bytes: 0,
            used_bytes: 0,
        }
    }
}

/// The name that a disk is shown under.
pub open spec fn shown_name(letter: char, label: Seq<char>) -> Seq<char> {
    (if label.len() == 0 {
        "本地磁盘"@
    } else {
        label
    }) + " ("@.push(letter) + ":)"@
}

/// The path of the root directory of a drive.
pub open spec fn drive_root(letter: char) -> Seq<char> {
    seq![letter] + ":\\"@
}

/// The path of the root directory of a drive.
pub fn drive_root_of(letter: char) -> (r: String)
    ensures
        r@ == drive_root(letter),
{
    let mut out = String::new();
    out.push(letter);
    out.append(":\\");
    assert(out@ =~= drive_root(letter));
    out
}

/// The name that a disk is shown under.
pub fn shown_name_of(letter: char, label: &str) -> (r: String)
    ensures
        r@ == shown_name(letter, label@),
{
    let mut out = if label.is_empty() {
        owned("本地磁盘")
    } else {
        owned(label)
    };
    out.append(" (");
    out.push(letter);
    out.append(":)");
    assert(out@ =~= shown_name(letter, label@));
    out
}

impl DiskInfo {
    /// The name that the disk is shown under: its label, or words for a disk without one, and its
    /// letter.
    pub fn display_name(&self) -> (r: String)
        ensures
            r@ == shown_name(self@.drive_letter, self@.volume_label),
    {
        shown_name_of(self.drive_letter, self.volume_label.as_str())
    }

    /// The path of the disk's root directory.
    pub fn root_path(&self) -> (r: String)
        ensures
            r@ == drive_root(self@.drive_letter),
    {
        drive_root_of(self.drive_letter)
    }
}

/// The character with ASCII lower case turned to upper case.
pub open spec fn upper(c: char) -> char {
    if 'a' <= c <= 'z' {
        ((c as int) - 32) as char
    } else {
        c
    }
}

/// The character with ASCII lower case turned to upper case.
pub fn to_upper(c: char) -> (r: char)
    ensures
        r == upper(c),
{
    if 'a' <= c && c <= 'z' {
        ((c as u32 - 32) as u8) as char
    } else {
        c
    }
}

/// Where the first zero of `u` is at or after `from`, or its end.
pub open spec fn zero_from(u: Seq<u16>, from: int) -> int
    decreases u.len() - from,
{
    if from >= u.len() || u[from] == 0 {
        from
    } else {
        zero_from(u, from + 1)
    }
}

/// The texts of a list in which a zero ends each and an empty one ends the list, from position
/// `from` on.
pub open spec fn listed_texts(u: Seq<u16>, from: int) -> Seq<Seq<char>>
    decreases u.len() + 1 - from,
    when 0 <= from
{
    let end = zero_from(u, from);
    if from >= u.len() || end <= from || end > u.len() {
        Seq::empty()
    } else {
        seq![utf16_lossy(u.subrange(from, end))] + listed_texts(u, end + 1)
    }
}

/// The text views of a row of strings.
pub open spec fn texts(v: Seq<String>) -> Seq<Seq<char>> {
    v.map_values(|s: String| s@)
}

/// The root paths of all drives, from the system's list of them: `buf` with `len` units used. A
/// list that is empty or does not fit says nothing.
pub fn logical_drives(buf: &[u16], len: u32) -> (r: Vec<String>)
    ensures
        texts(r@) == if len == 0 || len >= buf@.len() {
            Seq::empty()
        } else {
            listed_texts(buf@.take(len as int), 0)
        },
{
    let mut out: Vec<String> = Vec::new();
    if len == 0 || len as usize >= buf.len() {
        assert(texts(out@) =~= Seq::empty());
        return out;
    }
    let used = vstd::slice::slice_subrange(buf, 0, len as usize);
    assert(used@ =~= buf@.take(len as int));
    let mut start: usize = 0;
    assert(texts(out@) =~= Seq::empty());
    while start < used.len()
        invariant
            start <= used@.len() + 1,
            texts(out@) + listed_texts(used@, start as int) =~= listed_texts(used@, 0),
            used@.len() < usize::MAX,
        ensures
            texts(out@) == listed_texts(used@, 0),
        decreases used@.len() + 1 - start,
    {
        let mut end: usize = start;
        while end < used.len() && used[end] != 0
            invariant
                start <= end <= used@.len(),
                zero_from(used@, start as int) == zero_from(used@, end as int),
            decreases used@.len() - end,
        {
            end = end + 1;
        }
        if start >= end {
            break;
        }
        let s = from_wide(vstd::slice::slice_subrange(used, start, end));
        let ghost before = texts(out@);
        proof {
            assert(used@.subrange(start as int, end as int) == used@.subrange(
                start as int,
                zero_from(used@, start as int),
            ));
        }
        out.push(s);
        assert(texts(out@) =~= before.push(s@));
        start = end + 1;
    }
    out
}

/// What the system calls a disk that is built in.
pub const DRIVE_FIXED: u32 = 3;

/// The letter of a drive with the given root path.
pub open spec fn letter_of(root: Seq<char>) -> char {
    if root.len() == 0 {
        '?'
    } else {
        upper(root[0])
    }
}

/// The letters of those drives, each given by its root path and its type, that are built in.
pub open spec fn fixed_letters(drives: Seq<(String, u32)>) -> Seq<char>
    decreases drives.len(),
{
    if drives.len() == 0 {
        Seq::empty()
    } else {
        let before = fixed_letters(drives.drop_last());
        if drives.last().1 == DRIVE_FIXED {
            before.push(letter_of(drives.last().0@))
        } else {
            before
        }
    }
}

/// The letters of the drives that are built in, in the order in which the drives are given.
pub fn list_fixed_drive_letters(drives: &Vec<(String, u32)>) -> (r: Vec<char>)
    ensures
        r@ == fixed_letters(drives@),
{
    let mut out: Vec<char> = Vec::new();
    let mut i: usize = 0;
    while i < drives.len()
        invariant
            i <= drives@.len(),
            out@ == fixed_letters(drives@.take(i as int)),
        decreases drives@.len() - i,
    {
        assert(drives@.take(i + 1).drop_last() =~= drives@.take(i as int));
        if drives[i].1 == DRIVE_FIXED {
            let root = chars_of(drives[i].0.as_str());
            let letter: char = if root.len() == 0 {
                '?'
            } else {
                to_upper(root[0])
            };
            out.push(letter);
        }
        i = i + 1;
    }
    assert(drives@.take(i as int) =~= drives@);
    out
}

/// The names of a volume as the system gives them: text that a zero ends.
#[derive(Debug)]
pub struct VolumeNames {
    pub label: Vec<u16>,
    pub file_system: Vec<u16>,
}

/// The text before the first zero of a buffer. A buffer without a zero holds no text.
pub open spec fn text_in(buf: Seq<u16>) -> Seq<char> {
    let end = zero_from(buf, 0);
    if end >= buf.len() {
        Seq::empty()
    } else {
        utf16_lossy(buf.take(end))
    }
}

/// The text before the first zero of a buffer.
pub fn buffer_text(buf: &Vec<u16>) -> (r: String)
    ensures
        r@ == text_in(buf@),
{
    let mut end: usize = 0;
    while end < buf.len() && buf[end] != 0
        invariant
            end <= buf@.len(),
            zero_from(buf@, 0) == zero_from(buf@, end as int),
        decreases buf@.len() - end,
    {
        end = end + 1;
    }
    if end >= buf.len() {
        return String::new();
    }
    assert(buf@.subrange(0, end as int) =~= buf@.take(end as int));
    from_wide(vstd::slice::slice_subrange(buf.as_slice(), 0, end))
}

/// The label of a volume, where the system told it and it is not empty.
pub open spec fn label_of(names: Option<VolumeNames>) -> Option<Seq<char>> {
    match names {
        Some(n) => if text_in(n.label@).len() == 0 {
            None
        } else {
            Some(text_in(n.label@))
        },
        None => None,
    }
}

/// The drives, each with its label if it has one.
pub fn list_fixed_drives_with_labels(drives: &Vec<(char, Option<VolumeNames>)>) -> (r: Vec<
    (char, Option<String>),
>)
    ensures
        r@.len() == drives@.len(),
        forall|i: int|
            0 <= i < r@.len() ==> #[trigger] r@[i].0 == drives@[i].0 && opt_text(r@[i].1) == label_of(
                drives@[i].1,
            ),
{
    let mut out: Vec<(char, Option<String>)> = Vec::new();
    let mut i: usize = 0;
    while i < drives.len()
        invariant
            i <= drives@.len(),
            out@.len() == i,
            forall|k: int|
                0 <= k < i ==> #[trigger] out@[k].0 == drives@[k].0 && opt_text(out@[k].1) == label_of(
                    drives@[k].1,
                ),
        decreases drives@.len() - i,
    {
        let label: Option<String> = match &drives[i].1 {
            Some(names) => {
                let s = buffer_text(&names.label);
                if s.as_str().is_empty() {
                    None
                } else {
                    Some(s)
                }
            },
            None => None,
        };
        out.push((drives[i].0, label));
        i = i + 1;
    }
    out
}

/// What is known of drive `letter` from the system's answers: `space` is the total and the free
/// room in bytes, `names` the names of the volume. Without the room nothing is known; without the
/// names they are empty.
pub open spec fn disk_from(letter: char, space: Option<(u64, u64)>, names: Option<VolumeNames>) -> Option<
    Disk,
> {
    match space {
        Some((total, free)) => Some(
            Disk {
                drive_letter: letter,
                volume_label: match names {
                    Some(n) => text_in(n.label@),
                    None => Seq::empty(),
                },
                file_system: match names {
                    Some(n) => text_in(n.file_system@),
                    None => Seq::empty(),
                },
                total_bytes: total,
                free_bytes: free,
                used_bytes: used_of(total, free),
            },
        ),
        None => None,
    }
}

/// What of `total` is not free.
pub open spec fn used_of(total: u64, free: u64) -> u64 {
    if free <= total {
        (total - free) as u64
    } else {
        0
    }
}

/// What of `total` is not free.
pub fn used_bytes(total: u64, free: u64) -> (r: u64)
    ensures
        r == used_of(total, free),
{
    if free <= total {
        total - free
    } else {
        0
    }
}

/// What is known of drive `letter` from the system's answers.
pub fn query_disk_info(letter: char, space: Option<(u64, u64)>, names: Option<VolumeNames>) -> (r: Option<
    DiskInfo,
>)
    ensures
        r is Some == space is Some,
        r is Some ==> disk_from(letter, space, names) == Some(r->0@),
{
    let (total, free) = match space {
        Some(s) => s,
        None => {
            return None;
        },
    };
    let (label, file_system) = match &names {
        Some(n) => (buffer_text(&n.label), buffer_text(&n.file_system)),
        None => (String::new(), String::new()),
    };
    Some(
        DiskInfo {
            drive_letter: letter,
            volume_label: label,
            file_system,
            total_bytes: total,
            free_bytes: free,
            used_bytes: used_bytes(total, free),
        },
    )
}

/// What is used and what is free make up the whole disk, unless the system claims that more is
/// free than there is.
pub proof fn law_used_and_free_make_the_whole(letter: char, total: u64, free: u64, names: Option<VolumeNames>)
    requires
        free <= total,
    ensures
        disk_from(letter, Some((total, free)), names) is Some,
        ({
            let d = disk_from(letter, Some((total, free)), names)->0;
            d.used_bytes + d.free_bytes == d.total_bytes
        }),
{
}

// ---------------------------------------------------------------------------------------------
// What the system writes
// ---------------------------------------------------------------------------------------------

/// The texts `ts` as the system lists them: a zero behind each.
pub open spec fn written_list(ts: Seq<Seq<char>>) -> Seq<u16>
    decreases ts.len(),
{
    if ts.len() == 0 {
        Seq::empty()
    } else {
        encoded(ts[0]).push(0) + written_list(ts.skip(1))
    }
}

proof fn lemma_no_zero_unit(c: char)
    requires
        c != '\0',
    ensures
        units_of(c).len() > 0,
        forall|i: int| 0 <= i < units_of(c).len() ==> #[trigger] units_of(c)[i] != 0,
{
    let n = c as int;
    if n < 0x1_0000 {
        assert(units_of(c)[0] == n);
    } else {
        assert(units_of(c)[0] == 0xD800 + (n - 0x1_0000) / 0x400);
        assert(units_of(c)[1] == 0xDC00 + (n - 0x1_0000) % 0x400);
    }
}

proof fn lemma_no_zero_units(s: Seq<char>)
    requires
        forall|i: int| 0 <= i < s.len() ==> #[trigger] s[i] != '\0',
    ensures
        forall|i: int| 0 <= i < encoded(s).len() ==> #[trigger] encoded(s)[i] != 0,
        s.len() > 0 ==> encoded(s).len() > 0,
    decreases s.len(),
{
    if s.len() > 0 {
        let front = s.drop_last();
        assert forall|i: int| 0 <= i < front.len() implies #[trigger] front[i] != '\0' by {
            assert(s[i] != '\0');
        }
        lemma_no_zero_units(front);
        assert(s[s.len() - 1] != '\0');
        let a = encoded(front);
        let b = units_of(s.last());
        lemma_no_zero_unit(s.last());
        assert forall|i: int| 0 <= i < encoded(s).len() implies #[trigger] encoded(s)[i] != 0 by {
            if i < a.len() {
                assert(encoded(s)[i] == a[i]);
            } else {
                assert(encoded(s)[i] == b[i - a.len()]);
            }
        }
    }
}

proof fn lemma_zero_behind(front: Seq<u16>, units: Seq<u16>, rest: Seq<u16>, from: int)
    requires
        forall|i: int| 0 <= i < units.len() ==> #[trigger] units[i] != 0,
        front.len() <= from <= front.len() + units.len(),
    ensures
        zero_from(front + units.push(0) + rest, from) == front.len() + units.len(),
    decreases front.len() + units.len() - from,
{
    let u = front + units.push(0) + rest;
    if from < front.len() + units.len() {
        assert(u[from] == units[from - front.len()]);
        lemma_zero_behind(front, units, rest, from + 1);
    } else {
        assert(u[from] == 0);
    }
}

/// The texts that the system lists are read from its list, all of them and in their order.
pub proof fn law_listed_texts_are_read(front: Seq<u16>, ts: Seq<Seq<char>>)
    requires
        forall|k: int| 0 <= k < ts.len() ==> (#[trigger] ts[k]).len() > 0,
        forall|k: int, i: int| 0 <= k < ts.len() && 0 <= i < ts[k].len() ==> #[trigger] ts[k][i] != '\0',
    ensures
        listed_texts(front + written_list(ts), front.len() as int) == ts,
    decreases ts.len(),
{
    let u = front + written_list(ts);
    let from = front.len() as int;
    if ts.len() == 0 {
        assert(listed_texts(u, from) =~= ts);
    } else {
        let units = encoded(ts[0]);
        let rest = written_list(ts.skip(1));
        assert(ts[0].len() > 0);
        assert forall|i: int| 0 <= i < ts[0].len() implies #[trigger] ts[0][i] != '\0' by {}
        lemma_no_zero_units(ts[0]);
        assert(u =~= front + units.push(0) + rest);
        lemma_zero_behind(front, units, rest, from);
        let end = from + units.len();
        assert(u.subrange(from, end) =~= units);
        law_wide_text_reads_back(ts[0]);
        let more = front + units.push(0);
        assert forall|k: int| 0 <= k < ts.skip(1).len() implies (#[trigger] ts.skip(1)[k]).len() > 0 by {
            assert(ts[k + 1].len() > 0);
        }
        assert forall|k: int, i: int| 0 <= k < ts.skip(1).len() && 0 <= i < ts.skip(1)[k].len() implies #[trigger] ts.skip(
            1,
        )[k][i] != '\0' by {
            assert(ts[k + 1][i] != '\0');
        }
        law_listed_texts_are_read(more, ts.skip(1));
        assert(u =~= more + rest);
        assert(seq![ts[0]] + ts.skip(1) =~= ts);
    }
}

/// A text that the system puts into a buffer, with a zero behind it, is read from there, whatever
/// else the buffer holds behind the zero.
pub proof fn law_text_in_buffer_is_read(s: Seq<char>, rest: Seq<u16>)
    requires
        forall|i: int| 0 <= i < s.len() ==> #[trigger] s[i] != '\0',
    ensures
        text_in(encoded(s).push(0) + rest) == s,
{
    let units = encoded(s);
    let u = units.push(0) + rest;
    let none = Seq::<u16>::empty();
    lemma_no_zero_units(s);
    lemma_zero_behind(none, units, rest, 0);
    assert(none + units.push(0) + rest =~= u);
    assert(u.take(units.len() as int) =~= units);
    law_wide_text_reads_back(s);
}

/// Upper case is of letters only, and keeps different letters apart.
pub proof fn law_upper_case_is_of_letters_only(c: char)
    ensures
        !('a' <= upper(c) <= 'z'),
        'a' <= c <= 'z' ==> 'A' <= upper(c) <= 'Z' && upper(c) as int - 'A' as int == c as int - 'a' as int,
        !('a' <= c <= 'z') ==> upper(c) == c,
{
}

/// Exactly the drives that are built in are listed, in the order in which they are given, each by the
/// letter that its root path starts with.
pub proof fn law_built_in_drives_are_listed(drives: Seq<(String, u32)>, i: int)
    requires
        0 <= i < drives.len(),
    ensures
        drives[i].1 == 3 && drives[i].0@.len() > 0 ==> fixed_letters(drives).contains(upper(drives[i].0@[0])),
        forall|k: int|
            0 <= k < fixed_letters(drives).len() ==> exists|j: int|
                0 <= j < drives.len() && (#[trigger] drives[j]).1 == 3 && #[trigger] fixed_letters(drives)[k] == letter_of(
                    drives[j].0@,
                ),
        (forall|j: int| 0 <= j < drives.len() ==> (#[trigger] drives[j]).1 == 3) ==> fixed_letters(drives).len()
            == drives.len(),
    decreases drives.len(),
{
    let front = drives.drop_last();
    let before = fixed_letters(front);
    let now = fixed_letters(drives);
    let last = drives.len() - 1;
    if front.len() > 0 {
        law_built_in_drives_are_listed(front, if i < front.len() {
            i
        } else {
            0
        });
    }
    if drives[i].1 == 3 && drives[i].0@.len() > 0 {
        let c = upper(drives[i].0@[0]);
        if i < last {
            assert(front[i] == drives[i]);
            let k = choose|k: int| 0 <= k < before.len() && before[k] == c;
            assert(now[k] == c);
        } else {
            assert(now[before.len() as int] == c);
        }
    }
    assert forall|k: int| 0 <= k < now.len() implies exists|j: int|
        0 <= j < drives.len() && (#[trigger] drives[j]).1 == 3 && #[trigger] now[k] == letter_of(drives[j].0@) by {
        if k < before.len() {
            assert(now[k] == before[k]);
            let j = choose|j: int|
                0 <= j < front.len() && (#[trigger] front[j]).1 == 3 && before[k] == letter_of(front[j].0@);
            assert(drives[j].1 == 3 && now[k] == letter_of(drives[j].0@));
        } else {
            assert(drives[last].1 == 3 && now[k] == letter_of(drives[last].0@));
        }
    }
    if forall|j: int| 0 <= j < drives.len() ==> (#[trigger] drives[j]).1 == 3 {
        assert forall|j: int| 0 <= j < front.len() implies (#[trigger] front[j]).1 == 3 by {
            assert(drives[j].1 == 3);
        }
        assert(drives[last].1 == 3);
    }
}

/// A disk is shown under its label, or as a local disk where it has none, with its letter and a colon
/// in brackets; its root directory is its letter, a colon and a backslash.
pub proof fn law_disks_are_shown_with_their_letter(letter: char, label: Seq<char>)
    ensures
        label.len() > 0 ==> shown_name(letter, label) == label + seq![' ', '(', letter, ':', ')'],
        label.len() == 0 ==> shown_name(letter, label) == "本地磁盘"@ + seq![' ', '(', letter, ':', ')'],
        drive_root(letter) == seq![letter, ':', '\\'],
{
    reveal_strlit(" (");
    reveal_strlit(":)");
    reveal_strlit(":\\");
    assert(" ("@.push(letter) + ":)"@ =~= seq![' ', '(', letter, ':', ')']);
    assert(drive_root(letter) =~= seq![letter, ':', '\\']);
    let tail = seq![' ', '(', letter, ':', ')'];
    if label.len() > 0 {
        assert(shown_name(letter, label) =~= label + tail);
    } else {
        assert(shown_name(letter, label) =~= "本地磁盘"@ + tail);
    }
}

/// What is known of a disk is what the system said of it: its room, and its two names, each from its
/// own buffer.
pub proof fn law_disks_are_told_as_the_system_says(
    letter: char,
    total: u64,
    free: u64,
    label: Seq<char>,
    file_system: Seq<char>,
    names: VolumeNames,
    rest: (Seq<u16>, Seq<u16>),
)
    requires
        forall|i: int| 0 <= i < label.len() ==> #[trigger] label[i] != '\0',
        forall|i: int| 0 <= i < file_system.len() ==> #[trigger] file_system[i] != '\0',
        names.label@ == encoded(label).push(0) + rest.0,
        names.file_system@ == encoded(file_system).push(0) + rest.1,
    ensures
        disk_from(letter, Some((total, free)), Some(names)) is Some,
        ({
            let d = disk_from(letter, Some((total, free)), Some(names))->0;
            &&& d.drive_letter == letter
            &&& d.volume_label == label
            &&& d.file_system == file_system
            &&& d.total_bytes == total
            &&& d.free_bytes == free
        }),
        label.len() > 0 ==> label_of(Some(names)) == Some(label),
        label.len() == 0 ==> label_of(Some(names)) is None,
{
    law_text_in_buffer_is_read(label, rest.0);
    law_text_in_buffer_is_read(file_system, rest.1);
}

} // verus!
