//! Sizes, times and attributes as the user reads them.
use vstd::prelude::*;

use crate::calendar::date_at;
use crate::decimals::{nearest, rounded, Precision};
use crate::text::{chars_of, owned, push_decimal, push_hundredths, push_padded, push_padded_signed};

verus! {

use crate::calendar::{date_of, day_number, is_date, law_dates_are_ordered_as_days, lemma_date_of};
use crate::decimals::{float_of, half_even, law_floats_are_close, lemma_half_even};
use crate::text::{
    all_digits, decimal, law_decimals_read_back, law_padding_keeps_the_number, read_decimal, signed_padded,
    two_decimals, zero_padded,
};

/// Which unit a size is shown in: 0 for bytes, then one up for each factor of 1024, 4 at most.
pub open spec fn unit_of(v: nat) -> nat {
    if v < 0x400 {
        0
    } else if v < 0x10_0000 {
        1
    } else if v < 0x4000_0000 {
        2
    } else if v < 0x100_0000_0000 {
        3
    } else {
        4
    }
}

/// How many bytes a unit is.
pub open spec fn unit_bytes(u: nat) -> nat {
    if u == 0 {
        1
    } else if u == 1 {
        0x400
    } else if u == 2 {
        0x10_0000
    } else if u == 3 {
        0x4000_0000
    } else {
        0x100_0000_0000
    }
}

pub open spec fn unit_name(u: nat) -> Seq<char> {
    if u == 0 {
        "B"@
    } else if u == 1 {
        "KB"@
    } else if u == 2 {
        "MB"@
    } else if u == 3 {
        "GB"@
    } else {
        "TB"@
    }
}

pub open spec fn unit_letter(u: nat) -> Seq<char> {
    if u == 0 {
        "B"@
    } else if u == 1 {
        "K"@
    } else if u == 2 {
        "M"@
    } else if u == 3 {
        "G"@
    } else {
        "T"@
    }
}

/// A size in its unit, in hundredths.
pub open spec fn size_hundredths(bytes: nat) -> nat {
    let v = float_of(bytes, Precision::Double);
    half_even(100 * v, unit_bytes(unit_of(v)))
}

/// A size with two decimals, a blank and its unit.
pub open spec fn size_text(bytes: nat) -> Seq<char> {
    two_decimals(size_hundredths(bytes)).push(' ') + unit_name(unit_of(float_of(bytes, Precision::Double)))
}

/// A size and the first letter of its unit: bytes without decimals, the others with two.
pub open spec fn compact_size_text(bytes: nat) -> Seq<char> {
    let u = unit_of(float_of(bytes, Precision::Double));
    if u == 0 {
        decimal(bytes) + unit_letter(u)
    } else {
        two_decimals(size_hundredths(bytes)) + unit_letter(u)
    }
}

/// The unit that `v` is shown in, with how many bytes it is.
fn pick_unit(v: u128) -> (r: (u8, u128))
    ensures
        r.0 == unit_of(v as nat),
        r.1 == unit_bytes(r.0 as nat),
{
    if v < 0x400 {
        (0, 1)
    } else if v < 0x10_0000 {
        (1, 0x400)
    } else if v < 0x4000_0000 {
        (2, 0x10_0000)
    } else if v < 0x100_0000_0000 {
        (3, 0x4000_0000)
    } else {
        (4, 0x100_0000_0000)
    }
}

/// A number of bytes as "12.34 GB".
pub fn human_size(bytes: u64) -> (r: String)
    ensures
        r@ == size_text(bytes as nat),
{
    let v: u128 = rounded(bytes as u128, Precision::Double);
    let (u, per) = pick_unit(v);
    let mut out = String::new();
    push_hundredths(&mut out, nearest(100 * v, per));
    out.push(' ');
    out.append(
        if u == 0 {
            "B"
        } else if u == 1 {
            "KB"
        } else if u == 2 {
            "MB"
        } else if u == 3 {
            "GB"
        } else {
            "TB"
        },
    );
    assert(out@ =~= size_text(bytes as nat));
    out
}

/// A number of bytes as "12.34G", where there is little room.
pub fn human_size_compact(bytes: u64) -> (r: String)
    ensures
        r@ == compact_size_text(bytes as nat),
{
    let v: u128 = rounded(bytes as u128, Precision::Double);
    let (u, per) = pick_unit(v);
    let mut out = String::new();
    if u == 0 {
        push_decimal(&mut out, bytes);
        out.append("B");
    } else {
        push_hundredths(&mut out, nearest(100 * v, per));
        out.append(
            if u == 1 {
                "K"
            } else if u == 2 {
                "M"
            } else if u == 3 {
                "G"
            } else {
                "T"
            },
        );
    }
    assert(out@ =~= compact_size_text(bytes as nat));
    out
}

/// From 1 January 1601, where file times start, to 1 January 1970, in seconds.
pub const FILETIME_UNIX_OFFSET_SECS: u64 = 11_644_473_600;

/// A point in time as "YYYY-MM-DD HH:MM".
pub open spec fn stamp(y: int, m: nat, d: nat, hour: nat, min: nat) -> Seq<char> {
    signed_padded(y, 4).push('-') + zero_padded(decimal(m), 2).push('-') + zero_padded(decimal(d), 2).push(
        ' ',
    ) + zero_padded(decimal(hour), 2).push(':') + zero_padded(decimal(min), 2)
}

/// The text for a file time, in units of 100 ns since 1601, taken as universal time. Zero means
/// that the time is not known, and that or a time before 1970 gives no text.
pub open spec fn filetime_text(ft: nat) -> Seq<char> {
    let since_1601 = ft / 10_000_000;
    if since_1601 < FILETIME_UNIX_OFFSET_SECS {
        Seq::empty()
    } else {
        let secs = (since_1601 - FILETIME_UNIX_OFFSET_SECS) as nat;
        let date = date_of((secs / 86400) as int);
        stamp(date.0, date.1 as nat, date.2 as nat, secs % 86400 / 3600, secs % 86400 % 3600 / 60)
    }
}

fn push_stamp(out: &mut String, y: i64, m: u32, d: u32, hour: u64, min: u64)
    ensures
        final(out)@ == old(out)@ + stamp(y as int, m as nat, d as nat, hour as nat, min as nat),
{
    push_padded_signed(out, y, 4);
    out.push('-');
    push_padded(out, m as u64, 2);
    out.push('-');
    push_padded(out, d as u64, 2);
    out.push(' ');
    push_padded(out, hour, 2);
    out.push(':');
    push_padded(out, min, 2);
    assert(out@ =~= old(out)@ + stamp(y as int, m as nat, d as nat, hour as nat, min as nat));
}

/// A file time as "YYYY-MM-DD HH:MM" in universal time; nothing for an unknown time.
pub fn format_filetime(ft: u64) -> (r: String)
    ensures
        r@ == filetime_text(ft as nat),
{
    if ft == 0 {
        return String::new();
    }
    let since_1601: u64 = ft / 10_000_000;
    if since_1601 < FILETIME_UNIX_OFFSET_SECS {
        return String::new();
    }
    let secs: u64 = since_1601 - FILETIME_UNIX_OFFSET_SECS;
    let days: i64 = (secs / 86400) as i64;
    let secs_of_day: u64 = secs % 86400;
    let hour: u64 = secs_of_day / 3600;
    let min: u64 = (secs_of_day % 3600) / 60;
    let (year, month, day) = date_at(days);
    let mut out = String::new();
    push_stamp(&mut out, year, month, day, hour, min);
    assert(out@ =~= filetime_text(ft as nat));
    out
}

/// A point in time on the user's own clock: year, month, day, hour and minute.
pub type LocalTime = (i64, u32, u32, u64, u64);

/// The text for a file time that is `local` on the user's own clock, or in universal time where
/// that is not known.
pub open spec fn local_text(ft: nat, local: Option<LocalTime>) -> Seq<char> {
    match local {
        Some(t) => stamp(t.0 as int, t.1 as nat, t.2 as nat, t.3 as nat, t.4 as nat),
        None => filetime_text(ft),
    }
}

/// A file time as "YYYY-MM-DD HH:MM" on the user's own clock. `local` is what the system made of
/// the time, if it could; where it could not, universal time is shown.
pub fn format_filetime_local(ft: u64, local: Option<LocalTime>) -> (r: String)
    ensures
        r@ == local_text(ft as nat, local),
{
    match local {
        Some(t) => {
            let mut out = String::new();
            push_stamp(&mut out, t.0, t.1, t.2, t.3, t.4);
            assert(out@ =~= local_text(ft as nat, local));
            out
        },
        None => format_filetime(ft),
    }
}

/// The letter `c` if `shown`.
pub open spec fn letter_if(shown: bool, c: char) -> Seq<char> {
    if shown {
        seq![c]
    } else {
        Seq::empty()
    }
}

/// The letters of the attributes that are shown: read-only, hidden, system, archive, compressed.
pub open spec fn attribute_letters(attrs: u32) -> Seq<char> {
    letter_if(attrs & 0x01 != 0, 'R') + letter_if(attrs & 0x02 != 0, 'H') + letter_if(
        attrs & 0x04 != 0,
        'S',
    ) + letter_if(attrs & 0x20 != 0, 'A') + letter_if(attrs & 0x800 != 0, 'C')
}

pub open spec fn attributes_text(attrs: u32) -> Seq<char> {
    if attribute_letters(attrs).len() == 0 {
        "—"@
    } else {
        attribute_letters(attrs)
    }
}

/// The attributes of a file as a row of letters, or a dash where none is to be shown.
pub fn format_attributes(attrs: u32) -> (r: String)
    ensures
        r@ == attributes_text(attrs),
{
    let mut s = String::new();
    if attrs & 0x01 != 0 {
        s.push('R');
    }
    if attrs & 0x02 != 0 {
        s.push('H');
    }
    if attrs & 0x04 != 0 {
        s.push('S');
    }
    if attrs & 0x20 != 0 {
        s.push('A');
    }
    if attrs & 0x800 != 0 {
        s.push('C');
    }
    assert(s@ =~= attribute_letters(attrs));
    if s.as_str().is_empty() {
        owned("—")
    } else {
        s
    }
}

/// Whether `fits`, asked about the text `s`, may answer `answer`.
pub open spec fn may_answer<F: Fn(&str) -> bool>(fits: F, s: Seq<char>, answer: bool) -> bool {
    exists|t: &str| t@ == s && #[trigger] call_ensures(fits, (t,), answer)
}

/// The first `n` characters of `text` and an ellipsis; nothing for none.
pub open spec fn shortened(text: Seq<char>, n: int) -> Seq<char> {
    if n == 0 {
        Seq::empty()
    } else {
        text.take(n).push('…')
    }
}

/// Shortens text to what fits. Text that fits stays as it is. Of other text as many characters
/// are kept, one by one from the front, as fit together with an ellipsis.
pub fn truncate_text<F: Fn(&str) -> bool>(text: &str, fits: F) -> (r: String)
    requires
        forall|t: &str| call_requires(fits, (t,)),
    ensures
        (r@ == text@ && may_answer(fits, text@, true)) || (may_answer(fits, text@, false) && exists|n: int|
            0 <= n <= text@.len() && r@ == #[trigger] shortened(text@, n) && (n < text@.len() ==> may_answer(
                fits,
                text@.take(n + 1).push('…'),
                false,
            )) && (forall|k: int|
                1 <= k <= n ==> may_answer(fits, #[trigger] text@.take(k).push('…'), true))),
{
    if fits(text) {
        return owned(text);
    }
    let chars = chars_of(text);
    let mut kept = String::new();
    let mut i: usize = 0;
    while i < chars.len()
        invariant
            chars@ == text@,
            i <= chars@.len(),
            kept@ == text@.take(i as int),
            forall|t: &str| call_requires(fits, (t,)),
            may_answer(fits, text@, false),
            forall|k: int| 1 <= k <= i ==> may_answer(fits, #[trigger] text@.take(k).push('…'), true),
        ensures
            i <= chars@.len(),
            i < chars@.len() ==> may_answer(fits, text@.take(i + 1).push('…'), false),
        decreases chars@.len() - i,
    {
        let mut candidate = kept.clone();
        candidate.push(chars[i]);
        candidate.push('…');
        assert(candidate@ =~= text@.take(i + 1).push('…'));
        if !fits(candidate.as_str()) {
            break;
        }
        kept.push(chars[i]);
        i = i + 1;
        assert(kept@ =~= text@.take(i as int));
    }
    assert(shortened(text@, i as int) == if i == 0 {
        Seq::empty()
    } else {
        text@.take(i as int).push('…')
    });
    if i > 0 {
        kept.push('…');
    }
    assert(kept@ =~= shortened(text@, i as int));
    kept
}

// ---------------------------------------------------------------------------------------------
// Reading what is shown
// ---------------------------------------------------------------------------------------------

/// How many bytes the unit with the given letter stands for: each is 1024 times the one before it.
pub open spec fn letter_bytes(c: char) -> nat {
    if c == 'B' {
        1
    } else if c == 'K' {
        1024
    } else if c == 'M' {
        1024 * 1024
    } else if c == 'G' {
        1024 * 1024 * 1024
    } else {
        1024 * 1024 * 1024 * 1024
    }
}

/// Whether `h` hundredths of a unit of `unit` bytes is what `bytes` are, rounded to the nearest
/// hundredth: off by one half at most, and by a millionth that floating-point numbers lose.
pub open spec fn is_size_in(h: nat, unit: nat, bytes: nat) -> bool {
    &&& 1_000_000 * (2 * (h * unit)) <= 1_000_000 * (200 * bytes) + 1_000_001 * unit
    &&& 1_000_000 * (200 * bytes) <= 1_000_000 * (2 * (h * unit)) + 1_000_001 * unit
}

/// Whether a size is shown in the unit with the letter `c`: the largest that goes into it, or bytes
/// where none does.
pub open spec fn is_unit_for(c: char, bytes: nat) -> bool {
    &&& c == 'B' || c == 'K' || c == 'M' || c == 'G' || c == 'T'
    &&& c == 'B' || bytes >= letter_bytes(c)
    &&& c == 'T' || bytes < 1024 * letter_bytes(c)
}

proof fn lemma_size(bytes: u64)
    ensures
        ({
            let v = float_of(bytes as nat, Precision::Double);
            let u = unit_of(v);
            &&& is_unit_for(unit_letter(u)[0], bytes as nat)
            &&& letter_bytes(unit_letter(u)[0]) == unit_bytes(u)
            &&& unit_letter(u).len() == 1
            &&& is_size_in(size_hundredths(bytes as nat), unit_bytes(u), bytes as nat)
        }),
{
    let b = bytes as nat;
    law_floats_are_close(b);
    reveal_strlit("B");
    reveal_strlit("K");
    reveal_strlit("M");
    reveal_strlit("G");
    reveal_strlit("T");
    let v = float_of(b, Precision::Double);
    let unit = unit_bytes(unit_of(v));
    let h = size_hundredths(b);
    lemma_half_even(100 * v, unit);
    let hu = h * unit;
    assert(2 * hu <= 2 * (100 * v) + unit && 2 * (100 * v) <= 2 * hu + unit);
}

/// A size is shown with two decimals, a blank and its unit, which is the largest that goes into it.
pub proof fn law_sizes_are_shown_in_their_unit(bytes: u64) -> (c: char)
    ensures
        is_unit_for(c, bytes as nat),
        ({
            let s = size_text(bytes as nat);
            let name = if c == 'B' {
                seq!['B']
            } else {
                seq![c, 'B']
            };
            exists|h: nat| #[trigger] is_size_in(h, letter_bytes(c), bytes as nat) && s == two_decimals(h) + seq![' '] + name
        }),
{
    lemma_size(bytes);
    let u = unit_of(float_of(bytes as nat, Precision::Double));
    let c = unit_letter(u)[0];
    let h = size_hundredths(bytes as nat);
    reveal_strlit("B");
    reveal_strlit("K");
    reveal_strlit("M");
    reveal_strlit("G");
    reveal_strlit("T");
    reveal_strlit("KB");
    reveal_strlit("MB");
    reveal_strlit("GB");
    reveal_strlit("TB");
    let name = if c == 'B' {
        seq!['B']
    } else {
        seq![c, 'B']
    };
    assert(unit_name(u) =~= name);
    assert(size_text(bytes as nat) =~= two_decimals(h) + seq![' '] + name);
    assert(is_size_in(h, letter_bytes(c), bytes as nat));
    c
}

/// Where there is little room, a size is shown with the letter of its unit right behind the number;
/// bytes are shown without decimals.
pub proof fn law_compact_sizes_are_shown_in_their_unit(bytes: u64) -> (c: char)
    ensures
        is_unit_for(c, bytes as nat),
        ({
            let s = compact_size_text(bytes as nat);
            if c == 'B' {
                s == decimal(bytes as nat) + seq!['B']
            } else {
                exists|h: nat| #[trigger] is_size_in(h, letter_bytes(c), bytes as nat) && s == two_decimals(h) + seq![c]
            }
        }),
{
    lemma_size(bytes);
    let u = unit_of(float_of(bytes as nat, Precision::Double));
    let c = unit_letter(u)[0];
    let h = size_hundredths(bytes as nat);
    reveal_strlit("B");
    reveal_strlit("K");
    reveal_strlit("M");
    reveal_strlit("G");
    reveal_strlit("T");
    assert(unit_letter(u) =~= seq![c]);
    assert(is_size_in(h, letter_bytes(c), bytes as nat));
    c
}

/// Whether `s` reads "YYYY-MM-DD HH:MM" with the given numbers.
pub open spec fn reads_as_moment(s: Seq<char>, y: nat, m: nat, d: nat, hour: nat, min: nat) -> bool {
    &&& s.len() == 16
    &&& all_digits(s.subrange(0, 4)) && read_decimal(s.subrange(0, 4)) == y
    &&& s[4] == '-'
    &&& all_digits(s.subrange(5, 7)) && read_decimal(s.subrange(5, 7)) == m
    &&& s[7] == '-'
    &&& all_digits(s.subrange(8, 10)) && read_decimal(s.subrange(8, 10)) == d
    &&& s[10] == ' '
    &&& all_digits(s.subrange(11, 13)) && read_decimal(s.subrange(11, 13)) == hour
    &&& s[13] == ':'
    &&& all_digits(s.subrange(14, 16)) && read_decimal(s.subrange(14, 16)) == min
}

proof fn lemma_width(n: nat, width: nat)
    requires
        width == 2 && n < 100 || width == 4 && n < 10000,
    ensures
        zero_padded(decimal(n), width).len() == width,
        all_digits(zero_padded(decimal(n), width)),
        read_decimal(zero_padded(decimal(n), width)) == n,
{
    law_padding_keeps_the_number(n, width);
    law_decimals_read_back(n);
    law_decimals_read_back(n / 10);
    law_decimals_read_back(n / 100);
    law_decimals_read_back(n / 1000);
    if n >= 10 {
        assert(decimal(n).len() == decimal(n / 10).len() + 1);
    }
    if n >= 100 {
        assert(n / 10 / 10 == n / 100);
        assert(decimal(n / 10).len() == decimal(n / 100).len() + 1);
    }
    if n >= 1000 {
        assert(n / 100 / 10 == n / 1000);
        assert(decimal(n / 100).len() == decimal(n / 1000).len() + 1);
    }
}

/// A point in time with a year of four digits can be read back from its text.
pub proof fn law_stamps_read_back(y: nat, m: nat, d: nat, hour: nat, min: nat)
    requires
        y < 10000,
        m < 100,
        d < 100,
        hour < 100,
        min < 100,
    ensures
        reads_as_moment(stamp(y as int, m, d, hour, min), y, m, d, hour, min),
{
    lemma_width(y, 4);
    lemma_width(m, 2);
    lemma_width(d, 2);
    lemma_width(hour, 2);
    lemma_width(min, 2);
    let a = zero_padded(decimal(y), 4);
    let b = zero_padded(decimal(m), 2);
    let c = zero_padded(decimal(d), 2);
    let e = zero_padded(decimal(hour), 2);
    let f = zero_padded(decimal(min), 2);
    let s = stamp(y as int, m, d, hour, min);
    assert(s =~= a.push('-') + b.push('-') + c.push(' ') + e.push(':') + f);
    assert(s.subrange(0, 4) =~= a);
    assert(s.subrange(5, 7) =~= b);
    assert(s.subrange(8, 10) =~= c);
    assert(s.subrange(11, 13) =~= e);
    assert(s.subrange(14, 16) =~= f);
}

/// The file time of a moment in universal time: the steps of 100 nanoseconds since the start of 1601,
/// `rest` of them after the full minute.
pub open spec fn moment(y: nat, m: nat, d: nat, hour: nat, min: nat, rest: nat) -> int {
    (((day_number(y as int, m as int, d as int) - day_number(1601, 1, 1)) * 24 + hour) * 60 + min) * 600_000_000 + rest
}

/// A file time is shown as the date and the minute that it falls in, whatever moment since 1970 it is.
pub proof fn law_filetimes_are_shown_as_their_moment(y: nat, m: nat, d: nat, hour: nat, min: nat, rest: nat)
    requires
        1970 <= y < 10000,
        is_date(y as int, m as int, d as int),
        hour < 24,
        min < 60,
        rest < 600_000_000,
    ensures
        moment(y, m, d, hour, min, rest) >= 0,
        reads_as_moment(filetime_text(moment(y, m, d, hour, min, rest) as nat), y, m, d, hour, min),
        reads_as_moment(local_text(moment(y, m, d, hour, min, rest) as nat, None), y, m, d, hour, min),
{
    let days = day_number(y as int, m as int, d as int);
    law_dates_are_ordered_as_days(1970, 1, 1, y as int, m as int, d as int);
    assert(day_number(1970, 1, 1) == 0);
    assert(day_number(1601, 1, 1) == -134_774);
    lemma_date_of(y as int, m as int, d as int);
    let ft = moment(y, m, d, hour, min, rest);
    let s = rest / 10_000_000;
    assert(ft == (((days + 134_774) * 86_400 + hour * 3600 + min * 60) * 10_000_000) + rest);
    assert(ft / 10_000_000 == (days + 134_774) * 86_400 + hour * 3600 + min * 60 + s);
    let secs = days * 86_400 + hour * 3600 + min * 60 + s;
    assert(secs / 86_400 == days);
    assert(secs % 86_400 == hour * 3600 + min * 60 + s);
    law_stamps_read_back(y, m, d, hour, min);
}

/// A time on the user's own clock is shown as it is there.
pub proof fn law_local_times_are_shown_as_they_are(ft: nat, t: LocalTime)
    requires
        0 <= t.0 < 10000,
        t.1 < 100,
        t.2 < 100,
        t.3 < 100,
        t.4 < 100,
    ensures
        reads_as_moment(local_text(ft, Some(t)), t.0 as nat, t.1 as nat, t.2 as nat, t.3 as nat, t.4 as nat),
{
    law_stamps_read_back(t.0 as nat, t.1 as nat, t.2 as nat, t.3 as nat, t.4 as nat);
}

/// Whether the attributes have the given bit.
pub open spec fn has_bit(attrs: u32, bit: nat) -> bool {
    attrs as nat / bit % 2 == 1
}

/// Of attributes each letter is shown if and only if its bit is there, each once, in the order of the
/// bits; where there is none, a dash is shown.
pub proof fn law_attributes_are_shown_by_their_letters(attrs: u32)
    ensures
        ({
            let s = attributes_text(attrs);
            let none = !has_bit(attrs, 1) && !has_bit(attrs, 2) && !has_bit(attrs, 4) && !has_bit(attrs, 32) && !has_bit(
                attrs,
                2048,
            );
            &&& none ==> s == seq!['—']
            &&& !none ==> {
                &&& s.contains('R') == has_bit(attrs, 1)
                &&& s.contains('H') == has_bit(attrs, 2)
                &&& s.contains('S') == has_bit(attrs, 4)
                &&& s.contains('A') == has_bit(attrs, 32)
                &&& s.contains('C') == has_bit(attrs, 2048)
                &&& forall|i: int| 0 <= i < s.len() ==> is_attribute_letter(#[trigger] s[i])
                &&& forall|i: int, j: int| 0 <= i < j < s.len() ==> comes_before(#[trigger] s[i], #[trigger] s[j])
            }
        }),
{
    assert((attrs & 0x01 != 0) == (attrs % 2 == 1)) by (bit_vector);
    assert((attrs & 0x02 != 0) == (attrs / 2 % 2 == 1)) by (bit_vector);
    assert((attrs & 0x04 != 0) == (attrs / 4 % 2 == 1)) by (bit_vector);
    assert((attrs & 0x20 != 0) == (attrs / 32 % 2 == 1)) by (bit_vector);
    assert((attrs & 0x800 != 0) == (attrs / 2048 % 2 == 1)) by (bit_vector);
    reveal_strlit("—");
    assert("—"@ =~= seq!['—']);
    let t0 = Seq::<char>::empty();
    let t1 = t0 + letter_if(attrs & 0x01 != 0, 'R');
    let t2 = t1 + letter_if(attrs & 0x02 != 0, 'H');
    let t3 = t2 + letter_if(attrs & 0x04 != 0, 'S');
    let t4 = t3 + letter_if(attrs & 0x20 != 0, 'A');
    let t5 = t4 + letter_if(attrs & 0x800 != 0, 'C');
    lemma_one_more_letter(t0, attrs & 0x01 != 0, 'R');
    lemma_one_more_letter(t1, attrs & 0x02 != 0, 'H');
    lemma_one_more_letter(t2, attrs & 0x04 != 0, 'S');
    lemma_one_more_letter(t3, attrs & 0x20 != 0, 'A');
    lemma_one_more_letter(t4, attrs & 0x800 != 0, 'C');
    assert(t1 =~= letter_if(attrs & 0x01 != 0, 'R'));
    assert(attribute_letters(attrs) == t5);
}

/// Whether the letters of `s` are those of attributes, in their order.
spec fn are_letters(s: Seq<char>) -> bool {
    &&& forall|i: int| 0 <= i < s.len() ==> is_attribute_letter(#[trigger] s[i])
    &&& forall|i: int, j: int| 0 <= i < j < s.len() ==> comes_before(#[trigger] s[i], #[trigger] s[j])
}

/// A letter more behind letters that all come before it.
proof fn lemma_one_more_letter(s: Seq<char>, shown: bool, c: char)
    requires
        are_letters(s),
        is_attribute_letter(c),
        forall|i: int| 0 <= i < s.len() ==> comes_before(#[trigger] s[i], c),
    ensures
        are_letters(s + letter_if(shown, c)),
        (s + letter_if(shown, c)).len() == s.len() + if shown {
            1nat
        } else {
            0
        },
        forall|x: char| #[trigger]
            (s + letter_if(shown, c)).contains(x) == (s.contains(x) || shown && x == c),
        forall|i: int|
            0 <= i < (s + letter_if(shown, c)).len() ==> (#[trigger] (s + letter_if(shown, c))[i] == c || comes_before(
                (s + letter_if(shown, c))[i],
                c,
            )),
{
    let t = s + letter_if(shown, c);
    if !shown {
        assert(t =~= s);
    } else {
        assert(t =~= s.push(c));
        assert forall|x: char| #[trigger] t.contains(x) == (s.contains(x) || x == c) by {
            if s.contains(x) {
                let i = choose|i: int| 0 <= i < s.len() && s[i] == x;
                assert(t[i] == x);
            }
            assert(t[s.len() as int] == c);
        }
    }
}

/// Whether `c` is the letter of an attribute.
pub open spec fn is_attribute_letter(c: char) -> bool {
    c == 'R' || c == 'H' || c == 'S' || c == 'A' || c == 'C'
}

/// Whether the bit of letter `a` is lower than that of letter `b`.
pub open spec fn comes_before(a: char, b: char) -> bool {
    ||| a == 'R' && (b == 'H' || b == 'S' || b == 'A' || b == 'C')
    ||| a == 'H' && (b == 'S' || b == 'A' || b == 'C')
    ||| a == 'S' && (b == 'A' || b == 'C')
    ||| a == 'A' && b == 'C'
}

} // verus!
