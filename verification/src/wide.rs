//! Text as the system takes it: UTF-16 units with a zero behind them.
use vstd::prelude::*;

use crate::text::chars_of;

verus! {

use crate::text::{is_surrogate, utf16_lossy};

/// The UTF-16 units of a character.
pub open spec fn units_of(c: char) -> Seq<u16> {
    let n = c as int;
    if n < 0x1_0000 {
        seq![n as u16]
    } else {
        seq![(0xD800 + (n - 0x1_0000) / 0x400) as u16, (0xDC00 + (n - 0x1_0000) % 0x400) as u16]
    }
}

/// The UTF-16 units of a text.
pub open spec fn encoded(s: Seq<char>) -> Seq<u16>
    decreases s.len(),
{
    if s.len() == 0 {
        Seq::empty()
    } else {
        encoded(s.drop_last()) + units_of(s.last())
    }
}

fn push_units(out: &mut Vec<u16>, c: char)
    ensures
        final(out)@ == old(out)@ + units_of(c),
{
    let n: u32 = c as u32;
    if n < 0x1_0000 {
        out.push(n as u16);
    } else {
        let m: u32 = n - 0x1_0000;
        out.push((0xD800 + m / 0x400) as u16);
        out.push((0xDC00 + m % 0x400) as u16);
    }
    assert(out@ =~= old(out)@ + units_of(c));
}

/// The units of a text.
pub fn encode(s: &str) -> (r: Vec<u16>)
    ensures
        r@ == encoded(s@),
{
    let v = chars_of(s);
    let mut out: Vec<u16> = Vec::new();
    let mut i: usize = 0;
    while i < v.len()
        invariant
            i <= v@.len(),
            out@ =~= encoded(v@.take(i as int)),
        decreases v@.len() - i,
    {
        assert(v@.take(i + 1).drop_last() =~= v@.take(i as int));
        push_units(&mut out, v[i]);
        i = i + 1;
    }
    assert(v@.take(i as int) =~= v@);
    out
}

/// The units of a text with a zero behind them.
pub fn wide(s: &str) -> (r: Vec<u16>)
    ensures
        r@ == encoded(s@).push(0),
{
    let mut out = encode(s);
    out.push(0);
    out
}

/// A character with the units of another text behind it.
proof fn lemma_decode_one(c: char, rest: Seq<u16>)
    ensures
        utf16_lossy(units_of(c) + rest) == seq![c] + utf16_lossy(rest),
{
    let u = units_of(c) + rest;
    let n = c as int;
    if n < 0x1_0000 {
        assert(u[0] == n as u16);
        assert(!is_surrogate(u[0]));
        assert(u.skip(1) =~= rest);
        assert(u[0] as char == c);
    } else {
        assert(u.skip(2) =~= rest);
        let a = (n - 0x1_0000) / 0x400;
        let b = (n - 0x1_0000) % 0x400;
        assert(u[0] == 0xD800 + a && u[1] == 0xDC00 + b);
        assert((u[0] - 0xD800) * 0x400 + (u[1] - 0xDC00) + 0x1_0000 == n);
        assert(n as char == c);
    }
}

/// The text that UTF-16 units from the system stand for. An unpaired surrogate, which names on a disk
/// can hold, is replaced by U+FFFD.
pub fn from_wide(units: &[u16]) -> (r: String)
    ensures
        r@ == utf16_lossy(units@),
{
    String::from_utf16_lossy(units)
}

/// The first character's units come first.
proof fn lemma_encoded_first(s: Seq<char>)
    requires
        s.len() > 0,
    ensures
        encoded(s) == units_of(s[0]) + encoded(s.skip(1)),
    decreases s.len(),
{
    if s.len() == 1 {
        reveal_with_fuel(encoded, 2);
        assert(s.drop_last() =~= Seq::empty());
        assert(s.skip(1) =~= Seq::empty());
        assert(encoded(s) =~= units_of(s[0]) + encoded(s.skip(1)));
    } else {
        lemma_encoded_first(s.drop_last());
        assert(s.drop_last().skip(1) =~= s.skip(1).drop_last());
        assert(s.skip(1).last() == s.last());
        assert(encoded(s) =~= units_of(s[0]) + encoded(s.skip(1)));
    }
}

/// Text survives the way to the system and back: what was encoded is decoded to the same text.
pub proof fn law_wide_text_reads_back(s: Seq<char>)
    ensures
        utf16_lossy(encoded(s)) == s,
    decreases s.len(),
{
    if s.len() > 0 {
        lemma_encoded_first(s);
        lemma_decode_one(s[0], encoded(s.skip(1)));
        law_wide_text_reads_back(s.skip(1));
        assert(seq![s[0]] + s.skip(1) =~= s);
    } else {
        assert(s =~= Seq::empty());
    }
}

} // verus!
