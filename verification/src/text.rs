//! Text: building strings, decoding UTF-16, and writing numbers.
use vstd::prelude::*;

verus! {

/// What `String::push` does: the string grows by one character at its end.
pub assume_specification[ String::push ](s: &mut String, c: char)
    ensures
        final(s)@ == old(s)@.push(c),
;

/// `String::from_utf16_lossy`: every surrogate pair becomes the one character that it encodes,
/// every unpaired surrogate becomes U+FFFD, and every other unit stands for itself.
pub assume_specification[ String::from_utf16_lossy ](v: &[u16]) -> (s: String)
    ensures
        s@ == utf16_lossy(v@),
;

pub open spec fn is_surrogate(u: u16) -> bool {
    0xD800 <= u < 0xE000
}

/// The text that a sequence of UTF-16 units stands for, unpaired surrogates replaced by U+FFFD.
pub open spec fn utf16_lossy(u: Seq<u16>) -> Seq<char>
    decreases u.len(),
{
    if u.len() == 0 {
        Seq::empty()
    } else if !is_surrogate(u[0]) {
        seq![u[0] as char] + utf16_lossy(u.skip(1))
    } else if u[0] < 0xDC00 && u.len() >= 2 && 0xDC00 <= u[1] < 0xE000 {
        seq![((u[0] - 0xD800) * 0x400 + (u[1] - 0xDC00) + 0x1_0000) as char] + utf16_lossy(u.skip(2))
    } else {
        seq!['\u{FFFD}'] + utf16_lossy(u.skip(1))
    }
}

/// Whether `s` reads exactly `t`.
pub fn same_text(s: &str, t: &str) -> (r: bool)
    ensures
        r == (s@ == t@),
{
    s.to_owned() == t.to_owned()
}

/// A string with the characters of `s`.
pub fn owned(s: &str) -> (r: String)
    ensures
        r@ == s@,
{
    s.to_owned()
}

/// The characters of `s`, one by one.
pub fn chars_of(s: &str) -> (r: Vec<char>)
    ensures
        r@ == s@,
{
    let mut out: Vec<char> = Vec::new();
    for c in it: s.chars()
        invariant
            out@ == it.seq().take(it.index()),
            it.seq() == s@,
    {
        out.push(c);
        assert(out@ =~= it.seq().take(it.index() + 1));
    }
    assert(s@.take(s@.len() as int) =~= s@);
    out
}

/// The string made of `v[from..to]`.
pub fn string_of(v: &Vec<char>, from: usize, to: usize) -> (r: String)
    requires
        from <= to <= v@.len(),
    ensures
        r@ == v@.subrange(from as int, to as int),
{
    let mut out = String::new();
    let mut i: usize = from;
    while i < to
        invariant
            from <= i <= to <= v@.len(),
            out@ == v@.subrange(from as int, i as int),
        decreases to - i,
    {
        out.push(v[i]);
        i = i + 1;
        assert(out@ =~= v@.subrange(from as int, i as int));
    }
    out
}

/// The decimal digit `d`.
pub open spec fn digit(d: nat) -> char {
    (('0' as nat) + d) as char
}

/// The number `n` in decimal, without leading zeros.
pub open spec fn decimal(n: nat) -> Seq<char>
    decreases n,
{
    if n < 10 {
        seq![digit(n)]
    } else {
        decimal(n / 10).push(digit(n % 10))
    }
}

/// `s` with zeros put in front until it has at least `width` characters.
pub open spec fn zero_padded(s: Seq<char>, width: nat) -> Seq<char> {
    if s.len() >= width {
        s
    } else {
        Seq::new((width - s.len()) as nat, |i: int| '0') + s
    }
}

/// The number of hundredths `h` as a number with two decimals.
pub open spec fn two_decimals(h: nat) -> Seq<char> {
    decimal(h / 100).push('.') + zero_padded(decimal(h % 100), 2)
}

/// The digit `d` in upper-case hexadecimal.
pub open spec fn hex_upper_digit(d: nat) -> char {
    if d < 10 {
        digit(d)
    } else {
        (('A' as nat) + d - 10) as char
    }
}

/// The number `n` in upper-case hexadecimal, without leading zeros.
pub open spec fn hex_upper(n: nat) -> Seq<char>
    decreases n,
{
    if n < 16 {
        seq![hex_upper_digit(n)]
    } else {
        hex_upper(n / 16).push(hex_upper_digit(n % 16))
    }
}

fn digit_char(d: u8) -> (r: char)
    requires
        d < 10,
    ensures
        r == digit(d as nat),
{
    (48u8 + d) as char
}

fn hex_upper_char(d: u8) -> (r: char)
    requires
        d < 16,
    ensures
        r == hex_upper_digit(d as nat),
{
    if d < 10 {
        digit_char(d)
    } else {
        (65u8 + (d - 10)) as char
    }
}

fn reversed(v: &Vec<char>) -> (r: Vec<char>)
    ensures
        r@ == v@.reverse(),
{
    let mut out: Vec<char> = Vec::new();
    let mut i: usize = v.len();
    while i > 0
        invariant
            i <= v@.len(),
            out@ =~= v@.reverse().take(v@.len() - i),
        decreases i,
    {
        i = i - 1;
        out.push(v[i]);
    }
    assert(v@.reverse().take(v@.len() as int) =~= v@.reverse());
    out
}

/// The digits of `n` in decimal.
fn decimal_chars(n: u128) -> (r: Vec<char>)
    ensures
        r@ == decimal(n as nat),
{
    // The digits come out last first.
    let mut rev: Vec<char> = Vec::new();
    let mut rest: u128 = n;
    while rest >= 10
        invariant
            decimal(n as nat) =~= decimal(rest as nat) + rev@.reverse(),
        decreases rest,
    {
        let d: char = digit_char((rest % 10) as u8);
        assert(rev@.push(d).reverse() =~= seq![d] + rev@.reverse());
        rev.push(d);
        rest = rest / 10;
    }
    let d: char = digit_char(rest as u8);
    assert(rev@.push(d).reverse() =~= seq![d] + rev@.reverse());
    rev.push(d);
    reversed(&rev)
}

/// The digits of `n` in upper-case hexadecimal.
fn hex_upper_chars(n: u64) -> (r: Vec<char>)
    ensures
        r@ == hex_upper(n as nat),
{
    let mut rev: Vec<char> = Vec::new();
    let mut rest: u64 = n;
    while rest >= 16
        invariant
            hex_upper(n as nat) =~= hex_upper(rest as nat) + rev@.reverse(),
        decreases rest,
    {
        let d: char = hex_upper_char((rest % 16) as u8);
        assert(rev@.push(d).reverse() =~= seq![d] + rev@.reverse());
        rev.push(d);
        rest = rest / 16;
    }
    let d: char = hex_upper_char(rest as u8);
    assert(rev@.push(d).reverse() =~= seq![d] + rev@.reverse());
    rev.push(d);
    reversed(&rev)
}

/// Appends the characters `v`.
pub fn push_chars(out: &mut String, v: &Vec<char>)
    ensures
        final(out)@ == old(out)@ + v@,
{
    let mut i: usize = 0;
    while i < v.len()
        invariant
            i <= v@.len(),
            out@ =~= old(out)@ + v@.take(i as int),
        decreases v@.len() - i,
    {
        out.push(v[i]);
        i = i + 1;
    }
    assert(v@.take(v@.len() as int) =~= v@);
}

/// Appends the number `n` in decimal.
pub fn push_decimal(out: &mut String, n: u64)
    ensures
        final(out)@ == old(out)@ + decimal(n as nat),
{
    let v = decimal_chars(n as u128);
    push_chars(out, &v);
}

/// Appends the number `n` in decimal.
pub fn push_decimal_wide(out: &mut String, n: u128)
    ensures
        final(out)@ == old(out)@ + decimal(n as nat),
{
    let v = decimal_chars(n);
    push_chars(out, &v);
}

/// The number `n` in decimal.
pub fn decimal_text(n: u64) -> (r: String)
    ensures
        r@ == decimal(n as nat),
{
    let mut out = String::new();
    push_decimal(&mut out, n);
    assert(out@ =~= decimal(n as nat));
    out
}

/// Appends the number of hundredths `h` with its two decimals.
pub fn push_hundredths(out: &mut String, h: u128)
    ensures
        final(out)@ == old(out)@ + two_decimals(h as nat),
{
    let whole = decimal_chars(h / 100);
    push_chars(out, &whole);
    out.push('.');
    push_padded(out, (h % 100) as u64, 2);
    assert(out@ =~= old(out)@ + two_decimals(h as nat));
}

/// Appends the number `n` in upper-case hexadecimal.
pub fn push_hex_upper(out: &mut String, n: u64)
    ensures
        final(out)@ == old(out)@ + hex_upper(n as nat),
{
    let v = hex_upper_chars(n);
    push_chars(out, &v);
}

/// Appends the number `n` in decimal, padded with zeros to at least `width` characters.
pub fn push_padded(out: &mut String, n: u64, width: usize)
    ensures
        final(out)@ == old(out)@ + zero_padded(decimal(n as nat), width as nat),
{
    let v = decimal_chars(n as u128);
    let mut len: usize = v.len();
    while len < width
        invariant
            v@.len() <= len,
            len <= width || len == v@.len(),
            out@ =~= old(out)@ + Seq::new((len - v@.len()) as nat, |i: int| '0'),
        decreases width - len,
    {
        out.push('0');
        len = len + 1;
    }
    push_chars(out, &v);
    assert(out@ =~= old(out)@ + zero_padded(decimal(n as nat), width as nat));
}

/// The integer `n` in decimal, padded with zeros behind its sign to at least `width` characters.
pub open spec fn signed_padded(n: int, width: nat) -> Seq<char> {
    if n < 0 {
        seq!['-'] + zero_padded(decimal((-n) as nat), (if width > 0 {
            width - 1
        } else {
            0
        }) as nat)
    } else {
        zero_padded(decimal(n as nat), width)
    }
}

/// Appends the integer `n` in decimal, padded with zeros to at least `width` characters.
pub fn push_padded_signed(out: &mut String, n: i64, width: usize)
    ensures
        final(out)@ == old(out)@ + signed_padded(n as int, width as nat),
{
    if n < 0 {
        out.push('-');
        // The magnitude of the least integer is no integer of the same type.
        let magnitude: u64 = (-(n + 1)) as u64 + 1;
        push_padded(
            out,
            magnitude,
            if width > 0 {
                width - 1
            } else {
                0
            },
        );
        assert(out@ =~= old(out)@ + signed_padded(n as int, width as nat));
    } else {
        push_padded(out, n as u64, width);
    }
}

// ---------------------------------------------------------------------------------------------
// Comparing text
// ---------------------------------------------------------------------------------------------

/// The text that `str::to_lowercase` gives.
pub uninterp spec fn lowercase(s: Seq<char>) -> Seq<char>;

/// `str::to_lowercase`: the result depends on the characters alone. Which character becomes which
/// is Unicode's matter and not stated.
pub assume_specification[ str::to_lowercase ](s: &str) -> (r: String)
    ensures
        r@ == lowercase(s@),
;

/// Whether `a` comes before `b` in a dictionary of byte strings, or is the same.
pub open spec fn lex_le(a: Seq<u8>, b: Seq<u8>) -> bool
    decreases a.len(),
{
    if a.len() == 0 {
        true
    } else if b.len() == 0 {
        false
    } else {
        a[0] < b[0] || (a[0] == b[0] && lex_le(a.skip(1), b.skip(1)))
    }
}

pub proof fn lemma_lex_total(a: Seq<u8>, b: Seq<u8>)
    ensures
        lex_le(a, b) || lex_le(b, a),
    decreases a.len(),
{
    if a.len() > 0 && b.len() > 0 {
        lemma_lex_total(a.skip(1), b.skip(1));
    }
}

pub proof fn lemma_lex_transitive(a: Seq<u8>, b: Seq<u8>, c: Seq<u8>)
    requires
        lex_le(a, b),
        lex_le(b, c),
    ensures
        lex_le(a, c),
    decreases a.len(),
{
    if a.len() > 0 && b.len() > 0 && c.len() > 0 && a[0] == b[0] && b[0] == c[0] {
        lemma_lex_transitive(a.skip(1), b.skip(1), c.skip(1));
    }
}

/// Whether text `a` is ordered before `b` or equal: strings are ordered by their UTF-8 bytes.
pub open spec fn text_le(a: Seq<char>, b: Seq<char>) -> bool {
    lex_le(vstd::utf8::encode_utf8(a), vstd::utf8::encode_utf8(b))
}

/// The byte with ASCII upper case turned to lower case.
pub open spec fn lower_byte(b: u8) -> u8 {
    if 0x41 <= b <= 0x5A {
        (b + 0x20) as u8
    } else {
        b
    }
}

/// The bytes with ASCII upper case turned to lower case.
pub open spec fn lower_bytes(s: Seq<u8>) -> Seq<u8> {
    s.map_values(|b: u8| lower_byte(b))
}

/// Whether text `a` is ordered before `b` or equal, where ASCII case makes no difference.
pub open spec fn text_le_ignoring_case(a: Seq<char>, b: Seq<char>) -> bool {
    lex_le(lower_bytes(vstd::utf8::encode_utf8(a)), lower_bytes(vstd::utf8::encode_utf8(b)))
}

fn to_lower_byte(b: u8) -> (r: u8)
    ensures
        r == lower_byte(b),
{
    if 0x41 <= b && b <= 0x5A {
        b + 0x20
    } else {
        b
    }
}

/// Decides whether `a` is ordered before `b` or equal.
pub fn text_may_precede(a: &str, b: &str) -> (r: bool)
    ensures
        r == text_le(a@, b@),
{
    let x: &[u8] = a.as_bytes();
    let y: &[u8] = b.as_bytes();
    let mut i: usize = 0;
    assert(x@.skip(0) =~= x@);
    assert(y@.skip(0) =~= y@);
    while i < x.len() && i < y.len()
        invariant
            i <= x@.len(),
            i <= y@.len(),
            lex_le(x@, y@) == lex_le(x@.skip(i as int), y@.skip(i as int)),
            x@ == vstd::utf8::encode_utf8(a@),
            y@ == vstd::utf8::encode_utf8(b@),
        decreases x@.len() - i,
    {
        assert(x@.skip(i as int).skip(1) =~= x@.skip(i + 1));
        assert(y@.skip(i as int).skip(1) =~= y@.skip(i + 1));
        if x[i] != y[i] {
            return x[i] < y[i];
        }
        i = i + 1;
    }
    i >= x.len()
}

/// Decides whether `a` is ordered before `b` or equal, where ASCII case makes no difference.
pub fn text_may_precede_ignoring_case(a: &str, b: &str) -> (r: bool)
    ensures
        r == text_le_ignoring_case(a@, b@),
{
    let x: &[u8] = a.as_bytes();
    let y: &[u8] = b.as_bytes();
    let ghost lx = lower_bytes(x@);
    let ghost ly = lower_bytes(y@);
    let mut i: usize = 0;
    assert(lx.skip(0) =~= lx);
    assert(ly.skip(0) =~= ly);
    while i < x.len() && i < y.len()
        invariant
            i <= x@.len(),
            i <= y@.len(),
            lx == lower_bytes(x@),
            ly == lower_bytes(y@),
            lex_le(lx, ly) == lex_le(lx.skip(i as int), ly.skip(i as int)),
            x@ == vstd::utf8::encode_utf8(a@),
            y@ == vstd::utf8::encode_utf8(b@),
        decreases x@.len() - i,
    {
        assert(lx.skip(i as int).skip(1) =~= lx.skip(i + 1));
        assert(ly.skip(i as int).skip(1) =~= ly.skip(i + 1));
        let p: u8 = to_lower_byte(x[i]);
        let q: u8 = to_lower_byte(y[i]);
        assert(p == lx[i as int] && q == ly[i as int]);
        if p != q {
            return p < q;
        }
        i = i + 1;
    }
    i >= x.len()
}

// ---------------------------------------------------------------------------------------------
// Reading numbers
// ---------------------------------------------------------------------------------------------

/// Whether `s` is one or more decimal digits.
pub open spec fn all_digits(s: Seq<char>) -> bool {
    s.len() > 0 && forall|i: int| 0 <= i < s.len() ==> '0' <= #[trigger] s[i] <= '9'
}

/// The number that decimal digits stand for.
pub open spec fn read_decimal(s: Seq<char>) -> nat
    decreases s.len(),
{
    if s.len() == 0 {
        0
    } else {
        10 * read_decimal(s.drop_last()) + (s.last() as nat - '0' as nat) as nat
    }
}

/// A number in decimal is made of digits that stand for it, the first of which is not 0, but for the
/// number 0.
pub proof fn law_decimals_read_back(n: nat)
    ensures
        all_digits(decimal(n)),
        read_decimal(decimal(n)) == n,
        n > 0 ==> decimal(n)[0] != '0',
        n == 0 ==> decimal(n) == seq!['0'],
        n < 10 ==> decimal(n).len() == 1,
        10 <= n < 100 ==> decimal(n).len() == 2,
    decreases n,
{
    if n < 10 {
        reveal_with_fuel(read_decimal, 2);
        assert(decimal(n).drop_last() =~= Seq::empty());
    } else {
        law_decimals_read_back(n / 10);
        let front = decimal(n / 10);
        assert(decimal(n).drop_last() =~= front);
        assert(decimal(n)[0] == front[0]);
    }
}

proof fn lemma_zeros_in_front(s: Seq<char>, width: nat)
    requires
        all_digits(s),
    ensures
        all_digits(zero_padded(s, width)),
        read_decimal(zero_padded(s, width)) == read_decimal(s),
        zero_padded(s, width).len() == if s.len() >= width {
            s.len()
        } else {
            width
        },
    decreases s.len(),
{
    if s.len() < width {
        let z = Seq::new((width - s.len()) as nat, |i: int| '0');
        lemma_read_behind_zeros(z, s);
    }
}

proof fn lemma_read_behind_zeros(z: Seq<char>, s: Seq<char>)
    requires
        forall|i: int| 0 <= i < z.len() ==> #[trigger] z[i] == '0',
    ensures
        read_decimal(z + s) == read_decimal(s),
    decreases z.len() + s.len(),
{
    if s.len() > 0 {
        assert((z + s).drop_last() =~= z + s.drop_last());
        lemma_read_behind_zeros(z, s.drop_last());
    } else if z.len() > 0 {
        assert(z + s =~= z);
        assert(z.drop_last() + s =~= z.drop_last());
        lemma_read_behind_zeros(z.drop_last(), s);
        assert(z[z.len() - 1] == '0');
    } else {
        assert(z + s =~= s);
    }
}

/// A number that is padded with zeros still stands for itself, and is at least as wide as it is to be;
/// one that is wide enough gets no zeros.
pub proof fn law_padding_keeps_the_number(n: nat, width: nat)
    ensures
        all_digits(zero_padded(decimal(n), width)),
        read_decimal(zero_padded(decimal(n), width)) == n,
        zero_padded(decimal(n), width).len() >= width,
        zero_padded(decimal(n), width).len() > width ==> zero_padded(decimal(n), width) == decimal(n),
{
    law_decimals_read_back(n);
    lemma_zeros_in_front(decimal(n), width);
}

/// A number with two decimals has a point before its last two digits, and its digits together stand
/// for its hundredths.
pub proof fn law_two_decimals_read_back(h: nat)
    ensures
        ({
            let s = two_decimals(h);
            &&& s.len() >= 4
            &&& s[s.len() - 3] == '.'
            &&& all_digits(s.take(s.len() - 3))
            &&& all_digits(s.skip(s.len() - 2))
            &&& 100 * read_decimal(s.take(s.len() - 3)) + read_decimal(s.skip(s.len() - 2)) == h
        }),
{
    law_decimals_read_back(h / 100);
    law_decimals_read_back(h % 100);
    law_padding_keeps_the_number(h % 100, 2);
    let a = decimal(h / 100);
    let b = zero_padded(decimal(h % 100), 2);
    let s = two_decimals(h);
    assert(b.len() == 2);
    assert(s.take(s.len() - 3) =~= a);
    assert(s.skip(s.len() - 2) =~= b);
}

/// The number that a hexadecimal digit stands for.
pub open spec fn read_hex_digit(c: char) -> nat {
    if '0' <= c <= '9' {
        (c as nat - '0' as nat) as nat
    } else {
        (c as nat - 'A' as nat + 10) as nat
    }
}

/// The number that hexadecimal digits stand for.
pub open spec fn read_hex(s: Seq<char>) -> nat
    decreases s.len(),
{
    if s.len() == 0 {
        0
    } else {
        16 * read_hex(s.drop_last()) + read_hex_digit(s.last())
    }
}

/// A number in hexadecimal is made of digits and the letters from A to F, which stand for it.
pub proof fn law_hex_reads_back(n: nat)
    ensures
        read_hex(hex_upper(n)) == n,
        hex_upper(n).len() > 0,
        forall|i: int|
            0 <= i < hex_upper(n).len() ==> '0' <= #[trigger] hex_upper(n)[i] <= '9' || 'A' <= hex_upper(n)[i] <= 'F',
    decreases n,
{
    if n < 16 {
        reveal_with_fuel(read_hex, 2);
        assert(hex_upper(n).drop_last() =~= Seq::empty());
    } else {
        law_hex_reads_back(n / 16);
        let front = hex_upper(n / 16);
        assert(hex_upper(n).drop_last() =~= front);
        assert forall|i: int| 0 <= i < hex_upper(n).len() implies '0' <= #[trigger] hex_upper(n)[i] <= '9' || 'A'
            <= hex_upper(n)[i] <= 'F' by {
            if i < front.len() {
                assert(hex_upper(n)[i] == front[i]);
            }
        }
    }
}

// ---------------------------------------------------------------------------------------------
// The order of texts
// ---------------------------------------------------------------------------------------------

/// Byte strings are ordered by the first byte in which they differ.
pub proof fn law_first_difference_decides(a: Seq<u8>, b: Seq<u8>, k: int)
    requires
        0 <= k < a.len(),
        k < b.len(),
        a.take(k) == b.take(k),
        a[k] != b[k],
    ensures
        lex_le(a, b) == (a[k] < b[k]),
    decreases k,
{
    if k > 0 {
        assert(a.take(k)[0] == a[0] && b.take(k)[0] == b[0]);
        assert(a.skip(1).take(k - 1) =~= a.take(k).skip(1));
        assert(b.skip(1).take(k - 1) =~= b.take(k).skip(1));
        law_first_difference_decides(a.skip(1), b.skip(1), k - 1);
    }
}

/// A byte string comes before every longer one that it starts, and not after it.
pub proof fn law_starts_come_first(a: Seq<u8>, rest: Seq<u8>)
    ensures
        lex_le(a, a + rest),
        lex_le(a + rest, a) <==> rest.len() == 0,
    decreases a.len(),
{
    if a.len() == 0 {
        assert(a + rest =~= rest);
    } else {
        assert((a + rest).skip(1) =~= a.skip(1) + rest);
        law_starts_come_first(a.skip(1), rest);
    }
}

/// Two bytes are the same but for case if and only if they are the same, or the one is an ASCII letter
/// in upper case and the other the same letter in lower case.
pub proof fn law_case_is_of_letters_only(a: u8, b: u8)
    ensures
        lower_byte(a) == lower_byte(b) <==> {
            ||| a == b
            ||| 'A' as int <= a <= 'Z' as int && b == a + ('a' as int - 'A' as int)
            ||| 'A' as int <= b <= 'Z' as int && a == b + ('a' as int - 'A' as int)
        },
{
}

} // verus!
