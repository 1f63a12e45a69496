//! Little-endian integers inside byte sequences, and the length test that guards reading them.
use vstd::prelude::*;

verus! {

/// The 16-bit little-endian number at `at`.
pub open spec fn le16(s: Seq<u8>, at: int) -> u16 {
    (s[at] + 0x100 * s[at + 1]) as u16
}

/// The 32-bit little-endian number at `at`.
pub open spec fn le32(s: Seq<u8>, at: int) -> u32 {
    (le16(s, at) + 0x1_0000 * le16(s, at + 2)) as u32
}

/// The 64-bit little-endian number at `at`.
pub open spec fn le64(s: Seq<u8>, at: int) -> u64 {
    (le32(s, at) + 0x1_0000_0000 * le32(s, at + 4)) as u64
}

/// The `n` 16-bit little-endian numbers that start at `at`.
pub open spec fn le16s(s: Seq<u8>, at: int, n: nat) -> Seq<u16> {
    Seq::new(n, |i: int| le16(s, at + 2 * i))
}

/// Whether `extra` bytes from `start` on lie within a buffer of `len` bytes.
pub fn fits(len: usize, start: usize, extra: usize) -> (r: bool)
    ensures
        r == (start + extra <= len),
{
    start <= len && extra <= len - start
}

/// Reads the 16-bit little-endian number at `at`.
pub fn read_u16(s: &[u8], at: usize) -> (r: u16)
    requires
        at + 2 <= s.len(),
    ensures
        r == le16(s@, at as int),
{
    s[at] as u16 + 0x100 * (s[at + 1] as u16)
}

/// Reads the 32-bit little-endian number at `at`.
pub fn read_u32(s: &[u8], at: usize) -> (r: u32)
    requires
        at + 4 <= s.len(),
    ensures
        r == le32(s@, at as int),
{
    read_u16(s, at) as u32 + 0x1_0000 * (read_u16(s, at + 2) as u32)
}

/// Reads the 64-bit little-endian number at `at`.
pub fn read_u64(s: &[u8], at: usize) -> (r: u64)
    requires
        at + 8 <= s.len(),
    ensures
        r == le64(s@, at as int),
{
    read_u32(s, at) as u64 + 0x1_0000_0000 * (read_u32(s, at + 4) as u64)
}

/// Reads `n` consecutive 16-bit little-endian numbers that start at `at`.
pub fn read_u16s(s: &[u8], at: usize, n: usize) -> (r: Vec<u16>)
    requires
        at + 2 * n <= s.len(),
    ensures
        r@ == le16s(s@, at as int, n as nat),
{
    let mut out: Vec<u16> = Vec::new();
    let mut i: usize = 0;
    while i < n
        invariant
            i <= n,
            at + 2 * n <= s.len(),
            out@ == le16s(s@, at as int, i as nat),
        decreases n - i,
    {
        let v: u16 = read_u16(s, at + 2 * i);
        out.push(v);
        i = i + 1;
        assert(out@ =~= le16s(s@, at as int, i as nat));
    }
    out
}

// ---------------------------------------------------------------------------------------------
// Writing
// ---------------------------------------------------------------------------------------------

/// The `count` lowest bytes of `n`, the lowest first.
pub open spec fn le_bytes(n: nat, count: nat) -> Seq<u8>
    decreases count,
{
    if count == 0 {
        Seq::empty()
    } else {
        seq![(n % 0x100) as u8] + le_bytes(n / 0x100, (count - 1) as nat)
    }
}

/// The bytes of some 16-bit units, one unit after the other.
pub open spec fn unit_bytes(units: Seq<u16>) -> Seq<u8> {
    Seq::new(
        2 * units.len(),
        |i: int|
            if i % 2 == 0 {
                (units[i / 2] % 0x100) as u8
            } else {
                (units[i / 2] / 0x100) as u8
            },
    )
}

/// `n` bytes of no meaning.
pub open spec fn zeros(n: nat) -> Seq<u8> {
    Seq::new(n, |i: int| 0u8)
}

/// Whether the bytes `b` stand in `r` from `at` on.
pub open spec fn holds(r: Seq<u8>, at: int, b: Seq<u8>) -> bool {
    &&& 0 <= at
    &&& at + b.len() <= r.len()
    &&& forall|i: int| 0 <= i < b.len() ==> r[at + i] == #[trigger] b[i]
}

pub proof fn lemma_le_bytes(n: nat, count: nat)
    ensures
        le_bytes(n, count).len() == count,
    decreases count,
{
    if count > 0 {
        lemma_le_bytes(n / 0x100, (count - 1) as nat);
    }
}

/// Where one piece stands behind another, both are there.
pub proof fn lemma_holds_both(r: Seq<u8>, at: int, a: Seq<u8>, b: Seq<u8>)
    requires
        holds(r, at, a + b),
    ensures
        holds(r, at, a),
        holds(r, at + a.len(), b),
{
    let c = a + b;
    assert forall|i: int| 0 <= i < a.len() implies r[at + i] == #[trigger] a[i] by {
        assert(c[i] == a[i]);
    }
    assert forall|i: int| 0 <= i < b.len() implies r[at + a.len() + i] == #[trigger] b[i] by {
        assert(c[a.len() + i] == b[i]);
    }
}

/// A number of one byte more: its lowest byte stands first, and the rest behind it.
proof fn lemma_lowest_byte(r: Seq<u8>, at: int, n: nat, count: nat)
    requires
        count > 0,
        holds(r, at, le_bytes(n, count)),
    ensures
        r[at] == n % 0x100,
        holds(r, at + 1, le_bytes(n / 0x100, (count - 1) as nat)),
{
    let rest = le_bytes(n / 0x100, (count - 1) as nat);
    lemma_holds_both(r, at, seq![(n % 0x100) as u8], rest);
    assert(r[at + 0] == seq![(n % 0x100) as u8][0]);
}

/// Whatever 16-bit number was written somewhere, lowest byte first, is read there.
pub proof fn law_written_u16_is_read(r: Seq<u8>, at: int, n: u16)
    requires
        holds(r, at, le_bytes(n as nat, 2)),
    ensures
        le16(r, at) == n,
{
    let n = n as nat;
    lemma_lowest_byte(r, at, n, 2);
    lemma_lowest_byte(r, at + 1, n / 0x100, 1);
}

/// Whatever 32-bit number was written somewhere, lowest byte first, is read there.
pub proof fn law_written_u32_is_read(r: Seq<u8>, at: int, n: u32)
    requires
        holds(r, at, le_bytes(n as nat, 4)),
    ensures
        le32(r, at) == n,
{
    let n = n as nat;
    lemma_lowest_byte(r, at, n, 4);
    lemma_lowest_byte(r, at + 1, n / 0x100, 3);
    lemma_lowest_byte(r, at + 2, n / 0x100 / 0x100, 2);
    lemma_lowest_byte(r, at + 3, n / 0x100 / 0x100 / 0x100, 1);
}

/// Whatever 64-bit number was written somewhere, lowest byte first, is read there.
pub proof fn law_written_u64_is_read(r: Seq<u8>, at: int, n: u64)
    requires
        holds(r, at, le_bytes(n as nat, 8)),
    ensures
        le64(r, at) == n,
{
    let n = n as nat;
    let n1 = n / 0x100;
    let n2 = n1 / 0x100;
    let n3 = n2 / 0x100;
    let n4 = n3 / 0x100;
    let n5 = n4 / 0x100;
    let n6 = n5 / 0x100;
    let n7 = n6 / 0x100;
    lemma_lowest_byte(r, at, n, 8);
    lemma_lowest_byte(r, at + 1, n1, 7);
    lemma_lowest_byte(r, at + 2, n2, 6);
    lemma_lowest_byte(r, at + 3, n3, 5);
    lemma_lowest_byte(r, at + 4, n4, 4);
    lemma_lowest_byte(r, at + 5, n5, 3);
    lemma_lowest_byte(r, at + 6, n6, 2);
    lemma_lowest_byte(r, at + 7, n7, 1);
    assert(n == n % 0x100 + 0x100 * n1);
    assert(n1 == n1 % 0x100 + 0x100 * n2);
    assert(n2 == n2 % 0x100 + 0x100 * n3);
    assert(n3 == n3 % 0x100 + 0x100 * n4);
    assert(n4 == n4 % 0x100 + 0x100 * n5);
    assert(n5 == n5 % 0x100 + 0x100 * n6);
    assert(n6 == n6 % 0x100 + 0x100 * n7);
    assert(n7 < 0x100);
    assert(le32(r, at) == n % 0x100 + 0x100 * (n1 % 0x100) + 0x1_0000 * (n2 % 0x100) + 0x100_0000 * (n3 % 0x100));
    assert(le32(r, at + 4) == n4 % 0x100 + 0x100 * (n5 % 0x100) + 0x1_0000 * (n6 % 0x100) + 0x100_0000 * n7);
}

/// Whatever 16-bit units were written somewhere are read there, in the same order.
pub proof fn law_written_units_are_read(r: Seq<u8>, at: int, units: Seq<u16>)
    requires
        holds(r, at, unit_bytes(units)),
    ensures
        le16s(r, at, units.len()) == units,
{
    let b = unit_bytes(units);
    assert forall|i: int| 0 <= i < units.len() implies le16s(r, at, units.len())[i] == #[trigger] units[i] by {
        assert(b[2 * i] == (units[i] % 0x100) as u8);
        assert(b[2 * i + 1] == (units[i] / 0x100) as u8);
        assert(r[at + 2 * i] == b[2 * i]);
        assert(r[at + (2 * i + 1)] == b[2 * i + 1]);
    }
    assert(le16s(r, at, units.len()) =~= units);
}

} // verus!
