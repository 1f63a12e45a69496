//! Hashes of content, by BLAKE3.
use vstd::prelude::*;

use crate::bytes::read_u64;

verus! {

use crate::bytes::le64;

/// `blake3::Hasher`, a hash in the making.
#[verifier::external_type_specification]
#[verifier::external_body]
pub struct ExHasher(blake3::Hasher);

/// The hash that `blake3::hash` gives of some content.
pub uninterp spec fn blake3_digest(content: Seq<u8>) -> Seq<u8>;

/// The bytes that a hasher has been given.
pub uninterp spec fn hasher_input(h: blake3::Hasher) -> Seq<u8>;

/// Whether a hasher makes ordinary hashes from the start of the content: it has no key, and no
/// place further on was set for its input.
pub uninterp spec fn hasher_is_plain(h: blake3::Hasher) -> bool;

/// `blake3::hash`: 32 bytes that depend on the content alone. Which bytes they are is the
/// algorithm's matter and not stated.
#[verifier::external_body]
fn hash_bytes(content: &[u8]) -> (r: Vec<u8>)
    ensures
        r@ == blake3_digest(content@),
        r@.len() == 32,
{
    blake3::hash(content).as_bytes().to_vec()
}

/// `blake3::Hasher::new`: a hasher for the ordinary hash that has been given nothing.
#[verifier::external_body]
fn new_hasher() -> (h: blake3::Hasher)
    ensures
        hasher_is_plain(h),
        hasher_input(h) == Seq::<u8>::empty(),
{
    blake3::Hasher::new()
}

/// `blake3::Hasher::update`: the bytes are added behind those given before. The total must fit in
/// 64 bits.
#[verifier::external_body]
fn feed(h: &mut blake3::Hasher, bytes: &[u8])
    requires
        hasher_is_plain(*old(h)),
        hasher_input(*old(h)).len() + bytes@.len() <= u64::MAX,
    ensures
        hasher_is_plain(*final(h)),
        hasher_input(*final(h)) == hasher_input(*old(h)) + bytes@,
{
    h.update(bytes);
}

/// `blake3::Hasher::finalize`: the hash of all the bytes given, the same that `blake3::hash` gives
/// of them at once.
#[verifier::external_body]
fn finish(h: &blake3::Hasher) -> (r: Vec<u8>)
    requires
        hasher_is_plain(*h),
    ensures
        r@ == blake3_digest(hasher_input(*h)),
        r@.len() == 32,
{
    h.finalize().as_bytes().to_vec()
}

/// The digit `d` in lower-case hexadecimal.
pub open spec fn hex_digit(d: nat) -> char {
    if d < 10 {
        (('0' as nat) + d) as char
    } else {
        (('a' as nat) + d - 10) as char
    }
}

/// Bytes in lower-case hexadecimal, two digits each.
pub open spec fn hex_of(bytes: Seq<u8>) -> Seq<char>
    decreases bytes.len(),
{
    if bytes.len() == 0 {
        Seq::empty()
    } else {
        let b = bytes.last() as nat;
        hex_of(bytes.drop_last()).push(hex_digit(b / 16)).push(hex_digit(b % 16))
    }
}

fn hex_char(d: u8) -> (r: char)
    requires
        d < 16,
    ensures
        r == hex_digit(d as nat),
{
    if d < 10 {
        (48u8 + d) as char
    } else {
        (97u8 + (d - 10)) as char
    }
}

/// Bytes in lower-case hexadecimal, two digits each.
pub fn hex_text(bytes: &Vec<u8>) -> (r: String)
    ensures
        r@ == hex_of(bytes@),
{
    let mut out = String::new();
    let mut i: usize = 0;
    while i < bytes.len()
        invariant
            i <= bytes@.len(),
            out@ =~= hex_of(bytes@.take(i as int)),
        decreases bytes@.len() - i,
    {
        assert(bytes@.take(i + 1).drop_last() =~= bytes@.take(i as int));
        let b: u8 = bytes[i];
        out.push(hex_char(b / 16));
        out.push(hex_char(b % 16));
        i = i + 1;
    }
    assert(bytes@.take(i as int) =~= bytes@);
    out
}

/// How many bytes at the start of a file are looked at first.
pub const WINDOW_BYTES: u64 = 65536;

/// The number that files with the given start are first told apart by: the first eight bytes of
/// the start's hash.
pub open spec fn window_key(start: Seq<u8>) -> u64 {
    le64(blake3_digest(start), 0)
}

/// How much of a file of the given size is looked at first.
pub fn window_len(size: u64) -> (r: u64)
    ensures
        r == if size <= 64 * 1024 {
            size
        } else {
            65_536
        },
{
    if size <= WINDOW_BYTES {
        size
    } else {
        WINDOW_BYTES
    }
}

/// What a file is first told apart by, of whose first `len` bytes `start` was read; `None` if it
/// could not be read. Where nothing is to be looked at, it need not be read.
pub fn hash_window(len: u64, start: Option<&[u8]>) -> (r: Option<u64>)
    ensures
        r == if len == 0 {
            Some(0u64)
        } else {
            match start {
                Some(s) => Some(window_key(s@)),
                None => None,
            }
        },
{
    if len == 0 {
        return Some(0);
    }
    match start {
        Some(s) => {
            let d = hash_bytes(s);
            Some(read_u64(d.as_slice(), 0))
        },
        None => None,
    }
}

/// The hash of a whole file in the making, part by part.
pub struct ContentHash {
    hasher: blake3::Hasher,
    len: u64,
}

impl ContentHash {
    pub closed spec fn well_formed(&self) -> bool {
        hasher_is_plain(self.hasher) && hasher_input(self.hasher).len() == self.len
    }

    /// The content so far.
    pub closed spec fn content(&self) -> Seq<u8> {
        hasher_input(self.hasher)
    }

    pub fn new() -> (h: Self)
        ensures
            h.well_formed(),
            h.content() == Seq::<u8>::empty(),
    {
        ContentHash { hasher: new_hasher(), len: 0 }
    }

    /// Takes in the next part. What would make the content longer than any file can be is left
    /// out, and the result says so.
    pub fn update(&mut self, part: &[u8]) -> (taken: bool)
        requires
            old(self).well_formed(),
        ensures
            final(self).well_formed(),
            taken == (old(self).content().len() + part@.len() <= u64::MAX),
            final(self).content() == if taken {
                old(self).content() + part@
            } else {
                old(self).content()
            },
    {
        let n: u64 = part.len() as u64;
        if n > u64::MAX - self.len {
            return false;
        }
        feed(&mut self.hasher, part);
        self.len = self.len + n;
        true
    }

    /// The hash of the content so far, in lower-case hexadecimal.
    pub fn to_hex(&self) -> (r: String)
        requires
            self.well_formed(),
        ensures
            r@ == hex_of(blake3_digest(self.content())),
    {
        let d = finish(&self.hasher);
        hex_text(&d)
    }
}

/// How the hashing of a file stands.
pub enum Hashing {
    /// There may be more to read.
    More,
    /// The file was read to its end, and this is its hash.
    Known(String),
    /// The file could not be read.
    Unreadable,
}

/// Goes on with the hash of a whole file after one more attempt to read from it: `part` is what
/// was read, nothing at the end of the file, or `None` if it could not be read.
pub fn hash_full_blake3(h: &mut ContentHash, part: Option<&[u8]>) -> (r: Hashing)
    requires
        old(h).well_formed(),
    ensures
        final(h).well_formed(),
        match part {
            None => r is Unreadable && final(h).content() == old(h).content(),
            Some(p) => if p@.len() == 0 {
                &&& r is Known
                &&& r->Known_0@ == hex_of(blake3_digest(old(h).content()))
                &&& final(h).content() == old(h).content()
            } else if old(h).content().len() + p@.len() <= u64::MAX {
                r is More && final(h).content() == old(h).content() + p@
            } else {
                r is Unreadable && final(h).content() == old(h).content()
            },
        },
{
    match part {
        None => Hashing::Unreadable,
        Some(p) => {
            if p.len() == 0 {
                Hashing::Known(h.to_hex())
            } else if h.update(p) {
                Hashing::More
            } else {
                Hashing::Unreadable
            }
        },
    }
}

/// The number that a digit of lower-case hexadecimal stands for.
pub open spec fn read_hex_digit(c: char) -> nat {
    if '0' <= c <= '9' {
        (c as nat - '0' as nat) as nat
    } else {
        (c as nat - 'a' as nat + 10) as nat
    }
}

/// Bytes in hexadecimal can be read back: two digits stand for each byte, in their order.
pub proof fn law_hex_text_reads_back(bytes: Seq<u8>)
    ensures
        hex_of(bytes).len() == 2 * bytes.len(),
        forall|i: int|
            0 <= i < bytes.len() ==> #[trigger] bytes[i] == 16 * read_hex_digit(hex_of(bytes)[2 * i]) + read_hex_digit(
                hex_of(bytes)[2 * i + 1],
            ),
        forall|i: int|
            0 <= i < hex_of(bytes).len() ==> '0' <= #[trigger] hex_of(bytes)[i] <= '9' || 'a' <= hex_of(bytes)[i] <= 'f',
    decreases bytes.len(),
{
    if bytes.len() > 0 {
        let front = bytes.drop_last();
        law_hex_text_reads_back(front);
        let before = hex_of(front);
        let now = hex_of(bytes);
        assert forall|i: int| 0 <= i < bytes.len() implies #[trigger] bytes[i] == 16 * read_hex_digit(now[2 * i])
            + read_hex_digit(now[2 * i + 1]) by {
            if i < front.len() {
                assert(front[i] == bytes[i]);
                assert(now[2 * i] == before[2 * i] && now[2 * i + 1] == before[2 * i + 1]);
            }
        }
        assert forall|i: int| 0 <= i < now.len() implies '0' <= #[trigger] now[i] <= '9' || 'a' <= now[i] <= 'f' by {
            if i < before.len() {
                assert(now[i] == before[i]);
            }
        }
    }
}

} // verus!
