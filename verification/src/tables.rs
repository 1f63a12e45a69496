//! Tables that number what they are given: the first that is new gets 0, the next one 1, and so on.
use vstd::prelude::*;
use std::collections::HashMap;

use crate::text::{chars_of, same_text};

verus! {

broadcast use vstd::std_specs::hash::group_hash_axioms;

/// Where `x` stands in `s`, or its length.
pub open spec fn place_of<T>(s: Seq<T>, x: T) -> int {
    if s.contains(x) {
        s.index_of(x)
    } else {
        s.len() as int
    }
}

/// `s` with `x` behind it, unless `x` is in it.
pub open spec fn with_item<T>(s: Seq<T>, x: T) -> Seq<T> {
    if s.contains(x) {
        s
    } else {
        s.push(x)
    }
}

// ---------------------------------------------------------------------------------------------
// Pairs of numbers
// ---------------------------------------------------------------------------------------------

spec fn code(p: (u64, u64)) -> nat {
    p.0 as nat * 0x1_0000_0000_0000_0000 + p.1 as nat
}

/// A table of pairs.
pub struct PairTable {
    map: HashMap<u128, usize>,
    keys: Vec<(u64, u64)>,
}

impl PairTable {
    /// The pairs, in the order of their numbers.
    pub closed spec fn listed(&self) -> Seq<(u64, u64)> {
        self.keys@
    }

    pub closed spec fn well_formed(&self) -> bool {
        &&& self.keys@.no_duplicates()
        &&& forall|i: int|
            0 <= i < self.keys@.len() ==> self.map@.dom().contains(code(#[trigger] self.keys@[i]) as u128)
                && self.map@[code(self.keys@[i]) as u128] == i
        &&& forall|c: u128| #[trigger]
            self.map@.dom().contains(c) ==> self.map@[c] < self.keys@.len() && code(
                self.keys@[self.map@[c] as int],
            ) == c
    }

    pub fn new() -> (t: Self)
        ensures
            t.well_formed(),
            t.listed() == Seq::<(u64, u64)>::empty(),
    {
        PairTable { map: HashMap::new(), keys: Vec::new() }
    }

    /// The pair with a number.
    pub fn pair(&self, id: usize) -> (p: (u64, u64))
        requires
            id < self.listed().len(),
        ensures
            p == self.listed()[id as int],
    {
        self.keys[id]
    }

    /// How many pairs there are.
    pub fn len(&self) -> (n: usize)
        ensures
            n == self.listed().len(),
    {
        self.keys.len()
    }

    /// The number of a pair, which is put into the table if it is new.
    pub fn id_of(&mut self, a: u64, b: u64) -> (id: usize)
        requires
            old(self).well_formed(),
        ensures
            final(self).well_formed(),
            final(self).listed() == with_item(old(self).listed(), (a, b)),
            id == place_of(old(self).listed(), (a, b)),
            old(self).listed().no_duplicates(),
    {
        let c: u128 = a as u128 * 0x1_0000_0000_0000_0000 + b as u128;
        let ghost before = self.keys@;
        assert(c == code((a, b)));
        match self.map.get(&c) {
            Some(id) => {
                proof {
                    assert(self.keys@[*id as int] == (a, b));
                    assert(self.keys@.contains((a, b)));
                }
                *id
            },
            None => {
                let id: usize = self.keys.len();
                proof {
                    if before.contains((a, b)) {
                        let i = choose|i: int| 0 <= i < before.len() && before[i] == (a, b);
                        assert(self.map@.dom().contains(code(before[i]) as u128));
                    }
                }
                self.keys.push((a, b));
                self.map.insert(c, id);
                proof {
                    assert forall|i: int| 0 <= i < self.keys@.len() implies self.map@.dom().contains(
                        code(#[trigger] self.keys@[i]) as u128,
                    ) && self.map@[code(self.keys@[i]) as u128] == i by {
                        if i < before.len() {
                            assert(self.keys@[i] == before[i]);
                            assert(before[i] != (a, b));
                            assert(code(before[i]) != code((a, b)));
                        }
                    }
                }
                id
            },
        }
    }
}

// ---------------------------------------------------------------------------------------------
// Texts, each with a number
// ---------------------------------------------------------------------------------------------

/// A number that is the same for the same text.
spec fn mixed(s: Seq<char>) -> nat
    decreases s.len(),
{
    if s.len() == 0 {
        0
    } else {
        (mixed(s.drop_last()) * 131 + s.last() as nat) % 0x1FFF_FFFF_FFFF_FFFF
    }
}

fn code_point(c: char) -> (r: u32)
    ensures
        r == c as nat,
{
    c as u32
}

fn mix(s: &str) -> (r: u64)
    ensures
        r == mixed(s@),
{
    let v = chars_of(s);
    let mut r: u128 = 0;
    let mut i: usize = 0;
    while i < v.len()
        invariant
            i <= v@.len(),
            r == mixed(v@.take(i as int)),
            r < 0x1FFF_FFFF_FFFF_FFFF,
        decreases v@.len() - i,
    {
        assert(v@.take(i + 1).drop_last() =~= v@.take(i as int));
        assert(v@.take(i + 1).last() == v@[i as int]);
        r = (r * 131 + code_point(v[i]) as u128) % 0x1FFF_FFFF_FFFF_FFFF;
        i = i + 1;
    }
    assert(v@.take(i as int) =~= v@);
    r as u64
}

/// A table of texts that each stand with a number.
pub struct TextTable {
    /// The numbers of the texts that are mixed to the same number.
    map: HashMap<u64, Vec<usize>>,
    keys: Vec<(u64, String)>,
}

impl TextTable {
    /// What the table holds, in order.
    pub closed spec fn listed(&self) -> Seq<(u64, Seq<char>)> {
        Seq::new(self.keys@.len(), |i: int| (self.keys@[i].0, self.keys@[i].1@))
    }

    pub closed spec fn well_formed(&self) -> bool {
        &&& self.listed().no_duplicates()
        &&& forall|i: int|
            0 <= i < self.keys@.len() ==> self.map@.dom().contains(mixed((#[trigger] self.keys@[i]).1@) as u64)
                && self.map@[mixed(self.keys@[i].1@) as u64]@.contains(i as usize)
        &&& forall|c: u64, k: int|
            self.map@.dom().contains(c) && 0 <= k < self.map@[c]@.len() ==> #[trigger] self.map@[c]@[k]
                < self.keys@.len()
    }

    pub fn new() -> (t: Self)
        ensures
            t.well_formed(),
            t.listed() == Seq::<(u64, Seq<char>)>::empty(),
    {
        let t = TextTable { map: HashMap::new(), keys: Vec::new() };
        assert(t.listed() =~= Seq::<(u64, Seq<char>)>::empty());
        t
    }

    /// The entry at a place.
    pub fn entry(&self, id: usize) -> (e: (u64, &String))
        requires
            id < self.listed().len(),
        ensures
            (e.0, e.1@) == self.listed()[id as int],
    {
        (self.keys[id].0, &self.keys[id].1)
    }

    /// How many entries there are.
    pub fn len(&self) -> (n: usize)
        ensures
            n == self.listed().len(),
    {
        self.keys.len()
    }

    /// The place of a text with its number, which is put into the table if it is new.
    pub fn id_of(&mut self, n: u64, s: &str) -> (id: usize)
        requires
            old(self).well_formed(),
        ensures
            final(self).well_formed(),
            final(self).listed() == with_item(old(self).listed(), (n, s@)),
            id == place_of(old(self).listed(), (n, s@)),
            old(self).listed().no_duplicates(),
    {
        let c: u64 = mix(s);
        let ghost before = self.listed();
        if let Some(bucket) = self.map.get(&c) {
            let mut k: usize = 0;
            while k < bucket.len()
                invariant
                    k <= bucket@.len(),
                    self.map@.dom().contains(c) && self.map@[c] == *bucket,
                    self.well_formed(),
                    before == self.listed(),
                    before == old(self).listed(),
                    *self == *old(self),
                    forall|j: int| 0 <= j < k ==> before[#[trigger] bucket@[j] as int] != (n, s@),
                decreases bucket@.len() - k,
            {
                let id: usize = bucket[k];
                if self.keys[id].0 == n && same_text(self.keys[id].1.as_str(), s) {
                    proof {
                        assert(before[id as int] == (n, s@));
                        assert(before.contains((n, s@)));
                    }
                    return id;
                }
                k = k + 1;
            }
        }
        let id: usize = self.keys.len();
        proof {
            if before.contains((n, s@)) {
                let i = choose|i: int| 0 <= i < before.len() && before[i] == (n, s@);
                assert(self.keys@[i].1@ == s@);
                let b = self.map@[c]@;
                assert(b.contains(i as usize));
                let j = choose|j: int| 0 <= j < b.len() && b[j] == i as usize;
                assert(before[b[j] as int] == (n, s@));
            }
        }
        let ghost map0 = self.map@;
        let ghost keys0 = self.keys@;
        self.keys.push((n, s.to_owned()));
        let bucket = self.map.entry(c).or_insert(Vec::new());
        let ghost b0 = bucket@;
        bucket.push(id);
        proof {
            assert(self.map@.dom() =~= map0.dom().insert(c));
            assert(self.map@[c]@ == b0.push(id));
            assert(map0.dom().contains(c) ==> b0 == map0[c]@);
            assert(!map0.dom().contains(c) ==> b0 == Seq::<usize>::empty());
            assert forall|d: u64| d != c && map0.dom().contains(d) implies self.map@[d] == map0[d] by {}
            assert(self.listed() =~= before.push((n, s@)));
            assert forall|i: int| 0 <= i < self.keys@.len() implies self.map@.dom().contains(
                mixed((#[trigger] self.keys@[i]).1@) as u64,
            ) && self.map@[mixed(self.keys@[i].1@) as u64]@.contains(i as usize) by {
                if i < keys0.len() {
                    assert(self.keys@[i] == keys0[i]);
                    let d = mixed(keys0[i].1@) as u64;
                    assert(map0[d]@.contains(i as usize));
                    if d == c {
                        let j = choose|j: int| 0 <= j < b0.len() && b0[j] == i as usize;
                        assert(b0.push(id)[j] == i as usize);
                    }
                } else {
                    assert(b0.push(id)[b0.len() as int] == id);
                }
            }
            assert forall|d: u64, k: int|
                self.map@.dom().contains(d) && 0 <= k < self.map@[d]@.len() implies #[trigger] self.map@[d]@[k]
                < self.keys@.len() by {
                if d == c && k < b0.len() {
                    assert(map0[c]@[k] < keys0.len());
                } else if d != c {
                    assert(map0[d]@[k] < keys0.len());
                }
            }
        }
        id
    }
}

// ---------------------------------------------------------------------------------------------
// Grouping
// ---------------------------------------------------------------------------------------------

/// What occurs in `keys`, in the order in which it first does.
pub open spec fn distinct<K>(keys: Seq<Option<K>>) -> Seq<K>
    decreases keys.len(),
{
    if keys.len() == 0 {
        Seq::empty()
    } else {
        match keys.last() {
            Some(k) => with_item(distinct(keys.drop_last()), k),
            None => distinct(keys.drop_last()),
        }
    }
}

/// Where `k` stands in `keys`, from the front on.
pub open spec fn places<K>(keys: Seq<Option<K>>, k: K) -> Seq<usize>
    decreases keys.len(),
{
    if keys.len() == 0 {
        Seq::empty()
    } else {
        let before = places(keys.drop_last(), k);
        if keys.last() == Some(k) {
            before.push((keys.len() - 1) as usize)
        } else {
            before
        }
    }
}

/// Whether `ids` gives, for each of `keys`, where it stands in `list`, which is what occurs in
/// `keys`.
pub open spec fn numbered<K>(keys: Seq<Option<K>>, ids: Seq<Option<usize>>, list: Seq<K>) -> bool {
    &&& keys.len() == ids.len()
    &&& list == distinct(keys)
    &&& list.no_duplicates()
    &&& forall|i: int|
        0 <= i < keys.len() ==> match #[trigger] keys[i] {
            Some(k) => ids[i] is Some && ids[i]->0 < list.len() && list[ids[i]->0 as int] == k,
            None => ids[i] is None,
        }
}

/// One more key.
pub proof fn lemma_numbered_more<K>(keys: Seq<Option<K>>, ids: Seq<Option<usize>>, list: Seq<K>, k: K, id: usize)
    requires
        numbered(keys, ids, list),
        id == place_of(list, k),
    ensures
        numbered(keys.push(Some(k)), ids.push(Some(id)), with_item(list, k)),
{
    assert(keys.push(Some(k)).drop_last() =~= keys);
    let more = with_item(list, k);
    assert(id < more.len() && more[id as int] == k);
    assert forall|i: int| 0 <= i < keys.push(Some(k)).len() implies match #[trigger] keys.push(Some(k))[i] {
        Some(x) => ids.push(Some(id))[i] is Some && ids.push(Some(id))[i]->0 < more.len() && more[ids.push(
            Some(id),
        )[i]->0 as int] == x,
        None => ids.push(Some(id))[i] is None,
    } by {
        if i < keys.len() {
            assert(keys.push(Some(k))[i] == keys[i]);
        }
    }
}

/// One more place without a key.
pub proof fn lemma_numbered_skip<K>(keys: Seq<Option<K>>, ids: Seq<Option<usize>>, list: Seq<K>)
    requires
        numbered(keys, ids, list),
    ensures
        numbered(keys.push(None), ids.push(None), list),
{
    assert(keys.push(None).drop_last() =~= keys);
    assert forall|i: int| 0 <= i < keys.push(None).len() implies match #[trigger] keys.push(None::<K>)[i] {
        Some(x) => ids.push(None)[i] is Some && ids.push(None)[i]->0 < list.len() && list[ids.push(None)[i]->0 as int]
            == x,
        None => ids.push(None)[i] is None,
    } by {
        if i < keys.len() {
            assert(keys.push(None)[i] == keys[i]);
        }
    }
}

/// Every number that is given is one of the list's.
pub proof fn lemma_numbers_fit<K>(keys: Seq<Option<K>>, ids: Seq<Option<usize>>, list: Seq<K>)
    requires
        numbered(keys, ids, list),
    ensures
        forall|i: int| 0 <= i < ids.len() && (#[trigger] ids[i]) is Some ==> ids[i]->0 < list.len(),
{
    assert forall|i: int| 0 <= i < ids.len() && (#[trigger] ids[i]) is Some implies ids[i]->0 < list.len() by {
        let k = keys[i];
    }
}

/// The places of a number are the places of the key that it stands for.
pub proof fn lemma_places_numbered<K>(keys: Seq<Option<K>>, ids: Seq<Option<usize>>, list: Seq<K>, id: usize, n: int)
    requires
        numbered(keys, ids, list),
        id < list.len(),
        0 <= n <= keys.len(),
    ensures
        places(ids.take(n), id) == places(keys.take(n), list[id as int]),
    decreases n,
{
    if n > 0 {
        lemma_places_numbered(keys, ids, list, id, n - 1);
        assert(ids.take(n).drop_last() =~= ids.take(n - 1));
        assert(keys.take(n).drop_last() =~= keys.take(n - 1));
        let k = keys[n - 1];
        assert(keys.take(n).last() == k && ids.take(n).last() == ids[n - 1]);
        if k is Some && k->0 == list[id as int] {
            assert(ids[n - 1]->0 == id);
        }
    }
}

/// The places of each number below `count`.
pub fn gather(ids: &Vec<Option<usize>>, count: usize) -> (r: Vec<Vec<usize>>)
    requires
        forall|i: int| 0 <= i < ids@.len() && (#[trigger] ids@[i]) is Some ==> ids@[i]->0 < count,
    ensures
        r@.len() == count,
        forall|g: int| 0 <= g < count ==> (#[trigger] r@[g])@ == places(ids@, g as usize),
{
    let mut out: Vec<Vec<usize>> = Vec::new();
    let mut g: usize = 0;
    while g < count
        invariant
            g <= count,
            out@.len() == g,
            forall|k: int| 0 <= k < g ==> (#[trigger] out@[k])@ == Seq::<usize>::empty(),
        decreases count - g,
    {
        out.push(Vec::new());
        g = g + 1;
    }
    let mut i: usize = 0;
    while i < ids.len()
        invariant
            i <= ids@.len(),
            out@.len() == count,
            forall|k: int| 0 <= k < ids@.len() && (#[trigger] ids@[k]) is Some ==> ids@[k]->0 < count,
            forall|k: int| 0 <= k < count ==> (#[trigger] out@[k])@ == places(ids@.take(i as int), k as usize),
        decreases ids@.len() - i,
    {
        assert(ids@.take(i + 1).drop_last() =~= ids@.take(i as int));
        let ghost before = out@;
        match ids[i] {
            Some(id) => {
                out[id].push(i);
                assert(out@ =~= before.update(id as int, out@[id as int]));
                assert(out@[id as int]@ == before[id as int]@.push(i));
            },
            None => {},
        }
        proof {
            assert forall|k: int| 0 <= k < count implies (#[trigger] out@[k])@ == places(
                ids@.take(i + 1),
                k as usize,
            ) by {
                assert(before[k]@ == places(ids@.take(i as int), k as usize));
            }
        }
        i = i + 1;
    }
    assert(ids@.take(i as int) =~= ids@);
    out
}

/// A place is listed exactly if the key stands there, and the places go up.
pub proof fn lemma_places<K>(keys: Seq<Option<K>>, k: K)
    requires
        keys.len() <= usize::MAX,
    ensures
        forall|j: int|
            0 <= j < places(keys, k).len() ==> (#[trigger] places(keys, k)[j]) < keys.len() && keys[places(
                keys,
                k,
            )[j] as int] == Some(k),
        forall|i: int| 0 <= i < keys.len() && #[trigger] keys[i] == Some(k) ==> places(keys, k).contains(i as usize),
        forall|a: int, b: int|
            0 <= a < b < places(keys, k).len() ==> #[trigger] places(keys, k)[a] < #[trigger] places(keys, k)[b],
    decreases keys.len(),
{
    if keys.len() > 0 {
        let prev = keys.drop_last();
        lemma_places(prev, k);
        let before = places(prev, k);
        let now = places(keys, k);
        assert forall|i: int| 0 <= i < keys.len() && #[trigger] keys[i] == Some(k) implies now.contains(i as usize) by {
            if i < prev.len() {
                assert(prev[i] == Some(k));
                assert(before.contains(i as usize));
                let j = choose|j: int| 0 <= j < before.len() && before[j] == i as usize;
                assert(now[j] == i as usize);
            } else {
                assert(now[before.len() as int] == i as usize);
            }
        }
        assert forall|j: int| 0 <= j < now.len() implies (#[trigger] now[j]) < keys.len() && keys[now[j] as int] == Some(
            k,
        ) by {
            if j < before.len() {
                assert(now[j] == before[j]);
                assert(prev[before[j] as int] == Some(k));
            }
        }
        assert forall|a: int, b: int| 0 <= a < b < now.len() implies #[trigger] now[a] < #[trigger] now[b] by {
            assert(now[a] == before[a]);
            if b < before.len() {
                assert(now[b] == before[b]);
            }
        }
    }
}

/// Everything that occurs is listed once, and nothing else is.
pub proof fn lemma_distinct<K>(keys: Seq<Option<K>>)
    ensures
        distinct(keys).no_duplicates(),
        forall|i: int| 0 <= i < keys.len() && (#[trigger] keys[i]) is Some ==> distinct(keys).contains(keys[i]->0),
        forall|g: int| 0 <= g < distinct(keys).len() ==> keys.contains(Some(#[trigger] distinct(keys)[g])),
    decreases keys.len(),
{
    if keys.len() > 0 {
        let prev = keys.drop_last();
        lemma_distinct(prev);
        let before = distinct(prev);
        let now = distinct(keys);
        assert forall|g: int| 0 <= g < before.len() implies now[g] == #[trigger] before[g] by {}
        assert forall|i: int| 0 <= i < keys.len() && (#[trigger] keys[i]) is Some implies now.contains(keys[i]->0) by {
            if i < prev.len() {
                assert(prev[i] == keys[i]);
                let g = choose|g: int| 0 <= g < before.len() && before[g] == keys[i]->0;
                assert(now[g] == keys[i]->0);
            } else if !before.contains(keys[i]->0) {
                assert(now[before.len() as int] == keys[i]->0);
            }
        }
        assert forall|g: int| 0 <= g < now.len() implies keys.contains(Some(#[trigger] now[g])) by {
            if g < before.len() {
                assert(prev.contains(Some(before[g])));
                let i = choose|i: int| 0 <= i < prev.len() && prev[i] == Some(before[g]);
                assert(keys[i] == Some(now[g]));
            } else {
                assert(keys[keys.len() - 1] == Some(now[g]));
            }
        }
    }
}

} // verus!
