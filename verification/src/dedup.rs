//! Files with the same content: of the files that have the same size, those are told apart whose
//! starts differ, and of the rest those whose whole content does.
use vstd::prelude::*;

use crate::tables::{gather, PairTable, TextTable};

verus! {

use crate::digest::{blake3_digest, hex_of, window_key, WINDOW_BYTES};
use crate::tables::{
    distinct,
    lemma_distinct,
    lemma_numbers_fit,
    lemma_numbered_more,
    lemma_numbered_skip,
    lemma_places,
    lemma_places_numbered,
    numbered,
    places,
};

/// Which hashes are being made.
#[derive(Debug, Clone, Copy, PartialEq, Eq, Structural)]
pub enum HashPhase {
    /// Those of the starts of files.
    Prefilter,
    /// Those of whole files.
    Confirm,
}

/// Files that have the same size and the same hash.
pub struct DuplicateGroup {
    pub size: u64,
    /// The hash of the whole content, in lower-case hexadecimal.
    pub hash_hex: String,
    /// The files, by their numbers.
    pub file_indices: Vec<usize>,
}

/// A file to be hashed: its number and its size.
pub type HashJob = (usize, u64);

// ---------------------------------------------------------------------------------------------
// The starts of files
// ---------------------------------------------------------------------------------------------

/// The files of some groups, each group given by its size and the numbers of its files.
pub open spec fn files_in(groups: Seq<(u64, Vec<usize>)>) -> Seq<HashJob>
    decreases groups.len(),
{
    if groups.len() == 0 {
        Seq::empty()
    } else {
        let g = groups.last();
        files_in(groups.drop_last()) + Seq::new(g.1@.len(), |k: int| (g.1@[k], g.0))
    }
}

/// The files whose starts are to be hashed: all of those in the groups, one group after the other.
pub fn header_jobs(groups: &Vec<(u64, Vec<usize>)>) -> (r: Vec<HashJob>)
    ensures
        r@ == files_in(groups@),
{
    let mut out: Vec<HashJob> = Vec::new();
    let mut i: usize = 0;
    while i < groups.len()
        invariant
            i <= groups@.len(),
            out@ =~= files_in(groups@.take(i as int)),
        decreases groups@.len() - i,
    {
        assert(groups@.take(i + 1).drop_last() =~= groups@.take(i as int));
        let ghost before = out@;
        let size: u64 = groups[i].0;
        let list = &groups[i].1;
        let mut k: usize = 0;
        while k < list.len()
            invariant
                k <= list@.len(),
                out@ =~= before + Seq::new(k as nat, |j: int| (list@[j], size)),
            decreases list@.len() - k,
        {
            out.push((list[k], size));
            k = k + 1;
        }
        i = i + 1;
    }
    assert(groups@.take(i as int) =~= groups@);
    out
}

/// What the files of `jobs` are told apart by at first: their sizes and the hashes of their starts.
/// A file without a hash takes no part.
pub open spec fn header_keys(jobs: Seq<HashJob>, headers: Seq<Option<u64>>) -> Seq<Option<(u64, u64)>> {
    Seq::new(
        jobs.len(),
        |i: int|
            if i < headers.len() && headers[i] is Some {
                Some((jobs[i].1, headers[i]->0))
            } else {
                None
            },
    )
}

/// The jobs at some places.
pub open spec fn jobs_at(jobs: Seq<HashJob>, at: Seq<usize>) -> Seq<HashJob> {
    Seq::new(at.len(), |k: int| jobs[at[k] as int])
}

/// The files that share their key with another one: key by key, for the first `n` keys.
pub open spec fn shared_jobs<K>(jobs: Seq<HashJob>, keys: Seq<Option<K>>, n: int) -> Seq<HashJob>
    decreases n,
{
    if n <= 0 {
        Seq::empty()
    } else {
        let at = places(keys, distinct(keys)[n - 1]);
        shared_jobs(jobs, keys, n - 1) + if at.len() >= 2 {
            jobs_at(jobs, at)
        } else {
            Seq::empty()
        }
    }
}

/// The files to be hashed as a whole, once the starts of `jobs` have the hashes `headers`.
pub open spec fn to_confirm(jobs: Seq<HashJob>, headers: Seq<Option<u64>>) -> Seq<HashJob> {
    let keys = header_keys(jobs, headers);
    shared_jobs(jobs, keys, distinct(keys).len() as int)
}

/// The files to be hashed as a whole: those that have their size and the hash of their start in
/// common with another file. `headers` are the hashes of the starts, in the order of `jobs`.
pub fn confirm_jobs(jobs: &Vec<HashJob>, headers: &Vec<Option<u64>>) -> (r: Vec<HashJob>)
    ensures
        r@ == to_confirm(jobs@, headers@),
{
    let ghost keys = header_keys(jobs@, headers@);
    let mut table = PairTable::new();
    let mut ids: Vec<Option<usize>> = Vec::new();
    let mut i: usize = 0;
    assert(keys.take(0) =~= Seq::empty());
    while i < jobs.len()
        invariant
            i <= jobs@.len(),
            keys == header_keys(jobs@, headers@),
            table.well_formed(),
            numbered(keys.take(i as int), ids@, table.listed()),
        decreases jobs@.len() - i,
    {
        let header: Option<u64> = if i < headers.len() {
            headers[i]
        } else {
            None
        };
        let ghost list = table.listed();
        match header {
            Some(h) => {
                let id: usize = table.id_of(jobs[i].1, h);
                proof {
                    lemma_numbered_more(keys.take(i as int), ids@, list, (jobs@[i as int].1, h), id);
                    assert(keys.take(i as int).push(Some((jobs@[i as int].1, h))) =~= keys.take(i + 1));
                }
                ids.push(Some(id));
            },
            None => {
                proof {
                    lemma_numbered_skip(keys.take(i as int), ids@, list);
                    assert(keys.take(i as int).push(None) =~= keys.take(i + 1));
                }
                ids.push(None);
            },
        }
        i = i + 1;
    }
    assert(keys.take(i as int) =~= keys);
    proof {
        lemma_numbers_fit(keys, ids@, table.listed());
    }
    let groups = gather(&ids, table.len());
    let mut out: Vec<HashJob> = Vec::new();
    let mut g: usize = 0;
    while g < groups.len()
        invariant
            g <= groups@.len(),
            keys == header_keys(jobs@, headers@),
            numbered(keys, ids@, table.listed()),
            groups@.len() == table.listed().len(),
            forall|k: int| 0 <= k < groups@.len() ==> (#[trigger] groups@[k])@ == places(ids@, k as usize),
            out@ =~= shared_jobs(jobs@, keys, g as int),
        decreases groups@.len() - g,
    {
        let at = &groups[g];
        proof {
            lemma_places_numbered(keys, ids@, table.listed(), g, keys.len() as int);
            assert(keys.take(keys.len() as int) =~= keys);
            assert(ids@.take(keys.len() as int) =~= ids@);
            assert(at@ == places(keys, distinct(keys)[g as int]));
        }
        if at.len() >= 2 {
            push_jobs(&mut out, jobs, at, Ghost(keys), Ghost(distinct(keys)[g as int]));
        }
        g = g + 1;
    }
    out
}

fn push_jobs<K>(out: &mut Vec<HashJob>, jobs: &Vec<HashJob>, at: &Vec<usize>, Ghost(keys): Ghost<Seq<Option<K>>>, Ghost(k): Ghost<K>)
    requires
        at@ == places(keys, k),
        keys.len() == jobs.len(),
    ensures
        final(out)@ == old(out)@ + jobs_at(jobs@, at@),
{
    proof {
        lemma_places(keys, k);
    }
    let mut j: usize = 0;
    while j < at.len()
        invariant
            j <= at@.len(),
            at@ == places(keys, k),
            forall|x: int| 0 <= x < at@.len() ==> (#[trigger] at@[x]) < jobs@.len(),
            out@ =~= old(out)@ + jobs_at(jobs@, at@).take(j as int),
        decreases at@.len() - j,
    {
        out.push(jobs[at[j]]);
        j = j + 1;
    }
    assert(jobs_at(jobs@, at@).take(at@.len() as int) =~= jobs_at(jobs@, at@));
}

// ---------------------------------------------------------------------------------------------
// Whole files
// ---------------------------------------------------------------------------------------------

/// What a [`DuplicateGroup`] says.
pub struct Duplicates {
    pub size: u64,
    pub hash: Seq<char>,
    pub files: Seq<usize>,
}

impl View for DuplicateGroup {
    type V = Duplicates;

    open spec fn view(&self) -> Duplicates {
        Duplicates { size: self.size, hash: self.hash_hex@, files: self.file_indices@ }
    }
}

pub open spec fn groups_of(v: Seq<DuplicateGroup>) -> Seq<Duplicates> {
    v.map_values(|g: DuplicateGroup| g@)
}

/// What the files of `jobs` are told apart by in the end: their sizes and the hashes of their
/// whole content. A file without a hash takes no part.
pub open spec fn full_keys(jobs: Seq<HashJob>, fulls: Seq<Option<String>>) -> Seq<Option<(u64, Seq<char>)>> {
    Seq::new(
        jobs.len(),
        |i: int|
            if i < fulls.len() && fulls[i] is Some {
                Some((jobs[i].1, fulls[i]->0@))
            } else {
                None
            },
    )
}

/// The numbers of the files at some places.
pub open spec fn numbers_at(jobs: Seq<HashJob>, at: Seq<usize>) -> Seq<usize> {
    Seq::new(at.len(), |k: int| jobs[at[k] as int].0)
}

/// The groups of files that share their key, for the first `n` keys.
pub open spec fn shared_groups(jobs: Seq<HashJob>, keys: Seq<Option<(u64, Seq<char>)>>, n: int) -> Seq<Duplicates>
    decreases n,
{
    if n <= 0 {
        Seq::empty()
    } else {
        let key = distinct(keys)[n - 1];
        let at = places(keys, key);
        let before = shared_groups(jobs, keys, n - 1);
        if at.len() >= 2 {
            before.push(Duplicates { size: key.0, hash: key.1, files: numbers_at(jobs, at) })
        } else {
            before
        }
    }
}

/// The groups of files with the same size and content, once the whole files of `jobs` have the
/// hashes `fulls`.
pub open spec fn confirmed(jobs: Seq<HashJob>, fulls: Seq<Option<String>>) -> Seq<Duplicates> {
    let keys = full_keys(jobs, fulls);
    shared_groups(jobs, keys, distinct(keys).len() as int)
}

fn numbers_of(jobs: &Vec<HashJob>, at: &Vec<usize>) -> (r: Vec<usize>)
    requires
        forall|x: int| 0 <= x < at@.len() ==> (#[trigger] at@[x]) < jobs@.len(),
    ensures
        r@ == numbers_at(jobs@, at@),
{
    let mut out: Vec<usize> = Vec::new();
    let mut j: usize = 0;
    while j < at.len()
        invariant
            j <= at@.len(),
            forall|x: int| 0 <= x < at@.len() ==> (#[trigger] at@[x]) < jobs@.len(),
            out@ =~= numbers_at(jobs@, at@).take(j as int),
        decreases at@.len() - j,
    {
        out.push(jobs[at[j]].0);
        j = j + 1;
    }
    assert(numbers_at(jobs@, at@).take(at@.len() as int) =~= numbers_at(jobs@, at@));
    out
}

/// The groups of files that have their size and the hash of their content in common. `fulls` are
/// the hashes of the whole files, in the order of `jobs`.
pub fn confirmed_groups(jobs: &Vec<HashJob>, fulls: &Vec<Option<String>>) -> (r: Vec<DuplicateGroup>)
    ensures
        groups_of(r@) == confirmed(jobs@, fulls@),
{
    let ghost keys = full_keys(jobs@, fulls@);
    let mut table = TextTable::new();
    let mut ids: Vec<Option<usize>> = Vec::new();
    let mut i: usize = 0;
    assert(keys.take(0) =~= Seq::empty());
    while i < jobs.len()
        invariant
            i <= jobs@.len(),
            keys == full_keys(jobs@, fulls@),
            table.well_formed(),
            numbered(keys.take(i as int), ids@, table.listed()),
        decreases jobs@.len() - i,
    {
        let ghost list = table.listed();
        let full: Option<&String> = if i < fulls.len() {
            match &fulls[i] {
                Some(s) => Some(s),
                None => None,
            }
        } else {
            None
        };
        match full {
            Some(s) => {
                let id: usize = table.id_of(jobs[i].1, s.as_str());
                proof {
                    lemma_numbered_more(keys.take(i as int), ids@, list, (jobs@[i as int].1, s@), id);
                    assert(keys.take(i as int).push(Some((jobs@[i as int].1, s@))) =~= keys.take(i + 1));
                }
                ids.push(Some(id));
            },
            None => {
                proof {
                    lemma_numbered_skip(keys.take(i as int), ids@, list);
                    assert(keys.take(i as int).push(None) =~= keys.take(i + 1));
                }
                ids.push(None);
            },
        }
        i = i + 1;
    }
    assert(keys.take(i as int) =~= keys);
    proof {
        lemma_numbers_fit(keys, ids@, table.listed());
    }
    let groups = gather(&ids, table.len());
    let mut out: Vec<DuplicateGroup> = Vec::new();
    let mut g: usize = 0;
    assert(groups_of(out@) =~= Seq::empty());
    while g < groups.len()
        invariant
            g <= groups@.len(),
            keys == full_keys(jobs@, fulls@),
            keys.len() == jobs.len(),
            numbered(keys, ids@, table.listed()),
            groups@.len() == table.listed().len(),
            forall|k: int| 0 <= k < groups@.len() ==> (#[trigger] groups@[k])@ == places(ids@, k as usize),
            groups_of(out@) =~= shared_groups(jobs@, keys, g as int),
        decreases groups@.len() - g,
    {
        let at = &groups[g];
        proof {
            lemma_places_numbered(keys, ids@, table.listed(), g, keys.len() as int);
            assert(keys.take(keys.len() as int) =~= keys);
            assert(ids@.take(keys.len() as int) =~= ids@);
            assert(at@ == places(keys, distinct(keys)[g as int]));
            lemma_places(keys, distinct(keys)[g as int]);
        }
        if at.len() >= 2 {
            let (size, hash) = table.entry(g);
            let group = DuplicateGroup { size, hash_hex: hash.clone(), file_indices: numbers_of(jobs, at) };
            let ghost before = out@;
            out.push(group);
            assert(groups_of(out@) =~= groups_of(before).push(group@));
        }
        g = g + 1;
    }
    out
}

/// The groups of files with the same content. `groups` are the files that have the same size, by
/// their numbers; `headers` the hashes of their starts in the order of [`header_jobs`]; `fulls` the
/// hashes of those files in the order of [`confirm_jobs`]. A file that could not be read has none,
/// and is in no group.
pub fn find_duplicates(
    groups: &Vec<(u64, Vec<usize>)>,
    headers: &Vec<Option<u64>>,
    fulls: &Vec<Option<String>>,
) -> (r: Vec<DuplicateGroup>)
    ensures
        groups_of(r@) == confirmed(to_confirm(files_in(groups@), headers@), fulls@),
{
    let jobs = header_jobs(groups);
    let rest = confirm_jobs(&jobs, headers);
    confirmed_groups(&rest, fulls)
}

// ---------------------------------------------------------------------------------------------
// What the groups are
// ---------------------------------------------------------------------------------------------

/// Whether `g` is the group of one of the first `n` keys.
spec fn has_key(jobs: Seq<HashJob>, keys: Seq<Option<(u64, Seq<char>)>>, n: int, g: Duplicates) -> bool {
    exists|k: int| 0 <= k < n && is_group_of(jobs, keys, #[trigger] distinct(keys)[k], g)
}

/// Whether the group of a key is among `gs`.
spec fn has_group(jobs: Seq<HashJob>, keys: Seq<Option<(u64, Seq<char>)>>, key: (u64, Seq<char>), gs: Seq<Duplicates>) -> bool {
    exists|g: int| 0 <= g < gs.len() && is_group_of(jobs, keys, key, #[trigger] gs[g])
}

proof fn lemma_groups_have_keys(jobs: Seq<HashJob>, keys: Seq<Option<(u64, Seq<char>)>>, n: int)
    requires
        0 <= n <= distinct(keys).len(),
    ensures
        forall|g: int|
            0 <= g < shared_groups(jobs, keys, n).len() ==> has_key(
                jobs,
                keys,
                n,
                #[trigger] shared_groups(jobs, keys, n)[g],
            ),
    decreases n,
{
    if n > 0 {
        let list = distinct(keys);
        lemma_groups_have_keys(jobs, keys, n - 1);
        let before = shared_groups(jobs, keys, n - 1);
        let now = shared_groups(jobs, keys, n);
        assert forall|g: int| 0 <= g < now.len() implies has_key(jobs, keys, n, #[trigger] now[g]) by {
            if g < before.len() {
                assert(now[g] == before[g]);
                assert(has_key(jobs, keys, n - 1, before[g]));
                let k = choose|k: int| 0 <= k < n - 1 && is_group_of(jobs, keys, #[trigger] list[k], before[g]);
                assert(is_group_of(jobs, keys, list[k], now[g]));
            } else {
                assert(is_group_of(jobs, keys, list[n - 1], now[g]));
            }
        }
    }
}

proof fn lemma_keys_have_groups(jobs: Seq<HashJob>, keys: Seq<Option<(u64, Seq<char>)>>, n: int, k: int)
    requires
        0 <= k < n <= distinct(keys).len(),
        places(keys, distinct(keys)[k]).len() >= 2,
    ensures
        has_group(jobs, keys, distinct(keys)[k], shared_groups(jobs, keys, n)),
    decreases n,
{
    let list = distinct(keys);
    let before = shared_groups(jobs, keys, n - 1);
    let now = shared_groups(jobs, keys, n);
    if k < n - 1 {
        lemma_keys_have_groups(jobs, keys, n - 1, k);
        let g = choose|g: int| 0 <= g < before.len() && is_group_of(jobs, keys, list[k], #[trigger] before[g]);
        assert(now[g] == before[g]);
    } else {
        assert(is_group_of(jobs, keys, list[k], now[before.len() as int]));
    }
}

proof fn lemma_groups_differ(jobs: Seq<HashJob>, keys: Seq<Option<(u64, Seq<char>)>>, n: int, a: int, b: int)
    requires
        0 <= n <= distinct(keys).len(),
        0 <= a < b < shared_groups(jobs, keys, n).len(),
    ensures
        key_of(shared_groups(jobs, keys, n)[a]) != key_of(shared_groups(jobs, keys, n)[b]),
    decreases n,
{
    let list = distinct(keys);
    let before = shared_groups(jobs, keys, n - 1);
    let now = shared_groups(jobs, keys, n);
    assert(now[a] == before[a]);
    if b < before.len() {
        assert(now[b] == before[b]);
        lemma_groups_differ(jobs, keys, n - 1, a, b);
    } else {
        lemma_distinct(keys);
        lemma_groups_have_keys(jobs, keys, n - 1);
        assert(has_key(jobs, keys, n - 1, before[a]));
        let k = choose|k: int| 0 <= k < n - 1 && is_group_of(jobs, keys, #[trigger] list[k], before[a]);
        assert(key_of(now[b]) == list[n - 1]);
        assert(list[k] != list[n - 1]);
    }
}

/// The size and hash of a group.
pub open spec fn key_of(g: Duplicates) -> (u64, Seq<char>) {
    (g.size, g.hash)
}

/// Whether `g` is the group of all files of `jobs` with the given key, two of them at least.
pub open spec fn is_group_of(jobs: Seq<HashJob>, keys: Seq<Option<(u64, Seq<char>)>>, key: (u64, Seq<char>), g: Duplicates) -> bool {
    &&& key_of(g) == key
    &&& places(keys, key).len() >= 2
    &&& g.files == numbers_at(jobs, places(keys, key))
}

/// What it means that a group holds nothing but duplicates: there are at least two of them, all of
/// its size and with its hash.
pub open spec fn holds_duplicates(jobs: Seq<HashJob>, keys: Seq<Option<(u64, Seq<char>)>>, g: Duplicates) -> bool {
    &&& g.files.len() >= 2
    &&& forall|k: int|
        0 <= k < g.files.len() ==> exists|i: int|
            0 <= i < jobs.len() && jobs[i] == (#[trigger] g.files[k], g.size) && #[trigger] keys[i] == Some(
                key_of(g),
            )
}

/// Whether some group holds both of two files.
pub open spec fn grouped_together(found: Seq<Duplicates>, key: (u64, Seq<char>), a: usize, b: usize) -> bool {
    exists|g: int|
        0 <= g < found.len() && key_of(#[trigger] found[g]) == key && found[g].files.contains(a)
            && found[g].files.contains(b)
}

/// Files are called duplicates exactly if there are two or more that have the same size and the
/// same hash: every group has at least two files, all of the size and with the hash of the group;
/// any two files that share both are in one group; and no two groups share both.
pub proof fn law_groups_are_the_duplicates(jobs: Seq<HashJob>, fulls: Seq<Option<String>>)
    requires
        jobs.len() <= usize::MAX,
    ensures
        forall|g: int|
            0 <= g < confirmed(jobs, fulls).len() ==> holds_duplicates(
                jobs,
                full_keys(jobs, fulls),
                #[trigger] confirmed(jobs, fulls)[g],
            ),
        forall|i: int, j: int|
            0 <= i < jobs.len() && 0 <= j < jobs.len() && i != j && #[trigger] full_keys(jobs, fulls)[i]
                == #[trigger] full_keys(jobs, fulls)[j] && full_keys(jobs, fulls)[i] is Some
                ==> grouped_together(
                confirmed(jobs, fulls),
                full_keys(jobs, fulls)[i]->0,
                jobs[i].0,
                jobs[j].0,
            ),
        forall|a: int, b: int|
            0 <= a < b < confirmed(jobs, fulls).len() ==> key_of(#[trigger] confirmed(jobs, fulls)[a])
                != key_of(#[trigger] confirmed(jobs, fulls)[b]),
{
    let keys = full_keys(jobs, fulls);
    let list = distinct(keys);
    let found = confirmed(jobs, fulls);
    lemma_distinct(keys);
    assert forall|g: int| 0 <= g < found.len() implies holds_duplicates(jobs, keys, #[trigger] found[g]) by {
        lemma_groups_have_keys(jobs, keys, list.len() as int);
        assert(has_key(jobs, keys, list.len() as int, found[g]));
        let x = choose|x: int| 0 <= x < list.len() && is_group_of(jobs, keys, #[trigger] list[x], found[g]);
        let at = places(keys, list[x]);
        lemma_places(keys, list[x]);
        assert forall|k: int| 0 <= k < found[g].files.len() implies exists|i: int|
            0 <= i < jobs.len() && jobs[i] == (#[trigger] found[g].files[k], found[g].size) && #[trigger] keys[i]
                == Some(key_of(found[g])) by {
            let i = at[k] as int;
            assert(keys[i] == Some(list[x]));
            assert(jobs[i] == (found[g].files[k], found[g].size));
        }
    }
    assert forall|i: int, j: int|
        0 <= i < jobs.len() && 0 <= j < jobs.len() && i != j && #[trigger] keys[i] == #[trigger] keys[j]
            && keys[i] is Some implies grouped_together(found, keys[i]->0, jobs[i].0, jobs[j].0) by {
        lemma_together(jobs, keys, i, j);
    }
    assert forall|a: int, b: int| 0 <= a < b < found.len() implies key_of(#[trigger] found[a]) != key_of(
        #[trigger] found[b],
    ) by {
        lemma_groups_differ(jobs, keys, list.len() as int, a, b);
    }
}

proof fn lemma_together(jobs: Seq<HashJob>, keys: Seq<Option<(u64, Seq<char>)>>, i: int, j: int)
    requires
        keys.len() == jobs.len(),
        jobs.len() <= usize::MAX,
        0 <= i < jobs.len(),
        0 <= j < jobs.len(),
        i != j,
        keys[i] == keys[j],
        keys[i] is Some,
    ensures
        grouped_together(shared_groups(jobs, keys, distinct(keys).len() as int), keys[i]->0, jobs[i].0, jobs[j].0),
{
    let list = distinct(keys);
    let found = shared_groups(jobs, keys, list.len() as int);
    let key = keys[i]->0;
    lemma_distinct(keys);
    assert(list.contains(key));
    let x = choose|x: int| 0 <= x < list.len() && list[x] == key;
    let at = places(keys, key);
    lemma_places(keys, key);
    assert(at.contains(i as usize));
    assert(at.contains(j as usize));
    let a = choose|a: int| 0 <= a < at.len() && at[a] == i as usize;
    let b = choose|b: int| 0 <= b < at.len() && at[b] == j as usize;
    assert(a != b);
    assert(at.len() >= 2);
    lemma_keys_have_groups(jobs, keys, list.len() as int, x);
    let g = choose|g: int| 0 <= g < found.len() && is_group_of(jobs, keys, list[x], #[trigger] found[g]);
    assert(found[g].files[a] == jobs[i].0);
    assert(found[g].files[b] == jobs[j].0);
}

proof fn lemma_shared_jobs<K>(jobs: Seq<HashJob>, keys: Seq<Option<K>>, n: int, x: int, i: int)
    requires
        0 <= x < n <= distinct(keys).len(),
        0 <= i < keys.len() <= usize::MAX,
        keys[i] == Some(distinct(keys)[x]),
        places(keys, distinct(keys)[x]).len() >= 2,
    ensures
        shared_jobs(jobs, keys, n).contains(jobs[i]),
    decreases n,
{
    let key = distinct(keys)[n - 1];
    let at = places(keys, key);
    let before = shared_jobs(jobs, keys, n - 1);
    let now = shared_jobs(jobs, keys, n);
    if x < n - 1 {
        lemma_shared_jobs(jobs, keys, n - 1, x, i);
        let k = choose|k: int| 0 <= k < before.len() && before[k] == jobs[i];
        assert(now[k] == jobs[i]);
    } else {
        lemma_places(keys, key);
        assert(at.contains(i as usize));
        let a = choose|a: int| 0 <= a < at.len() && at[a] == i as usize;
        assert(now[before.len() + a] == jobs[i]);
    }
}

/// The first look loses no duplicate: two files of the same size whose starts have the same hash
/// are both looked at as a whole.
pub proof fn law_same_starts_are_confirmed(jobs: Seq<HashJob>, headers: Seq<Option<u64>>, i: int, j: int)
    requires
        jobs.len() <= usize::MAX,
        0 <= i < jobs.len(),
        0 <= j < jobs.len(),
        i != j,
        jobs[i].1 == jobs[j].1,
        i < headers.len(),
        j < headers.len(),
        headers[i] is Some,
        headers[i] == headers[j],
    ensures
        to_confirm(jobs, headers).contains(jobs[i]),
{
    let keys = header_keys(jobs, headers);
    let key = keys[i]->0;
    lemma_distinct(keys);
    lemma_places(keys, key);
    assert(keys[i] == Some(key) && keys[j] == Some(key));
    let list = distinct(keys);
    assert(list.contains(key));
    let x = choose|x: int| 0 <= x < list.len() && list[x] == key;
    let at = places(keys, key);
    assert(at.contains(i as usize));
    assert(at.contains(j as usize));
    let a = choose|a: int| 0 <= a < at.len() && at[a] == i as usize;
    let b = choose|b: int| 0 <= b < at.len() && at[b] == j as usize;
    assert(a != b);
    lemma_shared_jobs(jobs, keys, list.len() as int, x, i);
}

// ---------------------------------------------------------------------------------------------
// What is found of given contents
// ---------------------------------------------------------------------------------------------

/// The part of a file that is looked at first, where the file was listed with the given size.
pub open spec fn start_of(size: u64, content: Seq<u8>) -> Seq<u8> {
    let n = if size <= WINDOW_BYTES {
        size as int
    } else {
        WINDOW_BYTES as int
    };
    if n <= content.len() {
        content.take(n)
    } else {
        content
    }
}

/// What a file is told apart by at first.
pub open spec fn start_hash(size: u64, content: Seq<u8>) -> u64 {
    if size == 0 {
        0
    } else {
        window_key(start_of(size, content))
    }
}

/// What a file is told apart by in the end.
pub open spec fn content_hash(content: Seq<u8>) -> Seq<char> {
    hex_of(blake3_digest(content))
}

/// Whether `headers` are the hashes of the starts of `jobs`, where file number `f` holds `c[f]`.
/// Some files may not have been read.
pub open spec fn are_start_hashes(jobs: Seq<HashJob>, headers: Seq<Option<u64>>, c: Seq<Seq<u8>>) -> bool {
    &&& headers.len() == jobs.len()
    &&& forall|i: int|
        0 <= i < jobs.len() ==> (#[trigger] headers[i] is None || headers[i] == Some(
            start_hash(jobs[i].1, c[jobs[i].0 as int]),
        ))
}

/// Whether `fulls` are the hashes of the files of `jobs`, where file number `f` holds `c[f]`. Some
/// files may not have been read.
pub open spec fn are_content_hashes(jobs: Seq<HashJob>, fulls: Seq<Option<String>>, c: Seq<Seq<u8>>) -> bool {
    &&& fulls.len() == jobs.len()
    &&& forall|i: int|
        0 <= i < jobs.len() ==> (#[trigger] fulls[i] is None || fulls[i]->0@ == content_hash(c[jobs[i].0 as int]))
}

/// Whether file number `f` could be read both times.
pub open spec fn was_read(
    jobs: Seq<HashJob>,
    headers: Seq<Option<u64>>,
    fulls: Seq<Option<String>>,
    f: usize,
) -> bool {
    &&& forall|i: int| 0 <= i < jobs.len() && jobs[i].0 == f ==> #[trigger] headers[i] is Some
    &&& forall|p: int|
        0 <= p < to_confirm(jobs, headers).len() && to_confirm(jobs, headers)[p].0 == f
            ==> #[trigger] fulls[p] is Some
}

/// Whether no file is listed twice.
pub open spec fn numbers_differ(jobs: Seq<HashJob>) -> bool {
    forall|i: int, j: int| 0 <= i < j < jobs.len() ==> (#[trigger] jobs[i]).0 != (#[trigger] jobs[j]).0
}

/// Whether some group holds both of two files.
pub open spec fn in_one_group(found: Seq<Duplicates>, a: usize, b: usize) -> bool {
    exists|g: int| 0 <= g < found.len() && (#[trigger] found[g]).files.contains(a) && found[g].files.contains(b)
}

/// Whether `job` is one of `jobs` that has one of the first `n` keys.
spec fn is_shared_from<K>(jobs: Seq<HashJob>, keys: Seq<Option<K>>, n: int, job: HashJob) -> bool {
    exists|x: int, k: int|
        0 <= x < jobs.len() && 0 <= k < n && job == #[trigger] jobs[x] && keys[x] == Some(
            #[trigger] distinct(keys)[k],
        )
}

proof fn lemma_shared_from<K>(jobs: Seq<HashJob>, keys: Seq<Option<K>>, n: int)
    requires
        jobs.len() == keys.len() <= usize::MAX,
        0 <= n <= distinct(keys).len(),
    ensures
        forall|p: int|
            0 <= p < shared_jobs(jobs, keys, n).len() ==> is_shared_from(
                jobs,
                keys,
                n,
                #[trigger] shared_jobs(jobs, keys, n)[p],
            ),
    decreases n,
{
    if n > 0 {
        lemma_shared_from(jobs, keys, n - 1);
        let key = distinct(keys)[n - 1];
        let at = places(keys, key);
        let before = shared_jobs(jobs, keys, n - 1);
        let now = shared_jobs(jobs, keys, n);
        lemma_places(keys, key);
        assert forall|p: int| 0 <= p < now.len() implies is_shared_from(jobs, keys, n, #[trigger] now[p]) by {
            if p < before.len() {
                assert(now[p] == before[p]);
                assert(is_shared_from(jobs, keys, n - 1, before[p]));
                let (x, k) = choose|x: int, k: int|
                    0 <= x < jobs.len() && 0 <= k < n - 1 && before[p] == #[trigger] jobs[x] && keys[x] == Some(
                        #[trigger] distinct(keys)[k],
                    );
                assert(now[p] == jobs[x] && keys[x] == Some(distinct(keys)[k]));
            } else {
                let x = at[p - before.len()] as int;
                assert(now[p] == jobs[x] && keys[x] == Some(distinct(keys)[n - 1]));
            }
        }
    }
}

/// No file is listed twice among the shared ones either.
proof fn lemma_shared_differ<K>(jobs: Seq<HashJob>, keys: Seq<Option<K>>, n: int)
    requires
        jobs.len() == keys.len() <= usize::MAX,
        0 <= n <= distinct(keys).len(),
        numbers_differ(jobs),
    ensures
        numbers_differ(shared_jobs(jobs, keys, n)),
    decreases n,
{
    if n > 0 {
        lemma_shared_differ(jobs, keys, n - 1);
        lemma_shared_from(jobs, keys, n - 1);
        lemma_distinct(keys);
        let list = distinct(keys);
        let at = places(keys, list[n - 1]);
        let before = shared_jobs(jobs, keys, n - 1);
        let now = shared_jobs(jobs, keys, n);
        lemma_places(keys, list[n - 1]);
        assert forall|p: int, q: int| 0 <= p < q < now.len() implies (#[trigger] now[p]).0 != (
        #[trigger] now[q]).0 by {
            if q < before.len() {
                assert(now[p] == before[p] && now[q] == before[q]);
            } else {
                let y = at[q - before.len()] as int;
                assert(now[q] == jobs[y] && keys[y] == Some(list[n - 1]));
                if p < before.len() {
                    assert(now[p] == before[p]);
                    assert(is_shared_from(jobs, keys, n - 1, before[p]));
                    let (x, k) = choose|x: int, k: int|
                        0 <= x < jobs.len() && 0 <= k < n - 1 && before[p] == #[trigger] jobs[x] && keys[x] == Some(
                            #[trigger] list[k],
                        );
                    assert(list[k] != list[n - 1]);
                    assert(x != y);
                    lemma_other_number(jobs, x, y);
                } else {
                    let x = at[p - before.len()] as int;
                    assert(now[p] == jobs[x]);
                    assert(x < y);
                }
            }
        }
    }
}

proof fn lemma_other_number(jobs: Seq<HashJob>, x: int, y: int)
    requires
        numbers_differ(jobs),
        0 <= x < jobs.len(),
        0 <= y < jobs.len(),
        x != y,
    ensures
        jobs[x].0 != jobs[y].0,
{
    if x < y {
        assert(jobs[x].0 != jobs[y].0);
    } else {
        assert(jobs[y].0 != jobs[x].0);
    }
}

/// Where no file is listed twice, no more files are confirmed than there are.
proof fn lemma_no_more_confirmed(jobs: Seq<HashJob>, headers: Seq<Option<u64>>)
    requires
        jobs.len() <= usize::MAX,
        numbers_differ(jobs),
    ensures
        numbers_differ(to_confirm(jobs, headers)),
        to_confirm(jobs, headers).len() <= jobs.len(),
        forall|p: int|
            0 <= p < to_confirm(jobs, headers).len() ==> jobs.contains(#[trigger] to_confirm(jobs, headers)[p]),
{
    let keys = header_keys(jobs, headers);
    let n = distinct(keys).len() as int;
    let rest = to_confirm(jobs, headers);
    lemma_shared_differ(jobs, keys, n);
    lemma_shared_from(jobs, keys, n);
    assert forall|p: int| 0 <= p < rest.len() implies jobs.contains(#[trigger] rest[p]) by {
        assert(is_shared_from(jobs, keys, n, shared_jobs(jobs, keys, n)[p]));
    }
    assert(rest.no_duplicates()) by {
        assert forall|p: int, q: int| 0 <= p < rest.len() && 0 <= q < rest.len() && p != q implies rest[p]
            != rest[q] by {
            lemma_other_number(rest, p, q);
        }
    }
    rest.unique_seq_to_set();
    jobs.lemma_cardinality_of_set();
    assert(rest.to_set().subset_of(jobs.to_set())) by {
        assert forall|x: HashJob| rest.to_set().contains(x) implies jobs.to_set().contains(x) by {
            let p = choose|p: int| 0 <= p < rest.len() && rest[p] == x;
            assert(jobs.contains(rest[p]));
        }
    }
    vstd::set_lib::lemma_len_subset(rest.to_set(), jobs.to_set());
}

/// What a search finds among files with given contents, from the sizes over the hashes of the
/// starts to the hashes of whole files: any two files that were listed with the same size, hold the
/// same content and could be read are in one group; every group has two files at least, no file
/// twice, all of its size and with its hash; and no file is in two groups.
pub proof fn law_same_content_ends_in_one_group(
    groups: Seq<(u64, Vec<usize>)>,
    headers: Seq<Option<u64>>,
    fulls: Seq<Option<String>>,
    c: Seq<Seq<u8>>,
)
    requires
        files_in(groups).len() <= usize::MAX,
        numbers_differ(files_in(groups)),
        are_start_hashes(files_in(groups), headers, c),
        are_content_hashes(to_confirm(files_in(groups), headers), fulls, c),
    ensures
        ({
            let jobs = files_in(groups);
            let found = confirmed(to_confirm(jobs, headers), fulls);
            &&& forall|i: int, j: int|
                0 <= i < jobs.len() && 0 <= j < jobs.len() && i != j && (#[trigger] jobs[i]).1 == (
                #[trigger] jobs[j]).1 && c[jobs[i].0 as int] == c[jobs[j].0 as int] && was_read(
                    jobs,
                    headers,
                    fulls,
                    jobs[i].0,
                ) && was_read(jobs, headers, fulls, jobs[j].0) ==> in_one_group(found, jobs[i].0, jobs[j].0)
            &&& forall|g: int|
                0 <= g < found.len() ==> (#[trigger] found[g]).files.len() >= 2 && found[g].files.no_duplicates()
            &&& forall|g: int, k: int|
                0 <= g < found.len() && 0 <= k < found[g].files.len() ==> jobs.contains(
                    (#[trigger] found[g].files[k], found[g].size),
                ) && content_hash(c[found[g].files[k] as int]) == found[g].hash
            &&& forall|g: int, h: int, f: usize|
                0 <= g < h < found.len() && #[trigger] found[g].files.contains(f) ==> !(
                #[trigger] found[h].files.contains(f))
        }),
{
    let jobs = files_in(groups);
    let rest = to_confirm(jobs, headers);
    let keys = full_keys(rest, fulls);
    let found = confirmed(rest, fulls);
    lemma_no_more_confirmed(jobs, headers);
    law_groups_are_the_duplicates(rest, fulls);
    assert forall|i: int, j: int|
        0 <= i < jobs.len() && 0 <= j < jobs.len() && i != j && (#[trigger] jobs[i]).1 == (
        #[trigger] jobs[j]).1 && c[jobs[i].0 as int] == c[jobs[j].0 as int] && was_read(
            jobs,
            headers,
            fulls,
            jobs[i].0,
        ) && was_read(jobs, headers, fulls, jobs[j].0) implies in_one_group(found, jobs[i].0, jobs[j].0) by {
        assert(headers[i] is Some && headers[j] is Some);
        law_same_starts_are_confirmed(jobs, headers, i, j);
        law_same_starts_are_confirmed(jobs, headers, j, i);
        let p = choose|p: int| 0 <= p < rest.len() && rest[p] == jobs[i];
        let q = choose|q: int| 0 <= q < rest.len() && rest[q] == jobs[j];
        lemma_other_number(jobs, i, j);
        assert(fulls[p] is Some && fulls[q] is Some);
        assert(keys[p] == keys[q] && keys[p] is Some);
        lemma_together(rest, keys, p, q);
        let g = choose|g: int|
            0 <= g < found.len() && key_of(#[trigger] found[g]) == keys[p]->0 && found[g].files.contains(rest[p].0)
                && found[g].files.contains(rest[q].0);
        assert(found[g].files.contains(jobs[i].0) && found[g].files.contains(jobs[j].0));
    }
    assert forall|g: int, k: int| 0 <= g < found.len() && 0 <= k < found[g].files.len() implies jobs.contains(
        (#[trigger] found[g].files[k], found[g].size),
    ) && content_hash(c[found[g].files[k] as int]) == found[g].hash by {
        let p = lemma_member(rest, fulls, g, k);
        assert(jobs.contains(rest[p]));
        assert(fulls[p]->0@ == content_hash(c[rest[p].0 as int]));
    }
    assert forall|g: int| 0 <= g < found.len() implies (#[trigger] found[g]).files.len() >= 2
        && found[g].files.no_duplicates() by {
        lemma_group_lists_once(rest, fulls, g);
        assert(holds_duplicates(rest, keys, found[g]));
    }
    assert forall|g: int, h: int, f: usize| 0 <= g < h < found.len() && #[trigger] found[g].files.contains(
        f,
    ) implies !(#[trigger] found[h].files.contains(f)) by {
        if found[h].files.contains(f) {
            let a = choose|a: int| 0 <= a < found[g].files.len() && found[g].files[a] == f;
            let b = choose|b: int| 0 <= b < found[h].files.len() && found[h].files[b] == f;
            let p = lemma_member(rest, fulls, g, a);
            let q = lemma_member(rest, fulls, h, b);
            if p != q {
                lemma_other_number(rest, p, q);
            }
            assert(key_of(found[g]) == key_of(found[h]));
        }
    }
}

/// Where in `jobs` member `k` of group `g` comes from.
proof fn lemma_member(jobs: Seq<HashJob>, fulls: Seq<Option<String>>, g: int, k: int) -> (p: int)
    requires
        jobs.len() <= usize::MAX,
        0 <= g < confirmed(jobs, fulls).len(),
        0 <= k < confirmed(jobs, fulls)[g].files.len(),
    ensures
        0 <= p < jobs.len(),
        jobs[p] == (confirmed(jobs, fulls)[g].files[k], confirmed(jobs, fulls)[g].size),
        full_keys(jobs, fulls)[p] == Some(key_of(confirmed(jobs, fulls)[g])),
        p < fulls.len(),
        fulls[p] is Some,
{
    law_groups_are_the_duplicates(jobs, fulls);
    let keys = full_keys(jobs, fulls);
    let d = confirmed(jobs, fulls)[g];
    assert(holds_duplicates(jobs, keys, d));
    let f = d.files[k];
    choose|i: int| 0 <= i < jobs.len() && jobs[i] == (f, d.size) && #[trigger] keys[i] == Some(key_of(d))
}

/// Where no file is listed twice, none is in a group twice.
proof fn lemma_group_lists_once(jobs: Seq<HashJob>, fulls: Seq<Option<String>>, g: int)
    requires
        jobs.len() <= usize::MAX,
        numbers_differ(jobs),
        0 <= g < confirmed(jobs, fulls).len(),
    ensures
        confirmed(jobs, fulls)[g].files.no_duplicates(),
{
    let keys = full_keys(jobs, fulls);
    let list = distinct(keys);
    let d = confirmed(jobs, fulls)[g];
    lemma_groups_have_keys(jobs, keys, list.len() as int);
    assert(has_key(jobs, keys, list.len() as int, shared_groups(jobs, keys, list.len() as int)[g]));
    let x = choose|x: int| 0 <= x < list.len() && is_group_of(jobs, keys, #[trigger] list[x], d);
    let at = places(keys, list[x]);
    lemma_places(keys, list[x]);
    assert forall|a: int, b: int| 0 <= a < d.files.len() && 0 <= b < d.files.len() && a != b implies d.files[a]
        != d.files[b] by {
        assert(at[a] != at[b]) by {
            if a < b {
                assert(at[a] < at[b]);
            } else {
                assert(at[b] < at[a]);
            }
        }
        lemma_other_number(jobs, at[a] as int, at[b] as int);
    }
}

// ---------------------------------------------------------------------------------------------
// The phases of a search
// ---------------------------------------------------------------------------------------------

/// The phase that follows on `finished`, which is none at the start, where so many files are left to
/// be hashed; none if the search is over.
pub open spec fn phase_after(finished: Option<HashPhase>, files: nat) -> Option<HashPhase> {
    if files == 0 {
        None
    } else {
        match finished {
            None => Some(HashPhase::Prefilter),
            Some(HashPhase::Prefilter) => Some(HashPhase::Confirm),
            Some(HashPhase::Confirm) => None,
        }
    }
}

/// The phase that follows on `finished`, which is none at the start, where so many files are left to
/// be hashed; none if the search is over.
pub fn next_phase(finished: Option<HashPhase>, files: usize) -> (r: Option<HashPhase>)
    ensures
        r == phase_after(finished, files as nat),
{
    if files == 0 {
        return None;
    }
    match finished {
        None => Some(HashPhase::Prefilter),
        Some(HashPhase::Prefilter) => Some(HashPhase::Confirm),
        Some(HashPhase::Confirm) => None,
    }
}

/// What to do next in a search.
pub enum SearchStep {
    /// Hash these files, their starts or as a whole.
    Hash(HashPhase, Vec<HashJob>),
    /// These are the duplicates.
    Done(Vec<DuplicateGroup>),
}

/// Whether `step` is to hash `jobs` in the phase that follows on `finished`, or, if none does, to end
/// without having found anything.
pub open spec fn hashes_or_ends(step: SearchStep, finished: Option<HashPhase>, jobs: Seq<HashJob>) -> bool {
    match phase_after(finished, jobs.len()) {
        Some(phase) => step is Hash && step->Hash_0 == phase && step->Hash_1@ == jobs,
        None => step is Done && step->Done_0@.len() == 0,
    }
}

/// What to do next in a search among `groups`, the files that have the same size: at the start, with
/// the hashes of the starts in the order of [`header_jobs`], or with those of whole files too, in the
/// order of [`confirm_jobs`].
pub fn search_step(
    groups: &Vec<(u64, Vec<usize>)>,
    headers: Option<&Vec<Option<u64>>>,
    fulls: Option<&Vec<Option<String>>>,
) -> (step: SearchStep)
    ensures
        ({
            let jobs = files_in(groups@);
            match headers {
                None => hashes_or_ends(step, None, jobs),
                Some(h) => match fulls {
                    None => hashes_or_ends(step, Some(HashPhase::Prefilter), to_confirm(jobs, h@)),
                    Some(f) => step is Done && groups_of(step->Done_0@) == confirmed(to_confirm(jobs, h@), f@),
                },
            }
        }),
{
    let (finished, jobs) = match headers {
        None => (None, header_jobs(groups)),
        Some(h) => match fulls {
            None => (Some(HashPhase::Prefilter), confirm_jobs(&header_jobs(groups), h)),
            Some(f) => {
                return SearchStep::Done(find_duplicates(groups, h, f));
            },
        },
    };
    match next_phase(finished, jobs.len()) {
        Some(phase) => SearchStep::Hash(phase, jobs),
        None => SearchStep::Done(Vec::new()),
    }
}

// ---------------------------------------------------------------------------------------------
// Progress
// ---------------------------------------------------------------------------------------------

/// After how many files progress is reported.
pub const REPORT_EVERY: u64 = 500;

/// How far a phase has come. Each phase counts for itself, from none of its files to all of them.
#[derive(Clone, Copy)]
pub struct Tally {
    pub phase: HashPhase,
    pub done: u64,
    pub total: u64,
}

/// What is reported of a phase of `total` files while the first `done` of them are counted: each
/// so many files, and when all are done.
pub open spec fn reports(phase: HashPhase, total: nat, done: nat) -> Seq<Tally>
    decreases done,
{
    if done == 0 {
        Seq::empty()
    } else {
        let before = reports(phase, total, (done - 1) as nat);
        if done % REPORT_EVERY as nat == 0 || done == total {
            before.push(Tally { phase, done: done as u64, total: total as u64 })
        } else {
            before
        }
    }
}

/// What is reported of a whole search in which the starts of `n` files are hashed and `m` of them are
/// left to be hashed as a whole.
pub open spec fn search_reports(n: nat, m: nat) -> Seq<Tally> {
    match phase_after(None, n) {
        None => Seq::empty(),
        Some(first) => reports(first, n, n) + match phase_after(Some(first), m) {
            None => Seq::empty(),
            Some(second) => reports(second, m, m),
        },
    }
}

impl Tally {
    pub fn new(phase: HashPhase, total: u64) -> (t: Self)
        ensures
            t == (Tally { phase, done: 0, total }),
    {
        Tally { phase, done: 0, total }
    }

    /// Counts one more file, and says whether to report that.
    pub fn one_more(&mut self) -> (report: bool)
        requires
            old(self).done < old(self).total,
        ensures
            *final(self) == (Tally { done: (old(self).done + 1) as u64, ..*old(self) }),
            report == ((old(self).done + 1) % 500 == 0 || old(self).done + 1 == old(self).total),
            final(self).done <= final(self).total,
            reports(final(self).phase, final(self).total as nat, final(self).done as nat) == reports(
                old(self).phase,
                old(self).total as nat,
                old(self).done as nat,
            ) + (if report {
                seq![*final(self)]
            } else {
                Seq::empty()
            }),
    {
        self.done = self.done + 1;
        self.done % REPORT_EVERY == 0 || self.done == self.total
    }
}

/// How many files a phase has.
pub open spec fn files_of_phase(phase: HashPhase, n: nat, m: nat) -> nat {
    match phase {
        HashPhase::Prefilter => n,
        HashPhase::Confirm => m,
    }
}

/// Whether report `a` may come before report `b`: in one phase the counts grow, and of two phases
/// the starts come first.
pub open spec fn told_before(a: Tally, b: Tally) -> bool {
    if a.phase == b.phase {
        a.done < b.done
    } else {
        a.phase == HashPhase::Prefilter
    }
}

/// Whether it is reported that a phase has done `d` files of `total`.
pub open spec fn tells(told: Seq<Tally>, phase: HashPhase, d: u64, total: nat) -> bool {
    told.contains(Tally { phase, done: d, total: total as u64 })
}

/// What a search reports: nothing where there are no files; else first the phase of the starts and
/// then, where files are left, that of whole files. Each phase counts its own files, up to all of
/// them, and tells each so many and the last.
pub proof fn law_phases_are_told_one_after_the_other(n: nat, m: nat)
    requires
        n <= u64::MAX,
        m <= u64::MAX,
    ensures
        n == 0 ==> search_reports(n, m).len() == 0,
        forall|k: int|
            0 <= k < search_reports(n, m).len() ==> {
                let t = #[trigger] search_reports(n, m)[k];
                let all = files_of_phase(t.phase, n, m);
                &&& 0 < t.done <= t.total == all
                &&& (t.done % 500 == 0 || t.done == t.total)
            },
        forall|a: int, b: int|
            0 <= a < b < search_reports(n, m).len() ==> told_before(
                #[trigger] search_reports(n, m)[a],
                #[trigger] search_reports(n, m)[b],
            ),
        forall|phase: HashPhase, d: u64|
            n > 0 && 0 < d <= files_of_phase(phase, n, m) && (d % 500 == 0 || d == files_of_phase(
                phase,
                n,
                m,
            )) ==> #[trigger] tells(search_reports(n, m), phase, d, files_of_phase(phase, n, m)),
{
    lemma_reports(HashPhase::Prefilter, n, n);
    lemma_reports(HashPhase::Confirm, m, m);
    let all = search_reports(n, m);
    let first = reports(HashPhase::Prefilter, n, n);
    let second = reports(HashPhase::Confirm, m, m);
    if n > 0 {
        assert(all =~= first + second);
        assert forall|phase: HashPhase, d: u64|
            0 < d <= files_of_phase(phase, n, m) && (d % REPORT_EVERY == 0 || d == files_of_phase(
                phase,
                n,
                m,
            )) implies #[trigger] tells(all, phase, d, files_of_phase(phase, n, m)) by {
            let t = Tally { phase, done: d, total: files_of_phase(phase, n, m) as u64 };
            match phase {
                HashPhase::Prefilter => {
                    lemma_told(phase, n, n, d);
                    let k = choose|k: int| 0 <= k < first.len() && first[k] == t;
                    assert(all[k] == t);
                },
                HashPhase::Confirm => {
                    lemma_told(phase, m, m, d);
                    let k = choose|k: int| 0 <= k < second.len() && second[k] == t;
                    assert(all[first.len() + k] == t);
                },
            }
        }
        assert forall|k: int| 0 <= k < all.len() implies {
            let t = #[trigger] all[k];
            let total = files_of_phase(t.phase, n, m);
            &&& 0 < t.done <= t.total == total
            &&& (t.done % REPORT_EVERY == 0 || t.done == t.total)
        } by {
            if k < first.len() {
                assert(all[k] == first[k]);
            } else {
                assert(all[k] == second[k - first.len()]);
            }
        }
        assert forall|a: int, b: int| 0 <= a < b < all.len() implies told_before(
            #[trigger] all[a],
            #[trigger] all[b],
        ) by {
            if b < first.len() {
                assert(all[a] == first[a] && all[b] == first[b]);
            } else if a < first.len() {
                assert(all[a] == first[a] && all[b] == second[b - first.len()]);
            } else {
                assert(all[a] == second[a - first.len()] && all[b] == second[b - first.len()]);
            }
        }
    }
}

/// A search among no files reports nothing and finds nothing.
pub proof fn law_without_files_nothing_is_told_or_found(
    groups: Seq<(u64, Vec<usize>)>,
    headers: Seq<Option<u64>>,
    fulls: Seq<Option<String>>,
)
    requires
        files_in(groups).len() == 0,
    ensures
        to_confirm(files_in(groups), headers).len() == 0,
        confirmed(to_confirm(files_in(groups), headers), fulls).len() == 0,
        search_reports(files_in(groups).len(), to_confirm(files_in(groups), headers).len()).len() == 0,
{
    let jobs = files_in(groups);
    assert(distinct(header_keys(jobs, headers)).len() == 0);
    let rest = to_confirm(jobs, headers);
    assert(distinct(full_keys(rest, fulls)).len() == 0);
}

proof fn lemma_reports(phase: HashPhase, total: nat, done: nat)
    requires
        done <= total <= u64::MAX,
    ensures
        forall|k: int|
            0 <= k < reports(phase, total, done).len() ==> {
                let t = #[trigger] reports(phase, total, done)[k];
                &&& t.phase == phase
                &&& 0 < t.done <= done
                &&& t.total == total
                &&& (t.done % REPORT_EVERY == 0 || t.done == t.total)
            },
        forall|a: int, b: int|
            0 <= a < b < reports(phase, total, done).len() ==> (#[trigger] reports(phase, total, done)[a]).done < (
            #[trigger] reports(phase, total, done)[b]).done,
    decreases done,
{
    if done > 0 {
        let before = reports(phase, total, (done - 1) as nat);
        let now = reports(phase, total, done);
        lemma_reports(phase, total, (done - 1) as nat);
        assert forall|k: int| 0 <= k < now.len() implies {
            let t = #[trigger] now[k];
            &&& t.phase == phase
            &&& 0 < t.done <= done
            &&& t.total == total
            &&& (t.done % REPORT_EVERY == 0 || t.done == t.total)
        } by {
            if k < before.len() {
                assert(now[k] == before[k]);
            }
        }
        assert forall|a: int, b: int| 0 <= a < b < now.len() implies (#[trigger] now[a]).done < (
        #[trigger] now[b]).done by {
            assert(now[a] == before[a]);
            if b < before.len() {
                assert(now[b] == before[b]);
            }
        }
    }
}

/// Every count that is to be told is told.
proof fn lemma_told(phase: HashPhase, total: nat, done: nat, d: u64)
    requires
        0 < d <= done <= total <= u64::MAX,
        d % REPORT_EVERY == 0 || d == total,
    ensures
        reports(phase, total, done).contains(Tally { phase, done: d, total: total as u64 }),
    decreases done,
{
    let before = reports(phase, total, (done - 1) as nat);
    let now = reports(phase, total, done);
    if d < done {
        lemma_told(phase, total, (done - 1) as nat, d);
        let k = choose|k: int|
            0 <= k < before.len() && before[k] == (Tally { phase, done: d, total: total as u64 });
        assert(now[k] == before[k]);
    } else {
        assert(now[before.len() as int] == (Tally { phase, done: d, total: total as u64 }));
    }
}

// ---------------------------------------------------------------------------------------------
// Which files are looked at, and which are found
// ---------------------------------------------------------------------------------------------

/// Whether job `i` has another one of the same size whose start has the same hash.
pub open spec fn has_a_like(jobs: Seq<HashJob>, headers: Seq<Option<u64>>, i: int) -> bool {
    0 <= i < headers.len() && headers[i] is Some && exists|k: int|
        0 <= k < jobs.len() && k < headers.len() && k != i && (#[trigger] jobs[k]).1 == jobs[i].1 && headers[k] == headers[i]
}

/// Whether `job` is one of the jobs, and another one is of the same size and has the same hash of its
/// start.
pub open spec fn is_one_with_a_like(jobs: Seq<HashJob>, headers: Seq<Option<u64>>, job: HashJob) -> bool {
    exists|i: int| 0 <= i < jobs.len() && job == #[trigger] jobs[i] && has_a_like(jobs, headers, i)
}

proof fn lemma_shared_have_a_like(jobs: Seq<HashJob>, headers: Seq<Option<u64>>, n: int)
    requires
        jobs.len() <= usize::MAX,
        0 <= n <= distinct(header_keys(jobs, headers)).len(),
    ensures
        forall|p: int|
            0 <= p < shared_jobs(jobs, header_keys(jobs, headers), n).len() ==> is_one_with_a_like(
                jobs,
                headers,
                #[trigger] shared_jobs(jobs, header_keys(jobs, headers), n)[p],
            ),
    decreases n,
{
    if n > 0 {
        let keys = header_keys(jobs, headers);
        lemma_shared_have_a_like(jobs, headers, n - 1);
        let key = distinct(keys)[n - 1];
        let at = places(keys, key);
        let before = shared_jobs(jobs, keys, n - 1);
        let now = shared_jobs(jobs, keys, n);
        lemma_places(keys, key);
        assert forall|p: int| 0 <= p < now.len() implies is_one_with_a_like(jobs, headers, #[trigger] now[p]) by {
            if p < before.len() {
                assert(now[p] == before[p]);
            } else {
                let a = p - before.len();
                let b = if a == 0 {
                    1int
                } else {
                    0
                };
                let i = at[a] as int;
                let k = at[b] as int;
                assert(keys[i] == Some(key) && keys[k] == Some(key));
                assert(i != k) by {
                    if a < b {
                        assert(at[a] < at[b]);
                    } else {
                        assert(at[b] < at[a]);
                    }
                }
                assert(jobs[k].1 == jobs[i].1);
                assert(now[p] == jobs[i]);
                assert(has_a_like(jobs, headers, i));
            }
        }
    }
}

/// Only files that may be duplicates are looked at as a whole: each of them has another one of the
/// same size whose start has the same hash. A file whose start could not be read is not among them.
pub proof fn law_only_same_starts_are_confirmed(jobs: Seq<HashJob>, headers: Seq<Option<u64>>, p: int)
    requires
        jobs.len() <= usize::MAX,
        0 <= p < to_confirm(jobs, headers).len(),
    ensures
        is_one_with_a_like(jobs, headers, to_confirm(jobs, headers)[p]),
{
    lemma_shared_have_a_like(jobs, headers, distinct(header_keys(jobs, headers)).len() as int);
}

/// Two files of the same size whose whole contents have the same hash are in one group, which is of
/// that size and has that hash.
pub proof fn law_same_hashes_are_grouped(jobs: Seq<HashJob>, fulls: Seq<Option<String>>, i: int, j: int)
    requires
        jobs.len() <= usize::MAX,
        0 <= i < jobs.len(),
        0 <= j < jobs.len(),
        i != j,
        i < fulls.len(),
        j < fulls.len(),
        fulls[i] is Some,
        fulls[j] is Some,
        jobs[i].1 == jobs[j].1,
        fulls[i]->0@ == fulls[j]->0@,
    ensures
        exists|g: int|
            0 <= g < confirmed(jobs, fulls).len() && (#[trigger] confirmed(jobs, fulls)[g]).size == jobs[i].1
                && confirmed(jobs, fulls)[g].hash == fulls[i]->0@ && confirmed(jobs, fulls)[g].files.contains(jobs[i].0)
                && confirmed(jobs, fulls)[g].files.contains(jobs[j].0),
{
    law_groups_are_the_duplicates(jobs, fulls);
    let keys = full_keys(jobs, fulls);
    assert(keys[i] == keys[j] && keys[i] == Some((jobs[i].1, fulls[i]->0@)));
    assert(grouped_together(confirmed(jobs, fulls), keys[i]->0, jobs[i].0, jobs[j].0));
    let found = confirmed(jobs, fulls);
    let g = choose|g: int|
        0 <= g < found.len() && key_of(#[trigger] found[g]) == keys[i]->0 && found[g].files.contains(jobs[i].0)
            && found[g].files.contains(jobs[j].0);
    assert(found[g].size == jobs[i].1);
}

/// Nothing else is in a group: each of its files was looked at, has the group's size and, as a whole,
/// the group's hash; and a group has two files at least.
pub proof fn law_groups_hold_same_hashes_only(jobs: Seq<HashJob>, fulls: Seq<Option<String>>, g: int, k: int)
    requires
        jobs.len() <= usize::MAX,
        0 <= g < confirmed(jobs, fulls).len(),
        0 <= k < confirmed(jobs, fulls)[g].files.len(),
    ensures
        confirmed(jobs, fulls)[g].files.len() >= 2,
        exists|i: int|
            0 <= i < jobs.len() && i < fulls.len() && (#[trigger] jobs[i]).0 == confirmed(jobs, fulls)[g].files[k]
                && jobs[i].1 == confirmed(jobs, fulls)[g].size && fulls[i] is Some && fulls[i]->0@
                == confirmed(jobs, fulls)[g].hash,
{
    law_groups_are_the_duplicates(jobs, fulls);
    let keys = full_keys(jobs, fulls);
    let found = confirmed(jobs, fulls)[g];
    assert(holds_duplicates(jobs, keys, found));
    let i = choose|i: int|
        0 <= i < jobs.len() && jobs[i] == (found.files[k], found.size) && #[trigger] keys[i] == Some(key_of(found));
    assert(jobs[i].0 == found.files[k]);
}


/// What is looked at first is the start of a file: all of a file of up to 64 KiB, and the first 64 KiB
/// of a larger one.
pub proof fn law_the_first_look_is_at_the_start(size: u64, content: Seq<u8>)
    requires
        size == content.len(),
    ensures
        size <= 64 * 1024 ==> start_of(size, content) == content,
        size > 64 * 1024 ==> start_of(size, content).len() == 64 * 1024 && forall|i: int|
            0 <= i < 64 * 1024 ==> #[trigger] start_of(size, content)[i] == content[i],
{
    if size <= 64 * 1024 {
        assert(content.take(size as int) =~= content);
    }
}

/// A search looks at the starts of files first, then at whole files, and only at what is left each
/// time; where nothing is left it ends, without duplicates.
pub proof fn law_starts_are_looked_at_first(step: SearchStep, finished: Option<HashPhase>, jobs: Seq<HashJob>)
    requires
        hashes_or_ends(step, finished, jobs),
    ensures
        jobs.len() == 0 ==> step is Done && step->Done_0@.len() == 0,
        jobs.len() > 0 && finished is None ==> step is Hash && step->Hash_0 == HashPhase::Prefilter && step->Hash_1@
            == jobs,
        jobs.len() > 0 && finished == Some(HashPhase::Prefilter) ==> step is Hash && step->Hash_0 == HashPhase::Confirm
            && step->Hash_1@ == jobs,
{
}

} // verus!
