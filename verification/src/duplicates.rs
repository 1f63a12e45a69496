//! Which files may be duplicates, and how those that are get shown.
use vstd::prelude::*;

use crate::dedup::{DuplicateGroup, HashPhase};
use crate::format::human_size;
use crate::model::{totals_fit, Color, Node};
use crate::order::{stable_order, take_all, Ranking};
use crate::scan::SizesTooLarge;
use crate::tables::{gather, PairTable};
use crate::text::{owned, push_decimal};
use crate::walk::FileWalker;

verus! {

use crate::categorize::{group_folder, leaf};
use crate::dedup::{files_in, numbers_differ, Duplicates, HashJob};
use crate::format::size_text;
use crate::model::{
    at_path, by_size, folder_in_order, is_rearrangement, lemma_by_size_is_preorder, logical_total, sums_fit, trees, Tree,
};
use crate::order::{is_preorder, lemma_order_is_permutation, lemma_sorted, order_of, precedes, sorted};
use crate::tables::{
    distinct, lemma_distinct, lemma_numbered_more, lemma_numbers_fit, lemma_places, lemma_places_numbered,
    numbered, places,
};
use crate::text::decimal;
use crate::walk::{
    files_of, found_before, is_file_at, law_every_file_is_found, law_no_file_is_found_twice, spelled, trimmed, Found,
};

/// What a search for duplicates reports.
pub enum DuplicateMessage {
    /// How many files a phase has done, of how many.
    Progress { phase: HashPhase, done: u64, total: u64 },
    /// The duplicates, as a tree that can be shown.
    Done(Box<Node>),
}

// ---------------------------------------------------------------------------------------------
// Which files may be duplicates
// ---------------------------------------------------------------------------------------------

/// The files that have content at all.
pub open spec fn with_content(fs: Seq<Found>) -> Seq<Found>
    decreases fs.len(),
{
    if fs.len() == 0 {
        Seq::empty()
    } else {
        let before = with_content(fs.drop_last());
        if fs.last().file.logical_size > 0 {
            before.push(fs.last())
        } else {
            before
        }
    }
}

/// The sizes of files.
pub open spec fn size_keys(fs: Seq<Found>) -> Seq<Option<(u64, u64)>> {
    Seq::new(fs.len(), |i: int| Some((fs[i].file.logical_size, 0u64)))
}

/// The sizes that two or more of the files have, with the numbers of those files, for the first `n`
/// sizes.
pub open spec fn same_sizes(fs: Seq<Found>, n: int) -> Seq<(u64, Seq<usize>)>
    decreases n,
{
    if n <= 0 {
        Seq::empty()
    } else {
        let key = distinct(size_keys(fs))[n - 1];
        let at = places(size_keys(fs), key);
        let before = same_sizes(fs, n - 1);
        if at.len() >= 2 {
            before.push((key.0, at))
        } else {
            before
        }
    }
}

pub open spec fn size_groups(v: Seq<(u64, Vec<usize>)>) -> Seq<(u64, Seq<usize>)> {
    v.map_values(|g: (u64, Vec<usize>)| (g.0, g.1@))
}

/// The files that may be duplicates.
pub struct Candidates {
    /// All files that have content, each noting where it truly is.
    pub nodes: Vec<Node>,
    /// Their paths.
    pub paths: Vec<String>,
    /// The sizes that two or more of them have, with the numbers of those.
    pub size_groups: Vec<(u64, Vec<usize>)>,
}

/// Whether `r` are the files at and below `t`, which is at `path`, that may be duplicates.
pub open spec fn are_candidates(r: Candidates, t: Tree, path: Seq<char>) -> bool {
    let fs = with_content(files_of(t, trimmed(path)));
    &&& r.nodes@.len() == fs.len()
    &&& r.paths@.len() == fs.len()
    &&& forall|i: int| 0 <= i < fs.len() ==> (#[trigger] r.nodes@[i])@ == leaf(fs[i])
    &&& forall|i: int| 0 <= i < fs.len() ==> (#[trigger] r.paths@[i])@ == fs[i].path
    &&& size_groups(r.size_groups@) == same_sizes(fs, distinct(size_keys(fs)).len() as int)
}

/// The files at and below `root` that may be duplicates: those that have content, by size. A size
/// that only one file has is of no interest.
pub fn collect_duplicate_candidates(root: &Node, root_path: &str) -> (r: Candidates)
    ensures
        are_candidates(r, root@, root_path@),
{
    let ghost all = files_of(root@, trimmed(root_path@));
    let mut nodes: Vec<Node> = Vec::new();
    let mut paths: Vec<String> = Vec::new();
    let mut table = PairTable::new();
    let mut ids: Vec<Option<usize>> = Vec::new();
    let mut walker = FileWalker::new(root, root_path);
    let ghost mut done: int = 0;
    proof {
        assert(all.skip(0) =~= all);
        assert(all.take(0) =~= Seq::empty());
        assert(size_keys(with_content(all.take(0))) =~= Seq::empty());
    }
    loop
        invariant
            all == files_of(root@, trimmed(root_path@)),
            0 <= done <= all.len(),
            walker.left() == all.skip(done),
            table.well_formed(),
            numbered(size_keys(with_content(all.take(done))), ids@, table.listed()),
            nodes@.len() == with_content(all.take(done)).len(),
            paths@.len() == with_content(all.take(done)).len(),
            forall|i: int| 0 <= i < nodes@.len() ==> (#[trigger] nodes@[i])@ == leaf(with_content(all.take(done))[i]),
            forall|i: int| 0 <= i < paths@.len() ==> (#[trigger] paths@[i])@ == with_content(all.take(done))[i].path,
        ensures
            done == all.len(),
        decreases walker.left().len(),
    {
        match walker.next() {
            Some((file, path)) => {
                let ghost fs = with_content(all.take(done));
                proof {
                    assert(all.take(done + 1).drop_last() =~= all.take(done));
                    assert(all.take(done + 1).last() == all[done]);
                    assert(all[done].file == file@ && all[done].path == path@);
                }
                if file.logical_size > 0 {
                    let ghost list = table.listed();
                    let id: usize = table.id_of(file.logical_size, 0);
                    proof {
                        let k = (file.logical_size, 0u64);
                        lemma_numbered_more(size_keys(fs), ids@, list, k, id);
                        assert(size_keys(fs).push(Some(k)) =~= size_keys(fs.push(all[done])));
                    }
                    ids.push(Some(id));
                    nodes.push(file.clone().with_full_path(path.clone()));
                    paths.push(path);
                }
                proof {
                    done = done + 1;
                    assert(walker.left() =~= all.skip(done));
                }
            },
            None => {
                break;
            },
        }
    }
    assert(all.take(done) =~= all);
    let ghost fs = with_content(all);
    let ghost keys = size_keys(fs);
    proof {
        lemma_numbers_fit(keys, ids@, table.listed());
    }
    let groups = gather(&ids, table.len());
    let mut out: Vec<(u64, Vec<usize>)> = Vec::new();
    let ghost lists = groups@;
    assert(size_groups(out@) =~= same_sizes(fs, 0));
    let mut g: usize = 0;
    for at in it: groups
        invariant
            it.seq() == lists,
            g == it.index(),
            lists.len() == table.listed().len(),
            keys == size_keys(fs),
            numbered(keys, ids@, table.listed()),
            forall|k: int| 0 <= k < lists.len() ==> (#[trigger] lists[k])@ == places(ids@, k as usize),
            size_groups(out@) == same_sizes(fs, g as int),
            g <= lists.len() <= usize::MAX,
    {
        proof {
            assert(at == lists[g as int]);
            lemma_places_numbered(keys, ids@, table.listed(), g, keys.len() as int);
            assert(keys.take(keys.len() as int) =~= keys);
            assert(ids@.take(keys.len() as int) =~= ids@);
            assert(at@ == places(keys, distinct(keys)[g as int]));
        }
        if at.len() >= 2 {
            let (size, _) = table.pair(g);
            let ghost before = out@;
            out.push((size, at));
            assert(size_groups(out@) =~= size_groups(before).push((size, at@)));
        }
        g = g + 1;
    }
    Candidates { nodes, paths, size_groups: out }
}

proof fn lemma_same_sizes(fs: Seq<Found>, n: int)
    requires
        0 <= n <= distinct(size_keys(fs)).len(),
        fs.len() <= usize::MAX,
    ensures
        forall|g: int| 0 <= g < same_sizes(fs, n).len() ==> is_size_group(fs, #[trigger] same_sizes(fs, n)[g]),
    decreases n,
{
    if n > 0 {
        lemma_same_sizes(fs, n - 1);
        let key = distinct(size_keys(fs))[n - 1];
        let before = same_sizes(fs, n - 1);
        let now = same_sizes(fs, n);
        lemma_places(size_keys(fs), key);
        assert forall|g: int| 0 <= g < now.len() implies is_size_group(fs, #[trigger] now[g]) by {
            if g < before.len() {
                assert(now[g] == before[g]);
            } else {
                let at = places(size_keys(fs), key);
                assert(now[g] == (key.0, at));
                assert forall|k: int| 0 <= k < at.len() implies (#[trigger] at[k]) < fs.len() && fs[at[k] as int].file.logical_size
                    == key.0 by {
                    assert(size_keys(fs)[at[k] as int] == Some(key));
                }
            }
        }
    }
}

/// Whether `g` lists two or more of the files `fs`, no file twice, all of them of the size of `g`.
pub open spec fn is_size_group(fs: Seq<Found>, g: (u64, Seq<usize>)) -> bool {
    &&& g.1.len() >= 2
    &&& forall|k: int|
        0 <= k < g.1.len() ==> (#[trigger] g.1[k]) < fs.len() && fs[g.1[k] as int].file.logical_size == g.0
    &&& forall|a: int, b: int| 0 <= a < b < g.1.len() ==> #[trigger] g.1[a] < #[trigger] g.1[b]
}

/// The files that may be duplicates of each other are two at least, and of the same size.
pub proof fn law_candidates_share_their_size(fs: Seq<Found>)
    requires
        fs.len() <= usize::MAX,
    ensures
        ({
            let groups = same_sizes(fs, distinct(size_keys(fs)).len() as int);
            forall|g: int| 0 <= g < groups.len() ==> is_size_group(fs, #[trigger] groups[g])
        }),
{
    lemma_same_sizes(fs, distinct(size_keys(fs)).len() as int);
}

/// Every size is listed once.
proof fn lemma_sizes_differ(fs: Seq<Found>, n: int)
    requires
        0 <= n <= distinct(size_keys(fs)).len(),
    ensures
        forall|g: int|
            0 <= g < same_sizes(fs, n).len() ==> has_size(fs, n, (#[trigger] same_sizes(fs, n)[g]).0),
        forall|g: int, h: int|
            0 <= g < h < same_sizes(fs, n).len() ==> (#[trigger] same_sizes(fs, n)[g]).0 != (
            #[trigger] same_sizes(fs, n)[h]).0,
    decreases n,
{
    if n > 0 {
        lemma_sizes_differ(fs, n - 1);
        let list = distinct(size_keys(fs));
        let before = same_sizes(fs, n - 1);
        let now = same_sizes(fs, n);
        lemma_distinct(size_keys(fs));
        assert forall|g: int| 0 <= g < now.len() implies has_size(fs, n, (#[trigger] now[g]).0) by {
            if g < before.len() {
                assert(now[g] == before[g]);
                assert(has_size(fs, n - 1, before[g].0));
                let k = choose|k: int| 0 <= k < n - 1 && (#[trigger] list[k]).0 == before[g].0;
                assert(list[k].0 == now[g].0);
            } else {
                assert(list[n - 1].0 == now[g].0);
            }
        }
        assert forall|g: int, h: int| 0 <= g < h < now.len() implies (#[trigger] now[g]).0 != (
        #[trigger] now[h]).0 by {
            assert(now[g] == before[g]);
            if h < before.len() {
                assert(now[h] == before[h]);
            } else {
                assert(has_size(fs, n - 1, before[g].0));
                let k = choose|k: int| 0 <= k < n - 1 && (#[trigger] list[k]).0 == before[g].0;
                assert(size_keys(fs).contains(Some(list[k])));
                assert(size_keys(fs).contains(Some(list[n - 1])));
                assert(list[k].1 == 0 && list[n - 1].1 == 0);
                assert(list[k] != list[n - 1]);
            }
        }
    }
}

/// Whether a size is one of the first `n` that the files have.
spec fn has_size(fs: Seq<Found>, n: int, size: u64) -> bool {
    exists|k: int| 0 <= k < n && (#[trigger] distinct(size_keys(fs))[k]).0 == size
}

/// Whether a job is the file of that number, with its size.
pub open spec fn lists_file(fs: Seq<Found>, job: HashJob) -> bool {
    job.0 < fs.len() && fs[job.0 as int].file.logical_size == job.1
}

proof fn lemma_listed_once(fs: Seq<Found>, groups: Seq<(u64, Vec<usize>)>)
    requires
        forall|g: int| 0 <= g < groups.len() ==> is_size_group(fs, ((#[trigger] groups[g]).0, groups[g].1@)),
        forall|g: int, h: int|
            0 <= g < h < groups.len() ==> (#[trigger] groups[g]).0 != (#[trigger] groups[h]).0,
    ensures
        numbers_differ(files_in(groups)),
        forall|p: int| 0 <= p < files_in(groups).len() ==> lists_file(fs, #[trigger] files_in(groups)[p]),
        forall|p: int|
            0 <= p < files_in(groups).len() ==> exists|g: int|
                0 <= g < groups.len() && (#[trigger] groups[g]).0 == (#[trigger] files_in(groups)[p]).1,
    decreases groups.len(),
{
    if groups.len() > 0 {
        let less = groups.drop_last();
        assert forall|g: int| 0 <= g < less.len() implies is_size_group(fs, ((#[trigger] less[g]).0, less[g].1@)) by {
            assert(is_size_group(fs, (groups[g].0, groups[g].1@)));
        }
        assert forall|g: int, h: int| 0 <= g < h < less.len() implies (#[trigger] less[g]).0 != (
        #[trigger] less[h]).0 by {
            assert(groups[g].0 != groups[h].0);
        }
        lemma_listed_once(fs, less);
        let last = groups.len() - 1;
        let group = groups[last];
        let before = files_in(less);
        let now = files_in(groups);
        assert(is_size_group(fs, (group.0, group.1@)));
        assert forall|p: int| 0 <= p < now.len() implies lists_file(fs, #[trigger] now[p]) by {
            if p < before.len() {
                assert(now[p] == before[p]);
            } else {
                let k = p - before.len();
                assert(now[p] == (group.1@[k], group.0));
            }
        }
        assert forall|p: int| 0 <= p < now.len() implies exists|g: int|
            0 <= g < groups.len() && (#[trigger] groups[g]).0 == (#[trigger] now[p]).1 by {
            if p < before.len() {
                assert(now[p] == before[p]);
                let g = choose|g: int| 0 <= g < less.len() && (#[trigger] less[g]).0 == before[p].1;
                assert(groups[g].0 == now[p].1);
            } else {
                assert(groups[last].0 == now[p].1);
            }
        }
        assert forall|p: int, q: int| 0 <= p < q < now.len() implies (#[trigger] now[p]).0 != (
        #[trigger] now[q]).0 by {
            if q < before.len() {
                assert(now[p] == before[p] && now[q] == before[q]);
            } else {
                let k = q - before.len();
                assert(now[q] == (group.1@[k], group.0));
                if p < before.len() {
                    assert(now[p] == before[p]);
                    let g = choose|g: int| 0 <= g < less.len() && (#[trigger] less[g]).0 == before[p].1;
                    assert(groups[g].0 != groups[last].0);
                    assert(lists_file(fs, now[p]) && lists_file(fs, now[q]));
                } else {
                    let j = p - before.len();
                    assert(now[p] == (group.1@[j], group.0));
                    assert(group.1@[j] < group.1@[k]);
                }
            }
        }
    }
}

/// A search among the candidates looks at no file twice, and knows the size of each.
pub proof fn law_candidates_are_listed_once(r: Candidates, t: Tree, path: Seq<char>)
    requires
        are_candidates(r, t, path),
        r.nodes@.len() <= usize::MAX,
    ensures
        numbers_differ(files_in(r.size_groups@)),
        forall|p: int|
            0 <= p < files_in(r.size_groups@).len() ==> lists_file(
                with_content(files_of(t, trimmed(path))),
                #[trigger] files_in(r.size_groups@)[p],
            ),
{
    let fs = with_content(files_of(t, trimmed(path)));
    let groups = r.size_groups@;
    let n = distinct(size_keys(fs)).len() as int;
    lemma_same_sizes(fs, n);
    lemma_sizes_differ(fs, n);
    assert forall|g: int| 0 <= g < groups.len() implies is_size_group(fs, ((#[trigger] groups[g]).0, groups[g].1@)) by {
        assert(size_groups(groups)[g] == (groups[g].0, groups[g].1@));
        assert(is_size_group(fs, same_sizes(fs, n)[g]));
    }
    assert forall|g: int, h: int| 0 <= g < h < groups.len() implies (#[trigger] groups[g]).0 != (
    #[trigger] groups[h]).0 by {
        assert(size_groups(groups)[g] == (groups[g].0, groups[g].1@));
        assert(size_groups(groups)[h] == (groups[h].0, groups[h].1@));
        assert(same_sizes(fs, n)[g].0 != same_sizes(fs, n)[h].0);
    }
    lemma_listed_once(fs, groups);
}

/// A file with content keeps its place among the files with content.
proof fn lemma_with_content(fs: Seq<Found>, k: int)
    requires
        0 <= k < fs.len(),
        fs[k].file.logical_size > 0,
    ensures
        with_content(fs.take(k)).len() < with_content(fs).len(),
        with_content(fs)[with_content(fs.take(k)).len() as int] == fs[k],
    decreases fs.len(),
{
    let front = fs.drop_last();
    if k == fs.len() - 1 {
        assert(front =~= fs.take(k));
    } else {
        lemma_with_content(front, k);
        assert(front.take(k) =~= fs.take(k));
    }
}

/// Files with content in different places stay in different places.
proof fn lemma_content_apart(fs: Seq<Found>, k: int, l: int)
    requires
        0 <= k < l < fs.len(),
        fs[k].file.logical_size > 0,
    ensures
        with_content(fs.take(k)).len() < with_content(fs.take(l)).len(),
{
    lemma_with_content(fs.take(l), k);
    assert(fs.take(l).take(k) =~= fs.take(k));
}

/// A size that occurs twice has its group, which lists both files.
proof fn lemma_size_has_group(fs: Seq<Found>, n: int, i: int, j: int, k: int) -> (g: int)
    requires
        fs.len() <= usize::MAX,
        0 <= i < fs.len(),
        0 <= j < fs.len(),
        i != j,
        fs[i].file.logical_size == fs[j].file.logical_size,
        0 <= k < n <= distinct(size_keys(fs)).len(),
        distinct(size_keys(fs))[k] == (fs[i].file.logical_size, 0u64),
    ensures
        0 <= g < same_sizes(fs, n).len(),
        same_sizes(fs, n)[g].0 == fs[i].file.logical_size,
        same_sizes(fs, n)[g].1.contains(i as usize),
        same_sizes(fs, n)[g].1.contains(j as usize),
    decreases n,
{
    if k < n - 1 {
        lemma_size_has_group(fs, n - 1, i, j, k)
    } else {
        let keys = size_keys(fs);
        let key = distinct(keys)[k];
        let at = places(keys, key);
        lemma_places(keys, key);
        assert(keys[i] == Some(key) && keys[j] == Some(key));
        assert(at.contains(i as usize) && at.contains(j as usize));
        let a = choose|a: int| 0 <= a < at.len() && at[a] == i as usize;
        let b = choose|b: int| 0 <= b < at.len() && at[b] == j as usize;
        assert(a != b);
        assert(at.len() >= 2);
        assert(same_sizes(fs, n).last() == (key.0, at));
        same_sizes(fs, n).len() - 1
    }
}

/// Whether group `g` is of files with the given size, and lists the files of both numbers.
pub open spec fn lists_both(g: (u64, Vec<usize>), size: u64, i: int, j: int) -> bool {
    g.0 == size && g.1@.contains(i as usize) && g.1@.contains(j as usize)
}

/// No candidate is missed: any two of the files that have content are in a group together where they
/// have the same size.
pub proof fn law_same_sizes_are_grouped(r: Candidates, t: Tree, path: Seq<char>, i: int, j: int)
    requires
        are_candidates(r, t, path),
        r.nodes@.len() <= usize::MAX,
        0 <= i < r.nodes@.len(),
        0 <= j < r.nodes@.len(),
        i != j,
        r.nodes@[i]@.logical_size == r.nodes@[j]@.logical_size,
    ensures
        exists|g: int|
            0 <= g < r.size_groups@.len() && lists_both(
                #[trigger] r.size_groups@[g],
                r.nodes@[i]@.logical_size,
                i,
                j,
            ),
{
    let fs = with_content(files_of(t, trimmed(path)));
    let keys = size_keys(fs);
    lemma_distinct(keys);
    let size = r.nodes@[i]@.logical_size;
    assert(r.nodes@[i]@ == leaf(fs[i]) && r.nodes@[j]@ == leaf(fs[j]));
    assert(keys[i] == Some((size, 0u64)));
    assert(distinct(keys).contains((size, 0u64)));
    let k = choose|k: int| 0 <= k < distinct(keys).len() && distinct(keys)[k] == (size, 0u64);
    let g = lemma_size_has_group(fs, distinct(keys).len() as int, i, j, k);
    assert(size_groups(r.size_groups@)[g] == (r.size_groups@[g].0, r.size_groups@[g].1@));
    assert(lists_both(r.size_groups@[g], size, i, j));
}

/// Whether candidate number `i` is the file at the end of `p`, and notes its true path.
pub open spec fn is_candidate(r: Candidates, i: int, t: Tree, path: Seq<char>, p: Seq<usize>) -> bool {
    &&& 0 <= i < r.nodes@.len()
    &&& 0 <= i < r.paths@.len()
    &&& at_path(t, p) is Some
    &&& r.nodes@[i]@ == (Tree { full_path: Some(spelled(t, path, p)), ..at_path(t, p)->0 })
    &&& r.paths@[i]@ == spelled(t, path, p)
}

/// Wherever two files with content stand in the tree, if they have the same size, both are among the
/// candidates, each with its own number, and some group lists the two numbers. The path that the tree
/// is at is taken without backslashes at its end.
pub proof fn law_no_candidate_is_missed(r: Candidates, t: Tree, path: Seq<char>, p: Seq<usize>, q: Seq<usize>)
    requires
        are_candidates(r, t, path),
        r.nodes@.len() <= usize::MAX,
        path.len() == 0 || path.last() != '\\',
        is_file_at(t, p),
        is_file_at(t, q),
        p != q,
        at_path(t, p)->0.logical_size > 0,
        at_path(t, q)->0.logical_size == at_path(t, p)->0.logical_size,
    ensures
        exists|g: int, i: int, j: int|
            #![trigger r.size_groups@[g], is_candidate(r, i, t, path, p), is_candidate(r, j, t, path, q)]
            is_candidate(r, i, t, path, p) && is_candidate(r, j, t, path, q) && i != j && 0 <= g
                < r.size_groups@.len() && lists_both(r.size_groups@[g], at_path(t, p)->0.logical_size, i, j),
{
    assert(trimmed(path) == path);
    let all = files_of(t, path);
    let fs = with_content(all);
    law_every_file_is_found(t, path, p);
    law_every_file_is_found(t, path, q);
    law_no_file_is_found_twice(t, path, p, q);
    let a = found_before(t, path, p) as int;
    let b = found_before(t, path, q) as int;
    lemma_with_content(all, a);
    lemma_with_content(all, b);
    if a < b {
        lemma_content_apart(all, a, b);
    } else {
        lemma_content_apart(all, b, a);
    }
    let i = with_content(all.take(a)).len() as int;
    let j = with_content(all.take(b)).len() as int;
    assert(r.nodes@[i]@ == leaf(fs[i]) && r.nodes@[j]@ == leaf(fs[j]));
    assert(r.paths@[i]@ == fs[i].path && r.paths@[j]@ == fs[j].path);
    law_same_sizes_are_grouped(r, t, path, i, j);
    let g = choose|g: int|
        0 <= g < r.size_groups@.len() && lists_both(
            #[trigger] r.size_groups@[g],
            r.nodes@[i]@.logical_size,
            i,
            j,
        );
    assert(is_candidate(r, i, t, path, p) && is_candidate(r, j, t, path, q));
}

// ---------------------------------------------------------------------------------------------
// How duplicates are shown
// ---------------------------------------------------------------------------------------------

/// What could be saved if only one file of a group were kept.
pub open spec fn waste(g: Duplicates) -> nat {
    g.size as nat * (g.files.len() - 1) as nat
}

/// The name of the folder that stands for a group.
pub open spec fn dup_name(g: Duplicates) -> Seq<char> {
    size_text(g.size as nat) + " × "@ + decimal(g.files.len()) + " 个文件（哈希确认，可省 "@ + size_text(waste(g))
        + "）"@
}

/// The files of a group.
pub open spec fn dup_files(nodes: Seq<Tree>, g: Duplicates) -> Seq<Tree> {
    Seq::new(g.files.len(), |k: int| nodes[g.files[k] as int])
}

/// The groups, each with what it wastes and the folder that stands for it.
pub open spec fn dup_folders(nodes: Seq<Tree>, gs: Seq<Duplicates>) -> Seq<(u64, Tree)> {
    Seq::new(
        gs.len(),
        |i: int| (waste(gs[i]) as u64, group_folder(dup_name(gs[i]), dup_files(nodes, gs[i]))),
    )
}

/// The groups that waste most come first.
pub open spec fn by_waste() -> spec_fn((u64, Tree), (u64, Tree)) -> bool {
    |a: (u64, Tree), b: (u64, Tree)| a.0 >= b.0
}

/// The folders alone.
pub open spec fn folders_in(pairs: Seq<(u64, Tree)>) -> Seq<Tree> {
    pairs.map_values(|p: (u64, Tree)| p.1)
}

/// Whether what the groups waste and the sizes of the groups can be counted in 64 bits.
pub open spec fn dup_groups_fit(nodes: Seq<Tree>, gs: Seq<Duplicates>) -> bool {
    &&& forall|i: int|
        0 <= i < gs.len() ==> waste(#[trigger] gs[i]) <= u64::MAX && sums_fit(dup_files(nodes, gs[i]))
    &&& sums_fit(folders_in(sorted(dup_folders(nodes, gs), by_waste())))
}

/// The tree with one folder for each group of duplicates, those first that waste most.
pub open spec fn dup_tree(nodes: Seq<Tree>, gs: Seq<Duplicates>) -> Tree {
    folder_in_order(
        "疑似重复文件（大小 + 内容哈希确认）"@,
        Color { r: 0xF5, g: 0xA6, b: 0x23 },
        folders_in(sorted(dup_folders(nodes, gs), by_waste())),
    )
}

struct WasteRank<'a> {
    wastes: &'a Vec<u64>,
    folders: &'a Vec<Node>,
}

impl<'a> Ranking<(u64, Tree)> for WasteRank<'a> {
    closed spec fn items(&self) -> Seq<(u64, Tree)> {
        Seq::new(
            if self.wastes@.len() <= self.folders@.len() {
                self.wastes@.len()
            } else {
                self.folders@.len()
            },
            |i: int| (self.wastes@[i], self.folders@[i]@),
        )
    }

    closed spec fn le(&self) -> spec_fn((u64, Tree), (u64, Tree)) -> bool {
        by_waste()
    }

    proof fn is_lawful(&self) {
    }

    fn may_precede(&self, i: usize, j: usize) -> (r: bool) {
        self.wastes[i] >= self.wastes[j]
    }
}

fn name_of(size: u64, count: usize, wasted: u64, Ghost(g): Ghost<Duplicates>) -> (r: String)
    requires
        g.size == size,
        g.files.len() == count,
        waste(g) == wasted,
    ensures
        r@ == dup_name(g),
{
    let mut out = human_size(size);
    out.append(" × ");
    push_decimal(&mut out, count as u64);
    out.append(" 个文件（哈希确认，可省 ");
    out.append(human_size(wasted).as_str());
    out.append("）");
    assert(out@ =~= dup_name(g));
    out
}

/// The groups of duplicates as a tree that can be shown, where the files are taken from `nodes` by
/// their numbers. There is none exactly if the sizes cannot be counted.
pub fn duplicate_tree(nodes: &Vec<Node>, groups: &Vec<DuplicateGroup>) -> (r: Result<Node, SizesTooLarge>)
    requires
        forall|i: int| 0 <= i < groups@.len() ==> (#[trigger] groups@[i])@.files.len() > 0,
        forall|i: int, k: int|
            0 <= i < groups@.len() && 0 <= k < groups@[i]@.files.len() ==> (#[trigger] groups@[i]@.files[k])
                < nodes@.len(),
    ensures
        ({
            let gs = crate::dedup::groups_of(groups@);
            match r {
                Ok(n) => dup_groups_fit(trees(nodes@), gs) && n@ == dup_tree(trees(nodes@), gs),
                Err(_) => !dup_groups_fit(trees(nodes@), gs),
            }
        }),
{
    let ghost gs = crate::dedup::groups_of(groups@);
    let ghost ts = trees(nodes@);
    let ghost pairs = dup_folders(ts, gs);
    let mut wastes: Vec<u64> = Vec::new();
    let mut folders: Vec<Node> = Vec::new();
    let mut i: usize = 0;
    while i < groups.len()
        invariant
            i <= groups@.len(),
            gs == crate::dedup::groups_of(groups@),
            ts == trees(nodes@),
            pairs == dup_folders(ts, gs),
            wastes@.len() == i,
            folders@.len() == i,
            forall|k: int| 0 <= k < groups@.len() ==> (#[trigger] groups@[k])@.files.len() > 0,
            forall|x: int, k: int|
                0 <= x < groups@.len() && 0 <= k < groups@[x]@.files.len() ==> (#[trigger] groups@[x]@.files[k])
                    < nodes@.len(),
            forall|k: int| 0 <= k < i ==> (#[trigger] wastes@[k]) == pairs[k].0,
            forall|k: int| 0 <= k < i ==> (#[trigger] folders@[k])@ == pairs[k].1,
            forall|k: int| 0 <= k < i ==> waste(#[trigger] gs[k]) <= u64::MAX && sums_fit(dup_files(ts, gs[k])),
        decreases groups@.len() - i,
    {
        let g = &groups[i];
        assert(gs[i as int] == g@);
        let count: usize = g.file_indices.len();
        let more: usize = count - 1;
        proof {
            let size = g.size;
            assert(size * more <= 0xFFFF_FFFF_FFFF_FFFF * 0xFFFF_FFFF_FFFF_FFFF) by (nonlinear_arith)
                requires
                    0 <= size <= 0xFFFF_FFFF_FFFF_FFFF,
                    0 <= more <= 0xFFFF_FFFF_FFFF_FFFF,
            ;
        }
        let w: u128 = g.size as u128 * more as u128;
        if w > 0xFFFF_FFFF_FFFF_FFFF {
            assert(waste(gs[i as int]) > u64::MAX);
            return Err(SizesTooLarge);
        }
        let mut files: Vec<Node> = Vec::new();
        let mut k: usize = 0;
        while k < g.file_indices.len()
            invariant
                k <= g.file_indices@.len(),
                ts == trees(nodes@),
                files@.len() == k,
                forall|x: int| 0 <= x < g@.files.len() ==> (#[trigger] g@.files[x]) < nodes@.len(),
                trees(files@) =~= dup_files(ts, g@).take(k as int),
            decreases g.file_indices@.len() - k,
        {
            assert(g@.files[k as int] < nodes@.len());
            files.push(nodes[g.file_indices[k]].clone());
            k = k + 1;
        }
        assert(dup_files(ts, g@).take(k as int) =~= dup_files(ts, g@));
        if !totals_fit(&files) {
            assert(!sums_fit(dup_files(ts, gs[i as int])));
            return Err(SizesTooLarge);
        }
        let name = name_of(g.size, count, w as u64, Ghost(g@));
        let folder = Node::new_folder_with_meta(
            name,
            Color { r: 0xF5, g: 0xA6, b: 0x23 },
            files,
            0,
            0,
            0,
            0x10,
            0,
            false,
            String::new(),
        );
        assert(folder@ == pairs[i as int].1);
        wastes.push(w as u64);
        folders.push(folder);
        i = i + 1;
    }
    let rank = WasteRank { wastes: &wastes, folders: &folders };
    assert(rank.items() =~= pairs);
    let order = stable_order(&rank, folders.len());
    proof {
        assert(is_preorder(by_waste()));
        lemma_order_is_permutation(pairs, by_waste(), order@, 0, pairs.len() as int);
    }
    let ghost before = folders@;
    let folders = take_all(folders, &order);
    assert(trees(folders@) =~= folders_in(sorted(pairs, by_waste())));
    if !totals_fit(&folders) {
        return Err(SizesTooLarge);
    }
    Ok(
        Node::new_folder_in_order(
            owned("疑似重复文件（大小 + 内容哈希确认）"),
            Color { r: 0xF5, g: 0xA6, b: 0x23 },
            folders,
        ),
    )
}

/// The groups come in the order of what they waste: of two folders in the tree, the first stands
/// for a group that wastes at least as much. Every group has its folder there, and one only.
pub proof fn law_most_waste_comes_first(nodes: Seq<Tree>, gs: Seq<Duplicates>)
    requires
        gs.len() <= usize::MAX,
        dup_groups_fit(nodes, gs),
    ensures
        ({
            let o = order_of(dup_folders(nodes, gs), by_waste());
            let shown = dup_tree(nodes, gs).children;
            &&& o.no_duplicates()
            &&& o.len() == gs.len() == shown.len()
            &&& forall|i: int|
                0 <= i < o.len() ==> (#[trigger] o[i]) < gs.len() && shown[i] == group_folder(
                    dup_name(gs[o[i] as int]),
                    dup_files(nodes, gs[o[i] as int]),
                )
            &&& forall|i: int, j: int|
                0 <= i < j < o.len() ==> waste(gs[(#[trigger] o[i]) as int]) >= waste(
                    gs[(#[trigger] o[j]) as int],
                )
        }),
{
    let pairs = dup_folders(nodes, gs);
    let o = order_of(pairs, by_waste());
    assert(is_preorder(by_waste()));
    lemma_sorted(pairs, by_waste());
    assert forall|i: int, j: int| 0 <= i < j < o.len() implies waste(gs[(#[trigger] o[i]) as int]) >= waste(
        gs[(#[trigger] o[j]) as int],
    ) by {
        assert(waste(gs[o[i] as int]) <= u64::MAX);
        assert(waste(gs[o[j] as int]) <= u64::MAX);
        assert((by_waste())(pairs[o[i] as int], pairs[o[j] as int]));
    }
}

/// Every candidate has content, and is a file.
pub proof fn law_candidates_have_content(r: Candidates, t: Tree, path: Seq<char>, i: int)
    requires
        are_candidates(r, t, path),
        0 <= i < r.nodes@.len(),
    ensures
        r.nodes@[i]@.logical_size > 0,
        r.nodes@[i]@.full_path == Some(r.paths@[i]@),
{
    let all = files_of(t, trimmed(path));
    lemma_only_content(all, i);
    assert(r.nodes@[i]@ == leaf(with_content(all)[i]));
    assert(r.paths@[i]@ == with_content(all)[i].path);
}

proof fn lemma_only_content(fs: Seq<Found>, i: int)
    requires
        0 <= i < with_content(fs).len(),
    ensures
        with_content(fs)[i].file.logical_size > 0,
    decreases fs.len(),
{
    if fs.len() > 0 && i < with_content(fs.drop_last()).len() {
        lemma_only_content(fs.drop_last(), i);
    }
}

/// A group wastes all that its files take up together but for one of them.
pub proof fn law_waste_is_all_but_one(nodes: Seq<Tree>, g: Duplicates)
    requires
        g.files.len() > 0,
        forall|k: int| 0 <= k < g.files.len() ==> nodes[(#[trigger] g.files[k]) as int].logical_size == g.size,
    ensures
        waste(g) + g.size == logical_total(dup_files(nodes, g)),
{
    let ch = dup_files(nodes, g);
    lemma_same_total(ch, g.size as nat);
    let n = g.files.len();
    assert(g.size as nat * n == g.size as nat * (n - 1) as nat + g.size) by (nonlinear_arith)
        requires
            n > 0,
    ;
}

proof fn lemma_same_total(ch: Seq<Tree>, size: nat)
    requires
        forall|k: int| 0 <= k < ch.len() ==> (#[trigger] ch[k]).logical_size == size,
    ensures
        logical_total(ch) == size * ch.len(),
    decreases ch.len(),
{
    if ch.len() > 0 {
        let front = ch.drop_last();
        assert forall|k: int| 0 <= k < front.len() implies (#[trigger] front[k]).logical_size == size by {
            assert(ch[k].logical_size == size);
        }
        lemma_same_total(front, size);
        assert(ch[ch.len() - 1].logical_size == size);
        let n = ch.len();
        assert(size * n == size * (n - 1) + size) by (nonlinear_arith)
            requires
                n > 0,
        ;
    }
}


/// The name of a group tells the size of one file, how many there are, and what could be saved: the
/// size of all files but one.
pub proof fn law_group_names_tell_what_can_be_saved(g: Duplicates, saved: nat)
    requires
        g.files.len() > 0,
        saved + g.size == g.size * g.files.len(),
    ensures
        dup_name(g) == size_text(g.size as nat) + " × "@ + decimal(g.files.len()) + " 个文件（哈希确认，可省 "@
            + size_text(saved) + "）"@,
{
    let size = g.size as nat;
    let n = g.files.len();
    assert(size * n == size * (n - 1) as nat + size) by (nonlinear_arith)
        requires
            n > 0,
    ;
    assert(waste(g) == saved);
}


/// The tree of duplicates has one folder for each group, with the files of the group in it, and the
/// groups of which more can be saved stand before those of which less can be; `o` says which group
/// stands where.
pub proof fn law_groups_that_waste_most_come_first(nodes: Seq<Tree>, gs: Seq<Duplicates>) -> (o: Seq<usize>)
    requires
        dup_groups_fit(nodes, gs),
        gs.len() <= usize::MAX,
        forall|i: int| 0 <= i < gs.len() ==> 0 < (#[trigger] gs[i]).files.len() <= usize::MAX,
    ensures
        ({
            let ch = dup_tree(nodes, gs).children;
            &&& is_rearrangement(o, gs.len())
            &&& ch.len() == gs.len()
            &&& forall|k: int|
                0 <= k < gs.len() ==> (#[trigger] ch[k]).name == dup_name(gs[o[k] as int]) && ch[k].children.len()
                    == gs[o[k] as int].files.len()
            &&& forall|k: int, l: int|
                0 <= k < l < gs.len() ==> {
                    let a = gs[(#[trigger] o[k]) as int];
                    let b = gs[(#[trigger] o[l]) as int];
                    a.size * (a.files.len() - 1) >= b.size * (b.files.len() - 1)
                }
        }),
{
    let pairs = dup_folders(nodes, gs);
    let o = order_of(pairs, by_waste());
    assert(is_preorder(by_waste()));
    lemma_sorted(pairs, by_waste());
    let ch = dup_tree(nodes, gs).children;
    assert forall|k: int| 0 <= k < gs.len() implies (#[trigger] ch[k]).name == dup_name(gs[o[k] as int])
        && ch[k].children.len() == gs[o[k] as int].files.len() by {
        let g = gs[o[k] as int];
        assert(ch[k] == pairs[o[k] as int].1);
        assert(ch[k] == group_folder(dup_name(g), dup_files(nodes, g)));
        lemma_by_size_is_preorder();
        lemma_sorted(dup_files(nodes, g), by_size());
    }
    assert forall|k: int, l: int| 0 <= k < l < gs.len() implies {
        let a = gs[(#[trigger] o[k]) as int];
        let b = gs[(#[trigger] o[l]) as int];
        a.size * (a.files.len() - 1) >= b.size * (b.files.len() - 1)
    } by {
        assert(precedes(pairs, by_waste(), o[k] as int, o[l] as int));
        let a = gs[o[k] as int];
        let b = gs[o[l] as int];
        assert(waste(a) <= u64::MAX && waste(b) <= u64::MAX);
        assert(pairs[o[k] as int].0 == waste(a) && pairs[o[l] as int].0 == waste(b));
        assert(waste(a) >= waste(b));
        assert(waste(a) == a.size * (a.files.len() - 1)) by (nonlinear_arith)
            requires
                waste(a) == a.size as nat * (a.files.len() - 1) as nat,
                a.files.len() > 0,
        ;
        assert(waste(b) == b.size * (b.files.len() - 1)) by (nonlinear_arith)
            requires
                waste(b) == b.size as nat * (b.files.len() - 1) as nat,
                b.files.len() > 0,
        ;
    }
    o
}

} // verus!
