//! The main list: a row for each disk, and below it what is open.
use vstd::prelude::*;

use crate::model::{Color, Node, NodePath};
use crate::palette::{file_color, folder_color};
use crate::walk::{trim_backslashes, Walker, WalkRule};

verus! {

use crate::disk_info::texts;
use crate::edit::machine_sized;
use crate::model::{at_path, trees, Tree};
use crate::palette::{file_color_of, folder_color_at};
use crate::walk::{
    below, is_on_walk, knows_its_folder, law_every_step_knows_its_folder, law_walk_comes_by_everything_shown,
    law_walk_comes_by_nothing_else, spelled, steps, trimmed, Step,
};

/// A row of the list.
pub enum RowKind {
    /// The disk or directory that was scanned.
    Disk { pi: usize },
    /// Something on it.
    Child { pi: usize, abs_path: NodePath, depth: usize, parent_logical: u64 },
}

/// What a [`RowKind`] says.
pub enum ListRow {
    Disk { pi: usize },
    Child { pi: usize, at: Seq<usize>, depth: nat, parent_logical: u64 },
}

impl View for RowKind {
    type V = ListRow;

    open spec fn view(&self) -> ListRow {
        match self {
            RowKind::Disk { pi } => ListRow::Disk { pi: *pi },
            RowKind::Child { pi, abs_path, depth, parent_logical } => ListRow::Child {
                pi: *pi,
                at: abs_path@,
                depth: *depth as nat,
                parent_logical: *parent_logical,
            },
        }
    }
}

pub open spec fn list_rows(v: Seq<RowKind>) -> Seq<ListRow> {
    v.map_values(|r: RowKind| r@)
}

/// A size that shares can be taken of.
pub open spec fn at_least_one(n: u64) -> u64 {
    if n == 0 {
        1
    } else {
        n
    }
}

/// The row of a node on disk `pi` that a walk comes by.
pub open spec fn child_row(pi: usize, s: Step) -> ListRow {
    ListRow::Child {
        pi,
        at: seq![pi] + s.at,
        depth: s.depth,
        parent_logical: at_least_one(s.parent_logical),
    }
}

/// The walk to what is shown below a disk.
pub open spec fn shown_walk(show_reserved: bool) -> WalkRule {
    WalkRule { open_only: true, with_reserved: show_reserved }
}

/// The rows of what is shown below a disk.
pub open spec fn child_rows(t: Tree, pi: usize, show_reserved: bool) -> Seq<ListRow> {
    steps(shown_walk(show_reserved), t, Seq::empty()).map_values(|s: Step| child_row(pi, s))
}

/// Appends the rows of what is shown below a disk: everything in folders that are open, each folder
/// before what is in it. The files that NTFS keeps for itself are left out unless asked for.
pub fn collect_rows(node: &Node, pi: usize, show_reserved: bool, rows: &mut Vec<RowKind>)
    ensures
        list_rows(final(rows)@) == list_rows(old(rows)@) + child_rows(node@, pi, show_reserved),
{
    let ghost sts = steps(shown_walk(show_reserved), node@, Seq::empty());
    let ghost all = child_rows(node@, pi, show_reserved);
    let ghost start = list_rows(rows@);
    let ghost mut done: int = 0;
    let mut walker = Walker::new(WalkRule { open_only: true, with_reserved: show_reserved }, node, "");
    proof {
        reveal_strlit("");
        assert(""@ =~= Seq::empty());
        assert(sts.skip(0) =~= sts);
        assert(start + all.take(0) =~= start);
    }
    loop
        invariant
            sts == steps(shown_walk(show_reserved), node@, Seq::empty()),
            all == child_rows(node@, pi, show_reserved),
            0 <= done <= sts.len(),
            walker.left() == sts.skip(done),
            list_rows(rows@) == start + all.take(done),
        ensures
            done == sts.len(),
        decreases walker.left().len(),
    {
        match walker.next() {
            Some(v) => {
                assert(v.step() == sts[done]);
                let mut at: NodePath = Vec::new();
                at.push(pi);
                let mut rest = v.at;
                let ghost way = rest@;
                at.append(&mut rest);
                assert(at@ =~= seq![pi] + way);
                let parent_logical: u64 = if v.parent_logical == 0 {
                    1
                } else {
                    v.parent_logical
                };
                let row = RowKind::Child { pi, abs_path: at, depth: v.depth, parent_logical };
                let ghost before = rows@;
                rows.push(row);
                proof {
                    assert(row@ == all[done]);
                    assert(list_rows(rows@) =~= list_rows(before).push(row@));
                    assert(start + all.take(done + 1) =~= (start + all.take(done)).push(all[done]));
                    done = done + 1;
                    assert(walker.left() =~= sts.skip(done));
                }
            },
            None => {
                break;
            },
        }
    }
    assert(all.take(done) =~= all);
}

/// The rows of the first `n` disks: one for each, and below those that are open what is shown.
pub open spec fn disk_rows(parts: Seq<Tree>, show_all: bool, n: int) -> Seq<ListRow>
    decreases n,
{
    if n <= 0 {
        Seq::empty()
    } else {
        let pi = (n - 1) as usize;
        let here = disk_rows(parts, show_all, n - 1).push(ListRow::Disk { pi });
        if parts[n - 1].expanded {
            here + child_rows(parts[n - 1], pi, show_all)
        } else {
            here
        }
    }
}

/// All rows of the list.
pub fn visible_rows(partitions: &Vec<Node>, show_all: bool) -> (r: Vec<RowKind>)
    ensures
        list_rows(r@) == disk_rows(trees(partitions@), show_all, partitions@.len() as int),
{
    let mut rows: Vec<RowKind> = Vec::new();
    assert(list_rows(rows@) =~= Seq::empty());
    let mut pi: usize = 0;
    while pi < partitions.len()
        invariant
            pi <= partitions@.len(),
            list_rows(rows@) =~= disk_rows(trees(partitions@), show_all, pi as int),
        decreases partitions@.len() - pi,
    {
        let ghost before = rows@;
        rows.push(RowKind::Disk { pi });
        assert(list_rows(rows@) =~= list_rows(before).push(ListRow::Disk { pi }));
        if partitions[pi].expanded {
            collect_rows(&partitions[pi], pi, show_all, &mut rows);
        }
        pi = pi + 1;
    }
    rows
}

// ---------------------------------------------------------------------------------------------
// Paths and colors
// ---------------------------------------------------------------------------------------------

/// The path of what is reached from `t`, which is at `path`, by `way`, as far as it leads. A node
/// that notes where it truly is, is there.
pub open spec fn path_along(t: Tree, path: Seq<char>, way: Seq<usize>) -> Seq<char>
    decreases way.len(),
{
    if way.len() > 0 && way[0] < t.children.len() {
        let c = t.children[way[0] as int];
        path_along(c, below(path, c.name), way.skip(1))
    } else {
        match t.full_path {
            Some(p) => p,
            None => path,
        }
    }
}

/// The path of what is at `at`, the first number of which is that of a disk.
pub open spec fn full_path(parts: Seq<Tree>, roots: Seq<Seq<char>>, at: Seq<usize>) -> Seq<char> {
    if at.len() == 0 {
        Seq::empty()
    } else {
        let pi = at[0] as int;
        let path = if pi < roots.len() {
            trimmed(roots[pi])
        } else {
            Seq::empty()
        };
        if pi < parts.len() {
            path_along(parts[pi], path, at.skip(1))
        } else {
            path
        }
    }
}

/// The path of what is at `abs_path`.
pub fn build_full_path(partitions: &Vec<Node>, root_paths: &Vec<String>, abs_path: &[usize]) -> (r: String)
    ensures
        r@ == full_path(trees(partitions@), texts(root_paths@), abs_path@),
{
    if abs_path.len() == 0 {
        return String::new();
    }
    let pi: usize = abs_path[0];
    let mut path = if pi < root_paths.len() {
        trim_backslashes(root_paths[pi].as_str())
    } else {
        String::new()
    };
    assert(pi < root_paths@.len() ==> texts(root_paths@)[pi as int] == root_paths@[pi as int]@);
    if pi >= partitions.len() {
        return path;
    }
    let mut cur: &Node = &partitions[pi];
    let mut k: usize = 1;
    while k < abs_path.len()
        invariant
            1 <= k <= abs_path@.len(),
            pi < partitions@.len(),
            full_path(trees(partitions@), texts(root_paths@), abs_path@) == path_along(
                cur@,
                path@,
                abs_path@.skip(k as int),
            ),
        ensures
            full_path(trees(partitions@), texts(root_paths@), abs_path@) == match cur@.full_path {
                Some(p) => p,
                None => path@,
            },
        decreases abs_path@.len() - k,
    {
        let i: usize = abs_path[k];
        assert(abs_path@.skip(k as int).skip(1) =~= abs_path@.skip(k + 1));
        assert(abs_path@.skip(k as int)[0] == i);
        if i >= cur.children.len() {
            break;
        }
        let child: &Node = &cur.children[i];
        assert(cur@.children[i as int] == child@);
        if path.as_str().is_empty() {
            path = child.name.clone();
        } else {
            path.push('\\');
            path.append(child.name.as_str());
        }
        cur = child;
        k = k + 1;
    }
    match &cur.full_path_override {
        Some(there) => there.clone(),
        None => path,
    }
}

/// The color of a bar: that of the depth for a folder, one for all files.
pub fn depth_color(depth: usize, is_folder: bool) -> (r: Color)
    ensures
        r == if is_folder {
            folder_color_at(depth as nat)
        } else {
            file_color_of()
        },
{
    if is_folder {
        folder_color(depth)
    } else {
        file_color()
    }
}

/// Whether a row of the list is right: a disk has its number; anything else stands below an open disk,
/// in folders that are open, knows how deep that is, and knows the size of the folder that directly
/// holds it, which counts as one byte where it is empty.
pub open spec fn is_right_row(parts: Seq<Tree>, show_all: bool, r: ListRow) -> bool {
    match r {
        ListRow::Disk { pi } => pi < parts.len(),
        ListRow::Child { pi, at, depth, parent_logical } => {
            &&& pi < parts.len() && parts[pi as int].expanded
            &&& at.len() >= 2 && at[0] == pi
            &&& is_on_walk(WalkRule { open_only: true, with_reserved: show_all }, parts[pi as int], at.skip(1))
            &&& depth == at.len() - 2
            &&& at_path(parts[pi as int], at.skip(1).drop_last()) matches Some(folder) && {
                if folder.logical_size > 0 {
                    parent_logical == folder.logical_size
                } else {
                    parent_logical == 1
                }
            }
        },
    }
}

/// Every row of the list is right.
pub proof fn law_rows_stand_in_open_folders(parts: Seq<Tree>, show_all: bool, n: int)
    requires
        0 <= n <= parts.len() <= usize::MAX,
        forall|k: int| 0 <= k < parts.len() ==> machine_sized(#[trigger] parts[k]),
    ensures
        forall|i: int|
            0 <= i < disk_rows(parts, show_all, n).len() ==> is_right_row(
                parts,
                show_all,
                #[trigger] disk_rows(parts, show_all, n)[i],
            ),
    decreases n,
{
    if n > 0 {
        law_rows_stand_in_open_folders(parts, show_all, n - 1);
        let t = parts[n - 1];
        let pi = (n - 1) as usize;
        let rule = shown_walk(show_all);
        let sts = steps(rule, t, Seq::empty());
        let before = disk_rows(parts, show_all, n - 1);
        let now = disk_rows(parts, show_all, n);
        law_every_step_knows_its_folder(rule, t, Seq::empty());
        law_walk_comes_by_nothing_else(rule, t, Seq::empty());
        assert forall|i: int| 0 <= i < now.len() implies is_right_row(parts, show_all, #[trigger] now[i]) by {
            if i < before.len() {
                assert(now[i] == before[i]);
            } else if i == before.len() {
                assert(now[i] == (ListRow::Disk { pi }));
            } else {
                let s = sts[i - before.len() - 1];
                assert(now[i] == child_row(pi, s));
                assert(knows_its_folder(t, Seq::empty(), s));
                assert((seq![pi] + s.at).skip(1) =~= s.at);
                assert(is_on_walk(rule, t, s.at));
            }
        }
    }
}

/// No row is missing: each disk has one, and so has everything on an open disk that is in open folders
/// and is to be shown.
pub proof fn law_no_row_is_missing(parts: Seq<Tree>, show_all: bool, n: int, pi: usize, p: Seq<usize>)
    requires
        pi < n <= parts.len() <= usize::MAX,
    ensures
        disk_rows(parts, show_all, n).contains(ListRow::Disk { pi }),
        parts[pi as int].expanded && is_on_walk(
            WalkRule { open_only: true, with_reserved: show_all },
            parts[pi as int],
            p,
        ) ==> exists|i: int|
            0 <= i < disk_rows(parts, show_all, n).len() && (#[trigger] disk_rows(parts, show_all, n)[i]) is Child
                && disk_rows(parts, show_all, n)[i]->at == seq![pi] + p,
    decreases n,
{
    let before = disk_rows(parts, show_all, n - 1);
    let now = disk_rows(parts, show_all, n);
    let shown = parts[pi as int].expanded && is_on_walk(
        WalkRule { open_only: true, with_reserved: show_all },
        parts[pi as int],
        p,
    );
    if pi == n - 1 {
        assert(now[before.len() as int] == (ListRow::Disk { pi }));
        if shown {
            let rule = shown_walk(show_all);
            let t = parts[pi as int];
            law_walk_comes_by_everything_shown(rule, t, Seq::empty(), p);
            let sts = steps(rule, t, Seq::empty());
            let k = choose|k: int| 0 <= k < sts.len() && (#[trigger] sts[k]).at == p;
            assert(child_rows(t, pi, show_all)[k] == child_row(pi, sts[k]));
            assert(now[before.len() + 1 + k] == child_row(pi, sts[k]));
        }
    } else {
        law_no_row_is_missing(parts, show_all, n - 1, pi, p);
        let k = choose|k: int| 0 <= k < before.len() && before[k] == (ListRow::Disk { pi });
        assert(now[k] == (ListRow::Disk { pi }));
        if shown {
            let i = choose|i: int|
                0 <= i < before.len() && (#[trigger] before[i]) is Child && before[i]->at == seq![pi] + p;
            assert(now[i] == before[i]);
        }
    }
}

/// The path of what is on a disk is the path of the disk, without backslashes at its end, and then the
/// names on the way, with backslashes in between; but what notes where it truly is, is there.
pub proof fn law_paths_spell_the_way(parts: Seq<Tree>, roots: Seq<Seq<char>>, pi: usize, p: Seq<usize>)
    requires
        pi < parts.len(),
        pi < roots.len(),
        at_path(parts[pi as int], p) is Some,
    ensures
        full_path(parts, roots, seq![pi] + p) == match at_path(parts[pi as int], p)->0.full_path {
            Some(there) => there,
            None => spelled(parts[pi as int], trimmed(roots[pi as int]), p),
        },
{
    assert((seq![pi] + p).skip(1) =~= p);
    lemma_path_along(parts[pi as int], trimmed(roots[pi as int]), p);
}

proof fn lemma_path_along(t: Tree, path: Seq<char>, p: Seq<usize>)
    requires
        at_path(t, p) is Some,
    ensures
        path_along(t, path, p) == match at_path(t, p)->0.full_path {
            Some(there) => there,
            None => spelled(t, path, p),
        },
    decreases p.len(),
{
    if p.len() > 0 {
        let c = t.children[p[0] as int];
        assert(below(path, c.name) =~= if path.len() == 0 {
            c.name
        } else {
            path + seq!['\\'] + c.name
        });
        lemma_path_along(c, below(path, c.name), p.skip(1));
    }
}

} // verus!
