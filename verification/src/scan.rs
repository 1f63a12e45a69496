//! Scanning a directory tree entry by entry.
//!
//! Workers take directories off a shared queue, list them, and hand the listings in. A directory
//! becomes a node once all the directories below it have; that is passed on upwards in a loop, so
//! neither the depth of the tree nor the number of workers matters for the call stack.
use vstd::prelude::*;
use std::collections::VecDeque;
use dashmap::DashSet;

use crate::disk_info::DiskInfo;
use crate::model::{totals_fit, Color, Node};
#[allow(unused_imports)]
use crate::model::{
    adds_up, by_size, file_of, files_total, folder_of, folders_total, law_new_folder_adds_up,
    law_new_folder_keeps_what_it_is_given, lemma_by_size_is_preorder, logical_total, physical_total, sums_fit,
    trees, NodeKind, Tree,
};
#[allow(unused_imports)]
use crate::order::{lemma_sorted, lemma_total_concat, lemma_total_update, lemma_total_zero, total};
use crate::palette::{file_color, folder_color};
#[allow(unused_imports)]
use crate::palette::{file_color_of, folder_color_at};
use crate::seen::{insert_id, no_ids};
use crate::text::chars_of;
#[allow(unused_imports)]
use crate::seen::seen_ids;

verus! {

/// What a scan reports.
pub enum ScanMessage {
    /// How many entries there were so far.
    Progress(u64),
    /// The tree, and what is known of its disk.
    Done(Box<Node>, Option<DiskInfo>),
    /// Why there is no tree.
    Error(String),
}

/// The attribute of entries that stand for something elsewhere.
pub const FILE_ATTRIBUTE_REPARSE_POINT: u32 = 0x400;

/// One entry of a directory.
pub struct RawDirEntry {
    pub name: String,
    pub is_dir: bool,
    pub logical: u64,
    pub physical: u64,
    pub attrs: u32,
    pub modified_ft: u64,
    pub created_ft: u64,
    pub accessed_ft: u64,
    /// What tells files of a volume apart; 0 if unknown.
    pub file_id: u64,
    /// The tag of a directory that is a reparse point, else 0.
    pub reparse_tag: u32,
}

/// The mathematical content of a [`RawDirEntry`].
pub struct Entry {
    pub name: Seq<char>,
    pub is_dir: bool,
    pub logical: u64,
    pub physical: u64,
    pub attrs: u32,
    pub modified_ft: u64,
    pub created_ft: u64,
    pub accessed_ft: u64,
    pub file_id: u64,
    pub reparse_tag: u32,
}

impl View for RawDirEntry {
    type V = Entry;

    open spec fn view(&self) -> Entry {
        Entry {
            name: self.name@,
            is_dir: self.is_dir,
            logical: self.logical,
            physical: self.physical,
            attrs: self.attrs,
            modified_ft: self.modified_ft,
            created_ft: self.created_ft,
            accessed_ft: self.accessed_ft,
            file_id: self.file_id,
            reparse_tag: self.reparse_tag,
        }
    }
}

pub open spec fn entries_of(v: Seq<RawDirEntry>) -> Seq<Entry> {
    Seq::new(v.len(), |i: int| v[i]@)
}

/// Whether an entry is a directory to be looked into. One that stands for another place is not:
/// what is there would count twice.
pub open spec fn is_subdirectory(e: Entry) -> bool {
    e.is_dir && e.attrs & FILE_ATTRIBUTE_REPARSE_POINT == 0
}

/// The directories to be looked into, in order.
pub open spec fn subdirectories(es: Seq<Entry>) -> Seq<Entry>
    decreases es.len(),
{
    if es.len() == 0 {
        Seq::empty()
    } else if is_subdirectory(es.last()) {
        subdirectories(es.drop_last()).push(es.last())
    } else {
        subdirectories(es.drop_last())
    }
}

/// The node of an entry that is not looked into, at depth `depth`. A file met before under another
/// name takes no more room; one without an id cannot be told to be such a file.
pub open spec fn leaf_of(e: Entry, depth: nat, seen: Set<u64>) -> Tree {
    if e.is_dir {
        folder_of(
            e.name,
            folder_color_at(depth),
            Seq::empty(),
            e.modified_ft,
            e.created_ft,
            e.accessed_ft,
            e.attrs,
            e.reparse_tag,
            false,
            Seq::empty(),
        )
    } else {
        file_of(
            e.name,
            e.logical,
            if e.file_id != 0 && seen.contains(e.file_id) {
                0
            } else {
                e.physical
            },
            file_color_of(),
            e.modified_ft,
            e.created_ft,
            e.accessed_ft,
            e.attrs,
            0,
            false,
            Seq::empty(),
        )
    }
}

/// The ids met once `e` has been.
pub open spec fn seen_after(e: Entry, seen: Set<u64>) -> Set<u64> {
    if !e.is_dir && e.file_id != 0 {
        seen.insert(e.file_id)
    } else {
        seen
    }
}

/// The ids met once `es` have been.
pub open spec fn seen_after_all(es: Seq<Entry>, seen: Set<u64>) -> Set<u64>
    decreases es.len(),
{
    if es.len() == 0 {
        seen
    } else {
        seen_after(es.last(), seen_after_all(es.drop_last(), seen))
    }
}

/// The nodes of the entries that are not looked into, in order, at depth `depth`.
pub open spec fn leaves(es: Seq<Entry>, depth: nat, seen: Set<u64>) -> Seq<Tree>
    decreases es.len(),
{
    if es.len() == 0 {
        Seq::empty()
    } else {
        let before = leaves(es.drop_last(), depth, seen);
        if is_subdirectory(es.last()) {
            before
        } else {
            before.push(leaf_of(es.last(), depth, seen_after_all(es.drop_last(), seen)))
        }
    }
}

/// How far a directory has got.
#[derive(Clone, Copy, PartialEq, Eq, Debug, Structural)]
pub enum Progress {
    /// Its entries have not been handed in.
    Waiting,
    /// This many of the directories in it are not done; there is at least one.
    Open(usize),
    /// It has become a node.
    Done,
}

/// A directory that is becoming a node.
pub struct DirTask {
    pub name: String,
    pub color: Color,
    pub self_modified: u64,
    pub self_created: u64,
    pub self_accessed: u64,
    pub self_attrs: u32,
    /// The number of the directory that it stands in.
    pub parent: Option<usize>,
    pub progress: Progress,
    /// The children found so far.
    pub children: Vec<Node>,
}

/// The mathematical content of a [`DirTask`].
pub struct Task {
    pub name: Seq<char>,
    pub color: Color,
    pub self_modified: u64,
    pub self_created: u64,
    pub self_accessed: u64,
    pub self_attrs: u32,
    pub parent: Option<usize>,
    pub progress: Progress,
    pub children: Seq<Tree>,
}

impl View for DirTask {
    type V = Task;

    open spec fn view(&self) -> Task {
        Task {
            name: self.name@,
            color: self.color,
            self_modified: self.self_modified,
            self_created: self.self_created,
            self_accessed: self.self_accessed,
            self_attrs: self.self_attrs,
            parent: self.parent,
            progress: self.progress,
            children: trees(self.children@),
        }
    }
}

pub open spec fn tasks_of(v: Seq<DirTask>) -> Seq<Task> {
    Seq::new(v.len(), |i: int| v[i]@)
}

/// The node that a directory becomes.
pub open spec fn finished(t: Task) -> Tree {
    folder_of(
        t.name,
        t.color,
        t.children,
        t.self_modified,
        t.self_created,
        t.self_accessed,
        t.self_attrs,
        0,
        false,
        Seq::empty(),
    )
}

/// The directories, and the node of the first of them once it is done.
pub struct Board {
    pub tasks: Seq<Task>,
    pub root: Option<Tree>,
}

/// Directory `i` has nothing left to wait for: it becomes a node and joins its parent, which may
/// then have nothing left to wait for either. `None` if the sizes in one of them add up to more
/// than 64 bits can hold.
pub open spec fn completed(b: Board, i: int) -> Option<Board>
    decreases i,
{
    let t = b.tasks[i];
    if !sums_fit(t.children) {
        None
    } else {
        let done = b.tasks.update(i, Task { progress: Progress::Done, children: Seq::empty(), ..t });
        match t.parent {
            None => Some(Board { tasks: done, root: Some(finished(t)) }),
            Some(p) => {
                let up = done[p as int];
                let left = match up.progress {
                    Progress::Open(n) => n - 1,
                    _ => 0,
                };
                let joined = Task { children: up.children.push(finished(t)), ..up };
                if left > 0 {
                    let open = Task { progress: Progress::Open(left as usize), ..joined };
                    Some(Board { tasks: done.update(p as int, open), root: b.root })
                } else if p < i {
                    completed(Board { tasks: done.update(p as int, joined), root: b.root }, p as int)
                } else {
                    None
                }
            },
        }
    }
}

/// The directory that entry `e` of directory `parent`, at depth `depth`, starts as.
pub open spec fn new_task(e: Entry, parent: usize, depth: nat) -> Task {
    Task {
        name: e.name,
        color: folder_color_at(depth),
        self_modified: e.modified_ft,
        self_created: e.created_ft,
        self_accessed: e.accessed_ft,
        self_attrs: e.attrs,
        parent: Some(parent),
        progress: Progress::Waiting,
        children: Seq::empty(),
    }
}

/// The directories that `subs`, in directory `parent`, start as.
pub open spec fn new_tasks(subs: Seq<Entry>, parent: usize, depth: nat) -> Seq<Task> {
    Seq::new(subs.len(), |k: int| new_task(subs[k], parent, depth))
}

/// The entries `es` of directory `i`, whose entries stand at depth `depth`, have been handed in.
pub open spec fn listed(b: Board, i: int, depth: nat, es: Seq<Entry>, seen: Set<u64>) -> Option<Board> {
    let t = b.tasks[i];
    let with_leaves = Task { children: t.children + leaves(es, depth, seen), ..t };
    let subs = subdirectories(es);
    if subs.len() == 0 {
        completed(Board { tasks: b.tasks.update(i, with_leaves), root: b.root }, i)
    } else {
        let open = Task { progress: Progress::Open(subs.len() as usize), ..with_leaves };
        Some(Board { tasks: b.tasks.update(i, open) + new_tasks(subs, i as usize, depth), root: b.root })
    }
}

// ---------------------------------------------------------------------------------------------
// What holds at any time during a scan
// ---------------------------------------------------------------------------------------------

/// How many directories in directory `i` are not done.
pub open spec fn undone_in(tasks: Seq<Task>, i: int) -> nat {
    total(tasks, |t: Task| if t.parent == Some(i as usize) && t.progress != Progress::Done { 1nat } else { 0 })
}

/// How many directories have not been listed.
pub open spec fn waiting(tasks: Seq<Task>) -> nat {
    total(tasks, |t: Task| if t.progress == Progress::Waiting { 1nat } else { 0 })
}

/// Whether the state of directory `i` tells the truth about the directories in it.
pub open spec fn truthful(tasks: Seq<Task>, i: int) -> bool {
    match tasks[i].progress {
        Progress::Waiting => forall|k: int|
            0 <= k < tasks.len() ==> (#[trigger] tasks[k]).parent != Some(i as usize),
        Progress::Open(n) => n > 0 && n == undone_in(tasks, i),
        Progress::Done => undone_in(tasks, i) == 0,
    }
}

/// Whether every directory but the first stands in an earlier one.
pub open spec fn rooted(tasks: Seq<Task>) -> bool {
    &&& 0 < tasks.len() <= usize::MAX
    &&& tasks[0].parent is None
    &&& forall|k: int|
        0 < k < tasks.len() ==> (#[trigger] tasks[k]).parent is Some && tasks[k].parent->0 < k
}

/// What holds of the directories at any time between two steps.
pub open spec fn sound(b: Board) -> bool {
    &&& rooted(b.tasks)
    &&& forall|i: int| 0 <= i < b.tasks.len() ==> #[trigger] truthful(b.tasks, i)
    &&& (b.root is Some <==> b.tasks[0].progress == Progress::Done)
}

/// What holds when directory `i` has just lost the last one it was waiting for.
pub open spec fn sound_but(b: Board, i: int) -> bool {
    &&& rooted(b.tasks)
    &&& 0 <= i < b.tasks.len()
    &&& forall|k: int| 0 <= k < b.tasks.len() && k != i ==> #[trigger] truthful(b.tasks, k)
    &&& b.tasks[i].progress != Progress::Done
    &&& undone_in(b.tasks, i) == 0
    &&& b.root is None
}

/// Once no directory waits to be listed, the whole scan is done: its root is there. So a worker
/// that finds the queue empty and nothing waiting may stop, and none stops too early.
pub proof fn law_nothing_waiting_means_done(b: Board)
    requires
        sound(b),
        waiting(b.tasks) == 0,
    ensures
        b.root is Some,
{
    lemma_total_zero(b.tasks, |t: Task| if t.progress == Progress::Waiting { 1nat } else { 0 });
    lemma_all_done(b, 0);
}

/// While nothing waits, every directory is done: one that is not would hold a later one that is
/// not done either, and so on without end.
proof fn lemma_all_done(b: Board, i: int)
    requires
        sound(b),
        forall|k: int| 0 <= k < b.tasks.len() ==> (#[trigger] b.tasks[k]).progress != Progress::Waiting,
        0 <= i < b.tasks.len(),
    ensures
        b.tasks[i].progress == Progress::Done,
    decreases b.tasks.len() - i,
{
    if b.tasks[i].progress != Progress::Done {
        let f = |t: Task| if t.parent == Some(i as usize) && t.progress != Progress::Done { 1nat } else { 0 };
        assert(truthful(b.tasks, i));
        lemma_total_zero(b.tasks, f);
        let k = choose|k: int| 0 <= k < b.tasks.len() && f(#[trigger] b.tasks[k]) != 0;
        assert(b.tasks[k].parent == Some(i as usize));
        assert(k > i);
        lemma_all_done(b, k);
    }
}

/// What holds between two steps still holds after a directory has become a node.
proof fn lemma_completed_sound(b: Board, i: int)
    requires
        sound_but(b, i),
        completed(b, i) is Some,
    ensures
        ({
            let c = completed(b, i)->0;
            &&& sound(c)
            &&& c.tasks.len() == b.tasks.len()
            &&& waiting(c.tasks) + (if b.tasks[i].progress == Progress::Waiting { 1nat } else { 0 }) == waiting(
                b.tasks,
            )
            &&& forall|k: int|
                0 <= k < b.tasks.len() && k != i ==> ((#[trigger] c.tasks[k]).progress == Progress::Waiting)
                    == (b.tasks[k].progress == Progress::Waiting)
            &&& forall|k: int|
                0 <= k < b.tasks.len() && (b.tasks[k].progress == Progress::Done || k == i) ==> (
                #[trigger] c.tasks[k]).progress == Progress::Done
        }),
    decreases i,
{
    let t = b.tasks[i];
    let fin = Task { progress: Progress::Done, children: Seq::empty(), ..t };
    let done = b.tasks.update(i, fin);
    let w = |t: Task| if t.progress == Progress::Waiting { 1nat } else { 0 };
    lemma_total_update(b.tasks, w, i, fin);
    assert forall|k: int| 0 <= k < b.tasks.len() implies undone_in(done, k) + (if t.parent == Some(k as usize) {
        1nat
    } else {
        0
    }) == #[trigger] undone_in(b.tasks, k) by {
        let f = |t: Task| if t.parent == Some(k as usize) && t.progress != Progress::Done { 1nat } else { 0 };
        lemma_total_update(b.tasks, f, i, fin);
    }
    match t.parent {
        None => {
            assert(i == 0);
            let c = completed(b, i)->0;
            assert forall|k: int| 0 <= k < c.tasks.len() implies #[trigger] truthful(c.tasks, k) by {
                if k != i {
                    assert(truthful(b.tasks, k));
                    assert(undone_in(c.tasks, k) == undone_in(b.tasks, k));
                    if b.tasks[k].progress == Progress::Waiting {
                        lemma_no_children_kept(b.tasks, c.tasks, k);
                    }
                } else {
                    assert(undone_in(c.tasks, i) == undone_in(b.tasks, i));
                }
            }
        },
        Some(p) => {
            let pi = p as int;
            assert(pi < i);
            let up = done[pi];
            assert(up == b.tasks[pi]);
            assert(truthful(b.tasks, pi));
            lemma_parent_is_open(b.tasks, i, pi);
            let n = up.progress->Open_0;
            let joined = Task { children: up.children.push(finished(t)), ..up };
            let next = if n > 1 {
                Task { progress: Progress::Open((n - 1) as usize), ..joined }
            } else {
                joined
            };
            let after = done.update(pi, next);
            lemma_total_update(done, w, pi, next);
            assert forall|k: int| 0 <= k < b.tasks.len() implies undone_in(after, k) == #[trigger] undone_in(
                done,
                k,
            ) by {
                let f = |t: Task|
                    if t.parent == Some(k as usize) && t.progress != Progress::Done {
                        1nat
                    } else {
                        0
                    };
                lemma_total_update(done, f, pi, next);
            }
            let mid = Board { tasks: after, root: b.root };
            assert(rooted(after));
            assert forall|k: int| 0 <= k < after.len() && k != pi implies #[trigger] truthful(after, k) by {
                assert(undone_in(after, k) == undone_in(done, k));
                assert(undone_in(done, k) == undone_in(b.tasks, k));
                if k != i {
                    assert(truthful(b.tasks, k));
                    if b.tasks[k].progress == Progress::Waiting {
                        lemma_no_children_kept(b.tasks, after, k);
                    }
                }
            }
            assert(undone_in(after, pi) == undone_in(done, pi));
            assert(undone_in(done, pi) + 1 == undone_in(b.tasks, pi));
            if n > 1 {
                assert(truthful(after, pi));
                assert(completed(b, i) == Some(mid));
                assert(b.tasks[0].progress != Progress::Done) by {
                    lemma_root_not_done(b, i);
                }
                assert(sound(mid));
            } else {
                assert(completed(b, i) == completed(mid, pi));
                lemma_completed_sound(mid, pi);
            }
        },
    }
}

/// A change of progress or children leaves a directory without directories in it, if it had none.
proof fn lemma_no_children_kept(s: Seq<Task>, t: Seq<Task>, i: int)
    requires
        s.len() == t.len(),
        forall|k: int| 0 <= k < s.len() ==> (#[trigger] t[k]).parent == s[k].parent,
        forall|k: int| 0 <= k < s.len() ==> (#[trigger] s[k]).parent != Some(i as usize),
    ensures
        forall|k: int| 0 <= k < t.len() ==> (#[trigger] t[k]).parent != Some(i as usize),
{
    assert forall|k: int| 0 <= k < t.len() implies (#[trigger] t[k]).parent != Some(i as usize) by {
        assert(t[k].parent == s[k].parent);
    }
}

/// A directory with one in it that is not done is waiting for it.
proof fn lemma_parent_is_open(tasks: Seq<Task>, i: int, p: int)
    requires
        0 <= i < tasks.len(),
        0 <= p < tasks.len() <= usize::MAX,
        tasks[i].parent == Some(p as usize),
        tasks[i].progress != Progress::Done,
        truthful(tasks, p),
    ensures
        tasks[p].progress is Open,
{
    let f = |t: Task| if t.parent == Some(p as usize) && t.progress != Progress::Done { 1nat } else { 0 };
    lemma_total_zero(tasks, f);
    assert(f(tasks[i]) == 1);
}

/// While any directory is not done, the first is not.
proof fn lemma_root_not_done(b: Board, i: int)
    requires
        rooted(b.tasks),
        0 <= i < b.tasks.len(),
        b.tasks[i].progress != Progress::Done,
        forall|k: int| 0 <= k < b.tasks.len() && k != i ==> #[trigger] truthful(b.tasks, k),
    ensures
        b.tasks[0].progress != Progress::Done,
    decreases i,
{
    if i > 0 {
        let p = b.tasks[i].parent->0 as int;
        assert(truthful(b.tasks, p));
        lemma_parent_is_open(b.tasks, i, p);
        lemma_climb(b.tasks, p, i);
    }
}

proof fn lemma_climb(tasks: Seq<Task>, p: int, skip: int)
    requires
        rooted(tasks),
        0 <= p < skip < tasks.len(),
        tasks[p].progress != Progress::Done,
        forall|k: int| 0 <= k < tasks.len() && k != skip ==> #[trigger] truthful(tasks, k),
    ensures
        tasks[0].progress != Progress::Done,
    decreases p,
{
    if p > 0 {
        let q = tasks[p].parent->0 as int;
        assert(truthful(tasks, q));
        lemma_parent_is_open(tasks, p, q);
        lemma_climb(tasks, q, skip);
    }
}

/// What holds between two steps still holds after the entries of a directory are handed in.
pub proof fn law_listing_keeps_sound(b: Board, i: int, depth: nat, es: Seq<Entry>, seen: Set<u64>)
    requires
        sound(b),
        0 <= i < b.tasks.len(),
        b.tasks[i].progress == Progress::Waiting,
        b.tasks.len() + subdirectories(es).len() <= usize::MAX,
        listed(b, i, depth, es, seen) is Some,
    ensures
        ({
            let c = listed(b, i, depth, es, seen)->0;
            &&& sound(c)
            &&& waiting(c.tasks) + 1 == waiting(b.tasks) + subdirectories(es).len()
            &&& c.tasks.len() == b.tasks.len() + subdirectories(es).len()
            &&& c.tasks[i].progress != Progress::Waiting
            &&& forall|k: int|
                0 <= k < b.tasks.len() && k != i ==> ((#[trigger] c.tasks[k]).progress == Progress::Waiting)
                    == (b.tasks[k].progress == Progress::Waiting)
        }),
{
    let t = b.tasks[i];
    let subs = subdirectories(es);
    let with_leaves = Task { children: t.children + leaves(es, depth, seen), ..t };
    let w = |t: Task| if t.progress == Progress::Waiting { 1nat } else { 0 };
    assert(truthful(b.tasks, i));
    if subs.len() == 0 {
        let mid = Board { tasks: b.tasks.update(i, with_leaves), root: b.root };
        lemma_total_update(b.tasks, w, i, with_leaves);
        assert forall|k: int| 0 <= k < b.tasks.len() implies undone_in(mid.tasks, k) == #[trigger] undone_in(
            b.tasks,
            k,
        ) by {
            let f = |t: Task|
                if t.parent == Some(k as usize) && t.progress != Progress::Done {
                    1nat
                } else {
                    0
                };
            lemma_total_update(b.tasks, f, i, with_leaves);
        }
        assert(undone_in(b.tasks, i) == 0) by {
            let f = |t: Task|
                if t.parent == Some(i as usize) && t.progress != Progress::Done {
                    1nat
                } else {
                    0
                };
            lemma_total_zero(b.tasks, f);
        }
        assert(undone_in(mid.tasks, i) == undone_in(b.tasks, i));
        assert forall|k: int| 0 <= k < mid.tasks.len() && k != i implies #[trigger] truthful(mid.tasks, k) by {
            assert(truthful(b.tasks, k));
            assert(undone_in(mid.tasks, k) == undone_in(b.tasks, k));
            if b.tasks[k].progress == Progress::Waiting {
                lemma_no_children_kept(b.tasks, mid.tasks, k);
            }
        }
        assert(b.tasks[0].progress != Progress::Done) by {
            lemma_root_not_done(b, i);
        }
        lemma_completed_sound(mid, i);
    } else {
        let open = Task { progress: Progress::Open(subs.len() as usize), ..with_leaves };
        let own = b.tasks.update(i, open);
        let fresh = new_tasks(subs, i as usize, depth);
        let c = Board { tasks: own + fresh, root: b.root };
        lemma_total_update(b.tasks, w, i, open);
        lemma_total_concat(own, fresh, w);
        lemma_ones(fresh, w);
        assert(rooted(c.tasks)) by {
            assert forall|k: int| 0 < k < c.tasks.len() implies (#[trigger] c.tasks[k]).parent is Some
                && c.tasks[k].parent->0 < k by {
                if k < own.len() {
                    assert(b.tasks[k].parent is Some);
                }
            }
        }
        assert forall|k: int| 0 <= k < c.tasks.len() implies #[trigger] truthful(c.tasks, k) by {
            let f = |t: Task|
                if t.parent == Some(k as usize) && t.progress != Progress::Done {
                    1nat
                } else {
                    0
                };
            lemma_total_concat(own, fresh, f);
            lemma_total_update(b.tasks, f, if k < b.tasks.len() { i } else { i }, open);
            if k == i {
                lemma_ones(fresh, f);
                lemma_total_zero(b.tasks, f);
            } else {
                lemma_total_zero(fresh, f);
                if k < own.len() {
                    assert(truthful(b.tasks, k));
                    if b.tasks[k].progress == Progress::Waiting {
                        assert forall|j: int| 0 <= j < c.tasks.len() implies (#[trigger] c.tasks[j]).parent
                            != Some(k as usize) by {
                            if j < own.len() {
                                assert(b.tasks[j].parent != Some(k as usize));
                            }
                        }
                    }
                } else {
                    assert forall|j: int| 0 <= j < c.tasks.len() implies (#[trigger] c.tasks[j]).parent
                        != Some(k as usize) by {
                        if j == 0 {
                        } else if j < own.len() {
                            assert(b.tasks[j].parent->0 < j);
                        }
                    }
                }
            }
        }
    }
}

/// Items that count 1 each sum up to their number.
proof fn lemma_ones<T>(s: Seq<T>, f: spec_fn(T) -> nat)
    requires
        forall|i: int| 0 <= i < s.len() ==> f(#[trigger] s[i]) == 1,
    ensures
        total(s, f) == s.len(),
    decreases s.len(),
{
    if s.len() > 0 {
        assert forall|i: int| 0 <= i < s.drop_last().len() implies f(#[trigger] s.drop_last()[i]) == 1 by {
            assert(f(s[i]) == 1);
        }
        lemma_ones(s.drop_last(), f);
        assert(f(s[s.len() - 1]) == 1);
    }
}

/// Hard links: of two entries with one id, the later takes up no more room; and the first entry
/// with an id not met before counts in full. Lengths always count in full.
pub proof fn law_each_id_takes_room_once(es: Seq<Entry>, depth: nat, seen: Set<u64>, i: int, j: int)
    requires
        0 <= i < j < es.len(),
        !es[i].is_dir,
        !es[j].is_dir,
        es[i].file_id != 0,
        es[i].file_id == es[j].file_id,
    ensures
        leaf_of(es[j], depth, seen_after_all(es.take(j), seen)).physical_size == 0,
        leaf_of(es[j], depth, seen_after_all(es.take(j), seen)).logical_size == es[j].logical,
        !seen_after_all(es.take(i), seen).contains(es[i].file_id) ==> leaf_of(
            es[i],
            depth,
            seen_after_all(es.take(i), seen),
        ).physical_size == es[i].physical,
{
    lemma_met_before(es.take(j), seen, i);
}

proof fn lemma_met_before(es: Seq<Entry>, seen: Set<u64>, i: int)
    requires
        0 <= i < es.len(),
        !es[i].is_dir,
        es[i].file_id != 0,
    ensures
        seen_after_all(es, seen).contains(es[i].file_id),
    decreases es.len(),
{
    if i < es.len() - 1 {
        lemma_met_before(es.drop_last(), seen, i);
    }
}

/// Whether a scan goes into what `e` names: a directory that does not stand for another place.
pub open spec fn is_gone_into(e: Entry) -> bool {
    e.is_dir && e.attrs / 0x400 % 2 == 0
}

/// Whether the room of entry `i` counts: directories have none of their own that is told apart, a file
/// without an id always has, and one with an id has where nothing with that id was met before.
pub open spec fn room_counts(es: Seq<Entry>, seen: Set<u64>, i: int) -> bool {
    es[i].file_id == 0 || (!seen.contains(es[i].file_id) && forall|j: int|
        0 <= j < i ==> (#[trigger] es[j]).is_dir || es[j].file_id != es[i].file_id)
}

/// Whether `n` tells of entry `i`, field by field. A directory that is not gone into is an empty
/// folder.
pub open spec fn tells_entry(es: Seq<Entry>, seen: Set<u64>, i: int, n: Tree) -> bool {
    let e = es[i];
    &&& n.name == e.name
    &&& n.modified_ft == e.modified_ft && n.created_ft == e.created_ft && n.accessed_ft == e.accessed_ft
    &&& e.attrs != 0 ==> n.attributes == e.attrs
    &&& n.children.len() == 0 && n.file_count == 0 && n.folder_count == 0
    &&& if e.is_dir {
        &&& n.kind == NodeKind::Folder
        &&& n.logical_size == 0 && n.physical_size == 0
        &&& n.reparse_tag == e.reparse_tag
        &&& e.attrs == 0 ==> n.attributes == 0x10
    } else {
        &&& n.kind == NodeKind::File
        &&& n.logical_size == e.logical
        &&& room_counts(es, seen, i) ==> n.physical_size == e.physical
        &&& !room_counts(es, seen, i) ==> n.physical_size == 0
        &&& n.reparse_tag == 0
        &&& e.attrs == 0 ==> n.attributes == 0x80
    }
}

/// The ids that were met before entry `i`.
proof fn lemma_seen_before(es: Seq<Entry>, seen: Set<u64>, id: u64)
    requires
        id != 0,
    ensures
        seen_after_all(es, seen).contains(id) <==> (seen.contains(id) || exists|j: int|
            0 <= j < es.len() && !(#[trigger] es[j]).is_dir && es[j].file_id == id),
    decreases es.len(),
{
    if es.len() > 0 {
        let front = es.drop_last();
        lemma_seen_before(front, seen, id);
        if exists|j: int| 0 <= j < front.len() && !(#[trigger] front[j]).is_dir && front[j].file_id == id {
            let j = choose|j: int| 0 <= j < front.len() && !(#[trigger] front[j]).is_dir && front[j].file_id == id;
            assert(!es[j].is_dir && es[j].file_id == id);
        }
        if exists|j: int| 0 <= j < es.len() && !(#[trigger] es[j]).is_dir && es[j].file_id == id {
            let j = choose|j: int| 0 <= j < es.len() && !(#[trigger] es[j]).is_dir && es[j].file_id == id;
            if j < front.len() {
                assert(!front[j].is_dir && front[j].file_id == id);
            }
        }
        let last = es[es.len() - 1];
        if !last.is_dir && last.file_id == id {
            assert(seen_after_all(es, seen).contains(id));
        }
    }
}

proof fn lemma_gone_into(e: Entry)
    ensures
        is_subdirectory(e) == is_gone_into(e),
{
    let a = e.attrs;
    assert((a & 0x400 == 0) == (a / 0x400 % 2 == 0)) by (bit_vector);
}

/// Whether `o` lists, in their order, the numbers of exactly those entries that are gone into, or, if
/// `into` is false, of exactly the others.
pub open spec fn picks(es: Seq<Entry>, into: bool, o: Seq<int>) -> bool {
    &&& forall|k: int| 0 <= k < o.len() ==> 0 <= #[trigger] o[k] < es.len()
    &&& forall|k: int, l: int| 0 <= k < l < o.len() ==> #[trigger] o[k] < #[trigger] o[l]
    &&& forall|i: int| 0 <= i < es.len() ==> (is_gone_into(#[trigger] es[i]) == into <==> o.contains(i))
}

proof fn lemma_picks_more(es: Seq<Entry>, into: bool, o: Seq<int>)
    requires
        es.len() > 0,
        picks(es.drop_last(), into, o),
    ensures
        is_gone_into(es.last()) == into ==> picks(es, into, o.push(es.len() - 1)),
        is_gone_into(es.last()) != into ==> picks(es, into, o),
{
    let n = es.len() - 1;
    let front = es.drop_last();
    let more = o.push(n);
    assert forall|i: int| 0 <= i < es.len() && is_gone_into(es.last()) == into implies (is_gone_into(#[trigger] es[i])
        == into <==> more.contains(i)) by {
        if i < n {
            assert(front[i] == es[i]);
            if o.contains(i) {
                let k = choose|k: int| 0 <= k < o.len() && o[k] == i;
                assert(more[k] == i);
            }
            if more.contains(i) {
                let k = choose|k: int| 0 <= k < more.len() && more[k] == i;
                assert(o[k] == i);
            }
        } else {
            assert(more[o.len() as int] == i);
        }
    }
    assert forall|i: int| 0 <= i < es.len() && is_gone_into(es.last()) != into implies (is_gone_into(#[trigger] es[i])
        == into <==> o.contains(i)) by {
        if i < n {
            assert(front[i] == es[i]);
        } else if o.contains(i) {
            let k = choose|k: int| 0 <= k < o.len() && o[k] == i;
            assert(o[k] < n);
        }
    }
}

/// Every entry that a scan does not go into has a node that tells of it, and there are no other nodes;
/// they stand in the order of the entries. `o` says which node is of which entry.
pub proof fn law_leaves_tell_of_their_entries(es: Seq<Entry>, depth: nat, seen: Set<u64>) -> (o: Seq<int>)
    ensures
        picks(es, false, o),
        o.len() == leaves(es, depth, seen).len(),
        forall|k: int| 0 <= k < o.len() ==> tells_entry(es, seen, o[k], #[trigger] leaves(es, depth, seen)[k]),
    decreases es.len(),
{
    if es.len() == 0 {
        Seq::empty()
    } else {
        let front = es.drop_last();
        let n = es.len() - 1;
        let before = leaves(front, depth, seen);
        let now = leaves(es, depth, seen);
        let o = law_leaves_tell_of_their_entries(front, depth, seen);
        lemma_picks_more(es, false, o);
        lemma_gone_into(es.last());
        assert forall|k: int| 0 <= k < o.len() implies tells_entry(es, seen, o[k], #[trigger] now[k]) by {
            assert(now[k] == before[k]);
            assert(tells_entry(front, seen, o[k], before[k]));
            assert(room_counts(front, seen, o[k]) == room_counts(es, seen, o[k])) by {
                assert forall|j: int| 0 <= j < o[k] implies front[j] == es[j] by {}
                assert(front[o[k]] == es[o[k]]);
                if room_counts(front, seen, o[k]) && es[o[k]].file_id != 0 {
                    assert forall|j: int| 0 <= j < o[k] implies (#[trigger] es[j]).is_dir || es[j].file_id
                        != es[o[k]].file_id by {
                        assert(front[j].is_dir || front[j].file_id != front[o[k]].file_id);
                    }
                }
                if room_counts(es, seen, o[k]) && es[o[k]].file_id != 0 {
                    assert forall|j: int| 0 <= j < o[k] implies (#[trigger] front[j]).is_dir || front[j].file_id
                        != front[o[k]].file_id by {
                        assert(es[j].is_dir || es[j].file_id != es[o[k]].file_id);
                    }
                }
            }
        }
        if is_subdirectory(es.last()) {
            o
        } else {
            let e = es.last();
            let more = o.push(n);
            let met = seen_after_all(front, seen);
            if e.file_id != 0 {
                lemma_seen_before(front, seen, e.file_id);
                assert(met.contains(e.file_id) == !room_counts(es, seen, n)) by {
                    if met.contains(e.file_id) && !seen.contains(e.file_id) {
                        let j = choose|j: int|
                            0 <= j < front.len() && !(#[trigger] front[j]).is_dir && front[j].file_id == e.file_id;
                        assert(!es[j].is_dir && es[j].file_id == es[n].file_id);
                    }
                    if !met.contains(e.file_id) {
                        assert forall|j: int| 0 <= j < n implies (#[trigger] es[j]).is_dir || es[j].file_id
                            != es[n].file_id by {
                            assert(front[j].is_dir || front[j].file_id != e.file_id);
                        }
                    }
                }
            }
            let t = leaf_of(e, depth, met);
            if e.is_dir {
                assert(total(Seq::<Tree>::empty(), |c: Tree| c.logical_size as nat) == 0);
                lemma_sorted(Seq::<Tree>::empty(), by_size());
            }
            assert(tells_entry(es, seen, n, t));
            assert forall|k: int| 0 <= k < more.len() implies tells_entry(es, seen, more[k], #[trigger] now[k]) by {
                if k < o.len() {
                    assert(now[k] == before[k]);
                } else {
                    assert(now[k] == t);
                }
            }
            more
        }
    }
}

/// The directories that a scan goes into are exactly those entries that are directories and do not
/// stand for another place, in the order of the entries.
pub proof fn law_directories_are_gone_into(es: Seq<Entry>) -> (o: Seq<int>)
    ensures
        picks(es, true, o),
        o.len() == subdirectories(es).len(),
        forall|k: int| 0 <= k < o.len() ==> #[trigger] subdirectories(es)[k] == es[o[k]],
    decreases es.len(),
{
    if es.len() == 0 {
        Seq::empty()
    } else {
        let front = es.drop_last();
        let o = law_directories_are_gone_into(front);
        lemma_picks_more(es, true, o);
        lemma_gone_into(es.last());
        if is_subdirectory(es.last()) {
            o.push(es.len() - 1)
        } else {
            o
        }
    }
}

/// A directory that a scan went into becomes a folder that tells of its entry, with the children that
/// were found in it.
pub proof fn law_directories_tell_of_their_entries(e: Entry, parent: usize, depth: nat, ch: Seq<Tree>)
    requires
        sums_fit(ch),
        ch.len() <= usize::MAX,
    ensures
        ({
            let n = finished(Task { children: ch, ..new_task(e, parent, depth) });
            &&& n.kind == NodeKind::Folder
            &&& n.name == e.name
            &&& n.created_ft == e.created_ft && n.accessed_ft == e.accessed_ft
            &&& n.modified_ft >= e.modified_ft
            &&& forall|i: int| 0 <= i < ch.len() ==> n.modified_ft >= (#[trigger] ch[i]).modified_ft
            &&& e.attrs != 0 ==> n.attributes == e.attrs
            &&& n.children.len() == ch.len()
            &&& n.logical_size == logical_total(ch) && n.physical_size == physical_total(ch)
            &&& new_task(e, parent, depth).parent == Some(parent)
            &&& new_task(e, parent, depth).progress is Waiting
        }),
{
    law_new_folder_keeps_what_it_is_given(
        e.name,
        folder_color_at(depth),
        ch,
        e.modified_ft,
        e.created_ft,
        e.accessed_ft,
        e.attrs,
        0,
        false,
        Seq::empty(),
    );
    lemma_by_size_is_preorder();
    lemma_sorted(ch, by_size());
}

// ---------------------------------------------------------------------------------------------
// A scan
// ---------------------------------------------------------------------------------------------

/// A directory to be listed.
pub struct WorkItem {
    pub path: String,
    pub depth: usize,
    /// Its number among the directories of the scan.
    pub task: usize,
}

/// What a worker is to do.
pub enum NextItem {
    /// List this directory.
    Item(WorkItem),
    /// Wait until others have handed in theirs.
    Wait,
    /// Stop: everything is done.
    Finished,
}

/// The sizes in a directory add up to more than 64 bits can hold: the scan cannot go on.
#[derive(Clone, Copy, PartialEq, Eq, Debug, Structural)]
pub struct SizesTooLarge;

/// A scan under way.
pub struct ScanTree {
    pub tasks: Vec<DirTask>,
    pub root: Option<Node>,
    pub queue: VecDeque<WorkItem>,
    /// How many directories have not been handed in.
    pub outstanding: usize,
    /// How many entries there have been.
    pub counter: u64,
    pub seen: DashSet<u64>,
    /// What stands between the names in a path.
    pub separator: char,
}

/// Whether a path is a drive and nothing more, such as `C:`: names behind it are looked up in the
/// directory that is current on that drive.
pub open spec fn is_bare_drive(path: Seq<char>) -> bool {
    path.len() == 2 && path[1] == ':' && ('a' <= path[0] <= 'z' || 'A' <= path[0] <= 'Z')
}

/// The path of entry `name` in the directory at `path`.
pub open spec fn entry_path(path: Seq<char>, separator: char, name: Seq<char>) -> Seq<char> {
    if path.len() == 0 || path.last() == separator || (separator == '\\' && (path.last() == '/' || is_bare_drive(
        path,
    ))) {
        path + name
    } else {
        path.push(separator) + name
    }
}

fn join_entry(path: &String, separator: char, name: &String) -> (r: String)
    ensures
        r@ == entry_path(path@, separator, name@),
{
    let v = chars_of(path.as_str());
    let mut out = path.clone();
    if v.len() > 0 {
        let last: char = v[v.len() - 1];
        let bare_drive = v.len() == 2 && v[1] == ':' && (('a' <= v[0] && v[0] <= 'z') || ('A' <= v[0] && v[0]
            <= 'Z'));
        if !(last == separator || (separator == '\\' && (last == '/' || bare_drive))) {
            out.push(separator);
        }
    }
    out.append(name.as_str());
    out
}

pub open spec fn opt_tree(n: Option<Node>) -> Option<Tree> {
    match n {
        Some(n) => Some(n@),
        None => None,
    }
}

impl ScanTree {
    /// The directories, and the node of the first of them once it is done.
    pub open spec fn board(&self) -> Board {
        Board { tasks: tasks_of(self.tasks@), root: opt_tree(self.root) }
    }

    /// Whether directory `task` has been given out to be listed and has not been handed in.
    pub open spec fn in_flight(&self, task: int) -> bool {
        &&& 0 <= task < self.tasks@.len()
        &&& self.tasks@[task].progress == Progress::Waiting
        &&& forall|k: int| 0 <= k < self.queue@.len() ==> (#[trigger] self.queue@[k]).task != task
    }

    /// What holds at any time.
    pub open spec fn well_formed(&self) -> bool {
        &&& sound(self.board())
        &&& self.outstanding == waiting(self.board().tasks)
        &&& self.counter + 1 == files_found(self.board()) + folders_found(self.board())
        &&& forall|k: int|
            0 <= k < self.queue@.len() ==> (#[trigger] self.queue@[k]).task < self.tasks@.len()
                && self.tasks@[self.queue@[k].task as int].progress == Progress::Waiting
                && self.queue@[k].depth <= self.queue@[k].task
        &&& forall|j: int, k: int|
            0 <= j < k < self.queue@.len() ==> (#[trigger] self.queue@[j]).task != (
            #[trigger] self.queue@[k]).task
    }

    /// The start of a scan of the directory at `root`: it alone is to be listed.
    pub fn new(root: String, modified_ft: u64, attrs: u32, separator: char) -> (s: Self)
        ensures
            s.well_formed(),
            s.board() == (Board {
                tasks: seq![
                    Task {
                        name: root@,
                        color: folder_color_at(0),
                        self_modified: modified_ft,
                        self_created: 0,
                        self_accessed: 0,
                        self_attrs: attrs,
                        parent: None,
                        progress: Progress::Waiting,
                        children: Seq::empty(),
                    },
                ],
                root: None,
            }),
            s.queue@.len() == 1,
            s.queue@[0].path@ == root@,
            s.queue@[0].depth == 0,
            s.queue@[0].task == 0,
            s.counter == 0,
            seen_ids(s.seen) == Set::<u64>::empty(),
            s.separator == separator,
    {
        let mut tasks: Vec<DirTask> = Vec::new();
        tasks.push(
            DirTask {
                name: root.clone(),
                color: folder_color(0),
                self_modified: modified_ft,
                self_created: 0,
                self_accessed: 0,
                self_attrs: attrs,
                parent: None,
                progress: Progress::Waiting,
                children: Vec::new(),
            },
        );
        let mut queue: VecDeque<WorkItem> = VecDeque::new();
        queue.push_back(WorkItem { path: root, depth: 0, task: 0 });
        let s = ScanTree { tasks, root: None, queue, outstanding: 1, counter: 0, seen: no_ids(), separator };
        proof {
            let ts = s.board().tasks;
            let t = Task {
                name: root@,
                color: folder_color_at(0),
                self_modified: modified_ft,
                self_created: 0,
                self_accessed: 0,
                self_attrs: attrs,
                parent: None,
                progress: Progress::Waiting,
                children: Seq::empty(),
            };
            assert(ts[0].children =~= Seq::<Tree>::empty());
            assert(ts =~= seq![t]);
            let w = |t: Task| if t.progress == Progress::Waiting { 1nat } else { 0 };
            assert(ts.drop_last() =~= Seq::<Task>::empty());
            assert(total(ts.drop_last(), w) == 0);
            assert(waiting(ts) == 1);
            lemma_only_first_holds(
                s.board(),
                |c: Tree| c.file_count as nat + if c.kind == NodeKind::File { 1nat } else { 0nat },
                0,
                |r: Tree| r.file_count as nat,
            );
            lemma_only_first_holds(
                s.board(),
                |c: Tree| c.folder_count as nat + if c.kind == NodeKind::Folder { 1nat } else { 0nat },
                1,
                |r: Tree| r.folder_count as nat + 1,
            );
        }
        s
    }

    /// What a worker is to do: the directory that has been in the queue longest is given out.
    pub fn next_item(&mut self) -> (next: NextItem)
        requires
            old(self).well_formed(),
        ensures
            final(self).well_formed(),
            final(self).board() == old(self).board(),
            final(self).counter == old(self).counter,
            final(self).seen == old(self).seen,
            final(self).separator == old(self).separator,
            match next {
                NextItem::Item(item) => {
                    &&& old(self).queue@.len() > 0
                    &&& item == old(self).queue@[0]
                    &&& final(self).queue@ == old(self).queue@.skip(1)
                    &&& final(self).in_flight(item.task as int)
                    &&& item.depth <= item.task
                },
                NextItem::Wait => {
                    &&& old(self).queue@.len() == 0
                    &&& final(self).queue@ == old(self).queue@
                    &&& waiting(old(self).board().tasks) > 0
                },
                NextItem::Finished => {
                    &&& old(self).queue@.len() == 0
                    &&& final(self).queue@ == old(self).queue@
                    &&& waiting(old(self).board().tasks) == 0
                    &&& final(self).root is Some
                    &&& final(self).counter == final(self).root->0@.file_count
                        + final(self).root->0@.folder_count
                },
            },
    {
        match self.queue.pop_front() {
            Some(item) => {
                assert(self.queue@ =~= old(self).queue@.skip(1));
                assert forall|k: int| 0 <= k < self.queue@.len() implies (#[trigger] self.queue@[k])
                    == old(self).queue@[k + 1] by {}
                NextItem::Item(item)
            },
            None => {
                if self.outstanding == 0 {
                    proof {
                        law_nothing_waiting_means_done(self.board());
                        law_root_holds_all_that_was_found(self.board());
                    }
                    NextItem::Finished
                } else {
                    NextItem::Wait
                }
            },
        }
    }
}

/// Sorts the entries of a directory, which stand at depth `depth`, into nodes and directories to be
/// looked into.
fn sort_out(entries: Vec<RawDirEntry>, depth: usize, seen: &mut DashSet<u64>) -> (r: (
    Vec<Node>,
    Vec<RawDirEntry>,
))
    ensures
        trees(r.0@) == leaves(entries_of(entries@), depth as nat, seen_ids(*old(seen))),
        entries_of(r.1@) == subdirectories(entries_of(entries@)),
        seen_ids(*final(seen)) == seen_after_all(entries_of(entries@), seen_ids(*old(seen))),
{
    let ghost es = entries_of(entries@);
    let ghost seen0 = seen_ids(*seen);
    let ghost all = entries@;
    let mut nodes: Vec<Node> = Vec::new();
    let mut subs: Vec<RawDirEntry> = Vec::new();
    assert(es.take(0) =~= Seq::<Entry>::empty());
    for e in it: entries
        invariant
            it.seq() == all,
            es == entries_of(all),
            trees(nodes@) =~= leaves(es.take(it.index()), depth as nat, seen0),
            entries_of(subs@) =~= subdirectories(es.take(it.index())),
            seen_ids(*seen) == seen_after_all(es.take(it.index()), seen0),
    {
        let ghost k = it.index();
        let ghost m = e@;
        proof {
            assert(m == es[k]);
            assert(es.take(k + 1).drop_last() =~= es.take(k));
            assert(es.take(k + 1).last() == m);
        }
        let ghost nodes0 = nodes@;
        if e.is_dir {
            if e.attrs & FILE_ATTRIBUTE_REPARSE_POINT != 0 {
                let none: Vec<Node> = Vec::new();
                assert(trees(none@) =~= Seq::<Tree>::empty());
                let node = Node::new_folder_with_meta(
                    e.name,
                    folder_color(depth),
                    none,
                    e.modified_ft,
                    e.created_ft,
                    e.accessed_ft,
                    e.attrs,
                    e.reparse_tag,
                    false,
                    String::new(),
                );
                nodes.push(node);
                assert(trees(nodes@) =~= trees(nodes0).push(node@));
            } else {
                let ghost subs0 = subs@;
                subs.push(e);
                assert(entries_of(subs@) =~= entries_of(subs0).push(m));
            }
        } else {
            let physical: u64 = if e.file_id != 0 {
                if insert_id(seen, e.file_id) {
                    e.physical
                } else {
                    0
                }
            } else {
                e.physical
            };
            let node = Node::new_file_with_meta(
                e.name,
                e.logical,
                physical,
                file_color(),
                e.modified_ft,
                e.created_ft,
                e.accessed_ft,
                e.attrs,
                0,
                false,
                String::new(),
            );
            nodes.push(node);
            assert(trees(nodes@) =~= trees(nodes0).push(node@));
        }
    }
    assert(es.take(es.len() as int) =~= es);
    (nodes, subs)
}

proof fn lemma_at_most_one_each<T>(s: Seq<T>, f: spec_fn(T) -> nat)
    requires
        forall|i: int| 0 <= i < s.len() ==> f(#[trigger] s[i]) <= 1,
    ensures
        total(s, f) <= s.len(),
    decreases s.len(),
{
    if s.len() > 0 {
        assert forall|i: int| 0 <= i < s.drop_last().len() implies f(#[trigger] s.drop_last()[i]) <= 1 by {
            assert(f(s[i]) <= 1);
        }
        lemma_at_most_one_each(s.drop_last(), f);
        assert(f(s[s.len() - 1]) <= 1);
    }
}

impl ScanTree {
    /// Directory `task` has nothing left to wait for.
    fn complete(&mut self, task: usize) -> (ok: bool)
        requires
            sound_but(old(self).board(), task as int),
        ensures
            final(self).queue == old(self).queue,
            final(self).outstanding == old(self).outstanding,
            final(self).counter == old(self).counter,
            final(self).seen == old(self).seen,
            final(self).separator == old(self).separator,
            ok == completed(old(self).board(), task as int) is Some,
            ok ==> final(self).board() == completed(old(self).board(), task as int)->0,
    {
        let mut cur: usize = task;
        let ghost goal = completed(self.board(), task as int);
        loop
            invariant
                sound_but(self.board(), cur as int),
                completed(self.board(), cur as int) == goal,
                goal == completed(old(self).board(), task as int),
                self.queue == old(self).queue,
                self.outstanding == old(self).outstanding,
                self.counter == old(self).counter,
                self.seen == old(self).seen,
                self.separator == old(self).separator,
            decreases cur,
        {
            let ghost b = self.board();
            let ghost t = b.tasks[cur as int];
            if !totals_fit(&self.tasks[cur].children) {
                return false;
            }
            let mut children: Vec<Node> = Vec::new();
            std::mem::swap(&mut children, &mut self.tasks[cur].children);
            self.tasks[cur].progress = Progress::Done;
            let node = Node::new_folder_with_meta(
                self.tasks[cur].name.clone(),
                self.tasks[cur].color,
                children,
                self.tasks[cur].self_modified,
                self.tasks[cur].self_created,
                self.tasks[cur].self_accessed,
                self.tasks[cur].self_attrs,
                0,
                false,
                String::new(),
            );
            let ghost fin = Task { progress: Progress::Done, children: Seq::empty(), ..t };
            let ghost done = b.tasks.update(cur as int, fin);
            proof {
                assert(node@ == finished(t));
                assert(self.board().tasks[cur as int].children =~= Seq::<Tree>::empty());
                assert(self.board().tasks =~= done);
            }
            match self.tasks[cur].parent {
                None => {
                    self.root = Some(node);
                    assert(self.board().tasks =~= done);
                    return true;
                },
                Some(p) => {
                    proof {
                        assert(p < cur);
                        assert(truthful(b.tasks, p as int));
                        lemma_parent_is_open(b.tasks, cur as int, p as int);
                        lemma_up(b, cur as int);
                    }
                    let ghost had = self.tasks@[p as int].children@;
                    self.tasks[p].children.push(node);
                    assert(trees(self.tasks@[p as int].children@) =~= trees(had).push(node@));
                    match self.tasks[p].progress {
                        Progress::Open(n) => {
                            if n > 1 {
                                self.tasks[p].progress = Progress::Open(n - 1);
                                assert(self.board().tasks =~= done.update(
                                    p as int,
                                    Task {
                                        progress: Progress::Open((n - 1) as usize),
                                        children: done[p as int].children.push(finished(t)),
                                        ..done[p as int]
                                    },
                                ));
                                return true;
                            }
                        },
                        _ => {
                            assert(false);
                        },
                    }
                    assert(self.board().tasks =~= done.update(
                        p as int,
                        Task {
                            children: done[p as int].children.push(finished(t)),
                            ..done[p as int]
                        },
                    ));
                    cur = p;
                },
            }
        }
    }

    /// Takes in the entries of a directory that was given out; `None` stands for one that could not
    /// be listed, or was not because the scan was called off, and counts as empty. Says how many
    /// entries there had been before, if it is time to report that.
    #[verifier::rlimit(30)]
    pub fn process_one_dir(&mut self, item: WorkItem, entries: Option<Vec<RawDirEntry>>) -> (res: Result<
        Option<u64>,
        SizesTooLarge,
    >)
        requires
            old(self).well_formed(),
            old(self).in_flight(item.task as int),
            item.depth <= item.task,
            entries matches Some(v) ==> old(self).counter + v@.len() <= u64::MAX,
        ensures
            ({
                let es = match entries {
                    Some(v) => entries_of(v@),
                    None => Seq::<Entry>::empty(),
                };
                let seen = seen_ids(old(self).seen);
                let step = listed(old(self).board(), item.task as int, item.depth as nat + 1, es, seen);
                let subs = subdirectories(es);
                match res {
                    Ok(report) => {
                        &&& final(self).well_formed()
                        &&& step == Some(final(self).board())
                        &&& seen_ids(final(self).seen) == seen_after_all(es, seen)
                        &&& final(self).counter == old(self).counter + es.len()
                        &&& final(self).separator == old(self).separator
                        &&& report == (if old(self).counter / 5000 != final(self).counter / 5000 {
                            Some(old(self).counter)
                        } else {
                            None
                        })
                        &&& final(self).queue@.len() == old(self).queue@.len() + subs.len()
                        &&& forall|k: int|
                            0 <= k < old(self).queue@.len() ==> final(self).queue@[k] == old(self).queue@[k]
                        &&& forall|k: int|
                            0 <= k < subs.len() ==> {
                                let new = #[trigger] final(self).queue@[old(self).queue@.len() + k];
                                &&& new.path@ == entry_path(item.path@, old(self).separator, subs[k].name)
                                &&& new.depth == item.depth + 1
                                &&& new.task == old(self).tasks@.len() + k
                            }
                    },
                    Err(_) => step is None,
                }
            }),
    {
        let list: Vec<RawDirEntry> = match entries {
            Some(v) => v,
            None => Vec::new(),
        };
        let ghost es = entries_of(list@);
        proof {
            if entries is None {
                assert(es =~= Seq::<Entry>::empty());
            }
        }
        let ghost b = self.board();
        let ghost i = item.task as int;
        let ghost seen0 = seen_ids(self.seen);
        let ghost subs_m = subdirectories(es);
        let ghost depth = item.depth as nat + 1;
        let before: u64 = self.counter;
        self.counter = before + list.len() as u64;
        let report: Option<u64> = if before / 5000 != self.counter / 5000 {
            Some(before)
        } else {
            None
        };
        let (mut nodes, subs) = sort_out(list, item.depth + 1, &mut self.seen);
        let ghost t = b.tasks[i];
        let ghost had = self.tasks@[i].children@;
        let ghost found = nodes@;
        self.tasks[item.task].children.append(&mut nodes);
        let ghost with_leaves = Task { children: t.children + leaves(es, depth, seen0), ..t };
        proof {
            assert(trees(self.tasks@[i].children@) =~= trees(had) + trees(found));
            assert(self.board().tasks =~= b.tasks.update(i, with_leaves));
        }
        let n: usize = subs.len();
        assert(subs_m.len() == n);
        proof {
            let w = |t: Task| if t.progress == Progress::Waiting { 1nat } else { 0 };
            lemma_total_zero(b.tasks, w);
            assert(w(b.tasks[i]) == 1);
        }
        if n == 0 {
            proof {
                lemma_ready_to_complete(b, i, with_leaves);
            }
            if !self.complete(item.task) {
                return Err(SizesTooLarge);
            }
            proof {
                law_listing_keeps_sound(b, i, depth, es, seen0);
                assert(files_found(self.board()) + folders_found(self.board()) == files_found(b)
                    + folders_found(b) + es.len()) by {
                    law_listing_loses_nothing(b, i, depth, es, seen0);
                }
                let c = self.board();
                assert forall|k: int| 0 <= k < self.queue@.len() implies (#[trigger] self.queue@[k]).task
                    < self.tasks@.len() && self.tasks@[self.queue@[k].task as int].progress
                    == Progress::Waiting && self.queue@[k].depth <= self.queue@[k].task by {
                    let q = self.queue@[k].task as int;
                    assert(q != i);
                    assert(c.tasks[q].progress == Progress::Waiting);
                }
            }
            self.outstanding = self.outstanding - 1;
            return Ok(report);
        }
        self.tasks[item.task].progress = Progress::Open(n);
        let ghost open = Task { progress: Progress::Open(subs_m.len() as usize), ..with_leaves };
        let ghost own = b.tasks.update(i, open);
        assert(self.board().tasks =~= own);
        let first: usize = self.tasks.len();
        let ghost queue0 = self.queue@;
        let ghost all = subs@;
        let ghost counter1 = self.counter;
        let ghost seen1 = self.seen;
        for sub in it: subs
            invariant
                it.seq() == all,
                entries_of(all) == subs_m,
                first == own.len(),
                i == item.task,
                i < own.len(),
                item.depth <= item.task,
                depth == item.depth + 1,
                self.board().tasks =~= own + new_tasks(subs_m.take(it.index()), i as usize, depth),
                self.root == old(self).root,
                self.outstanding == old(self).outstanding,
                self.counter == counter1,
                self.seen == seen1,
                self.separator == old(self).separator,
                queue0 == old(self).queue@,
                self.queue@.len() == queue0.len() + it.index(),
                forall|k: int| 0 <= k < queue0.len() ==> self.queue@[k] == queue0[k],
                forall|k: int|
                    0 <= k < it.index() ==> {
                        let new = #[trigger] self.queue@[queue0.len() + k];
                        &&& new.path@ == entry_path(item.path@, old(self).separator, subs_m[k].name)
                        &&& new.depth == item.depth + 1
                        &&& new.task == first + k
                    },
        {
            let ghost k = it.index();
            assert(subs_m[k] == sub@);
            let path = join_entry(&item.path, self.separator, &sub.name);
            let number: usize = self.tasks.len();
            let ghost tasks0 = self.board().tasks;
            let child = DirTask {
                name: sub.name,
                color: folder_color(item.depth + 1),
                self_modified: sub.modified_ft,
                self_created: sub.created_ft,
                self_accessed: sub.accessed_ft,
                self_attrs: sub.attrs,
                parent: Some(item.task),
                progress: Progress::Waiting,
                children: Vec::new(),
            };
            proof {
                assert(child@.children =~= Seq::<Tree>::empty());
                assert(child@ == new_task(subs_m[k], i as usize, depth));
            }
            self.tasks.push(child);
            proof {
                assert(self.board().tasks =~= tasks0.push(child@));
                assert(new_tasks(subs_m.take(k + 1), i as usize, depth) =~= new_tasks(
                    subs_m.take(k),
                    i as usize,
                    depth,
                ).push(new_task(subs_m[k], i as usize, depth)));
            }
            self.queue.push_back(WorkItem { path, depth: item.depth + 1, task: number });
        }
        let total_tasks: usize = self.tasks.len();
        proof {
            assert(subs_m.take(subs_m.len() as int) =~= subs_m);
            assert(self.board() == listed(b, i, depth, es, seen0)->0);
            law_listing_keeps_sound(b, i, depth, es, seen0);
            assert(files_found(self.board()) + folders_found(self.board()) == files_found(b) + folders_found(b)
                + es.len()) by {
                law_listing_loses_nothing(b, i, depth, es, seen0);
            }
            let w = |t: Task| if t.progress == Progress::Waiting { 1nat } else { 0 };
            lemma_at_most_one_each(self.board().tasks, w);
            assert(self.board().tasks.len() == total_tasks);
        }
        self.outstanding = (self.outstanding - 1) + n;
        proof {
            let c = self.board();
            assert forall|k: int| 0 <= k < self.queue@.len() implies (#[trigger] self.queue@[k]).task
                < self.tasks@.len() && self.tasks@[self.queue@[k].task as int].progress == Progress::Waiting
                && self.queue@[k].depth <= self.queue@[k].task by {
                if k < queue0.len() {
                    let q = queue0[k].task as int;
                    assert(q != i);
                    assert(c.tasks[q].progress == Progress::Waiting);
                } else {
                    let j = k - queue0.len();
                    assert(self.queue@[queue0.len() + j].task == first + j);
                    assert(c.tasks[first + j] == new_tasks(subs_m, i as usize, depth)[j]);
                    assert(c.tasks[first + j].progress == Progress::Waiting);
                }
            }
            assert forall|j: int, k: int| 0 <= j < k < self.queue@.len() implies (
            #[trigger] self.queue@[j]).task != (#[trigger] self.queue@[k]).task by {
                if k >= queue0.len() {
                    assert(self.queue@[queue0.len() + (k - queue0.len())].task == first + (k - queue0.len()));
                    if j >= queue0.len() {
                        assert(self.queue@[queue0.len() + (j - queue0.len())].task == first + (j
                            - queue0.len()));
                    } else {
                        assert(queue0[j].task < first);
                    }
                } else {
                    assert(queue0[j].task != queue0[k].task);
                }
            }
        }
        Ok(report)
    }

    /// The node of the directory that was scanned; an empty one where there is none.
    pub fn into_root(self, name: String) -> (n: Node)
        ensures
            n@ == (match self.root {
                Some(r) => r@,
                None => folder_of(
                    name@,
                    folder_color_at(0),
                    Seq::empty(),
                    0,
                    0,
                    0,
                    0x10,
                    0,
                    false,
                    Seq::empty(),
                ),
            }),
    {
        match self.root {
            Some(r) => r,
            None => {
                let none: Vec<Node> = Vec::new();
                assert(trees(none@) =~= Seq::<Tree>::empty());
                Node::new_folder(name, folder_color(0), none)
            },
        }
    }
}

/// One step up: where directory `i` joins its parent and is the last one that the parent waited
/// for, the parent has nothing left to wait for.
proof fn lemma_up(b: Board, i: int)
    requires
        sound_but(b, i),
        b.tasks[i].parent is Some,
    ensures
        ({
            let t = b.tasks[i];
            let p = t.parent->0 as int;
            let done = b.tasks.update(i, Task { progress: Progress::Done, children: Seq::empty(), ..t });
            let up = done[p];
            let joined = Task { children: up.children.push(finished(t)), ..up };
            up.progress == Progress::Open(1) ==> sound_but(
                Board { tasks: done.update(p, joined), root: b.root },
                p,
            )
        }),
{
    let t = b.tasks[i];
    let p = t.parent->0 as int;
    let fin = Task { progress: Progress::Done, children: Seq::empty(), ..t };
    let done = b.tasks.update(i, fin);
    let up = done[p];
    let joined = Task { children: up.children.push(finished(t)), ..up };
    let after = done.update(p, joined);
    assert(truthful(b.tasks, p));
    if up.progress == Progress::Open(1) {
        assert forall|k: int| 0 <= k < b.tasks.len() implies undone_in(after, k) + (if k == p {
            1nat
        } else {
            0
        }) == #[trigger] undone_in(b.tasks, k) by {
            let f = |t: Task|
                if t.parent == Some(k as usize) && t.progress != Progress::Done {
                    1nat
                } else {
                    0
                };
            lemma_total_update(b.tasks, f, i, fin);
            lemma_total_update(done, f, p, joined);
        }
        assert forall|k: int| 0 <= k < after.len() && k != p implies #[trigger] truthful(after, k) by {
            assert(undone_in(after, k) == undone_in(b.tasks, k));
            if k != i {
                assert(truthful(b.tasks, k));
                if b.tasks[k].progress == Progress::Waiting {
                    lemma_no_children_kept(b.tasks, after, k);
                }
            }
        }
        assert(undone_in(after, p) + 1 == undone_in(b.tasks, p));
    }
}

/// A directory that has been listed and has no directories in it has nothing to wait for.
proof fn lemma_ready_to_complete(b: Board, i: int, t: Task)
    requires
        sound(b),
        0 <= i < b.tasks.len(),
        b.tasks[i].progress == Progress::Waiting,
        t.parent == b.tasks[i].parent,
        t.progress == Progress::Waiting,
    ensures
        sound_but(Board { tasks: b.tasks.update(i, t), root: b.root }, i),
{
    let after = b.tasks.update(i, t);
    assert(truthful(b.tasks, i));
    assert forall|k: int| 0 <= k < b.tasks.len() implies undone_in(after, k) == #[trigger] undone_in(
        b.tasks,
        k,
    ) by {
        let f = |t: Task|
            if t.parent == Some(k as usize) && t.progress != Progress::Done {
                1nat
            } else {
                0
            };
        lemma_total_update(b.tasks, f, i, t);
    }
    assert(undone_in(b.tasks, i) == 0) by {
        let f = |t: Task|
            if t.parent == Some(i as usize) && t.progress != Progress::Done {
                1nat
            } else {
                0
            };
        lemma_total_zero(b.tasks, f);
    }
    assert(undone_in(after, i) == undone_in(b.tasks, i));
    assert forall|k: int| 0 <= k < after.len() && k != i implies #[trigger] truthful(after, k) by {
        assert(truthful(b.tasks, k));
        assert(undone_in(after, k) == undone_in(b.tasks, k));
        if b.tasks[k].progress == Progress::Waiting {
            lemma_no_children_kept(b.tasks, after, k);
        }
    }
    lemma_root_not_done(b, i);
}

/// Whether every node found so far adds up.
pub open spec fn nodes_add_up(b: Board) -> bool {
    &&& forall|k: int, j: int|
        0 <= k < b.tasks.len() && 0 <= j < b.tasks[k].children.len() ==> adds_up(
            #[trigger] b.tasks[k].children[j],
        )
    &&& (b.root matches Some(r) ==> adds_up(r))
}

/// Whether every directory has room for one more child.
pub open spec fn room_for_more(b: Board) -> bool {
    forall|k: int| 0 <= k < b.tasks.len() ==> (#[trigger] b.tasks[k]).children.len() < usize::MAX
}

/// Whatever is handed in, the sizes and counts of the nodes add up; so do those of the node that the
/// whole scan becomes.
pub proof fn law_scanned_nodes_add_up(b: Board, i: int, depth: nat, es: Seq<Entry>, seen: Set<u64>)
    requires
        rooted(b.tasks),
        0 <= i < b.tasks.len(),
        nodes_add_up(b),
        room_for_more(b),
        b.tasks[i].children.len() + leaves(es, depth, seen).len() < usize::MAX,
        listed(b, i, depth, es, seen) is Some,
    ensures
        nodes_add_up(listed(b, i, depth, es, seen)->0),
{
    let t = b.tasks[i];
    let ls = leaves(es, depth, seen);
    let with_leaves = Task { children: t.children + ls, ..t };
    lemma_leaves_add_up(es, depth, seen);
    let subs = subdirectories(es);
    let own = b.tasks.update(i, with_leaves);
    let mid = Board { tasks: own, root: b.root };
    assert forall|k: int, j: int| 0 <= k < own.len() && 0 <= j < own[k].children.len() implies adds_up(
        #[trigger] own[k].children[j],
    ) by {
        if k == i {
            if j < t.children.len() {
                assert(own[k].children[j] == b.tasks[i].children[j]);
            } else {
                assert(own[k].children[j] == ls[j - t.children.len()]);
            }
        } else {
            assert(own[k].children[j] == b.tasks[k].children[j]);
        }
    }
    if subs.len() == 0 {
        lemma_completed_adds_up(mid, i);
    } else {
        let c = listed(b, i, depth, es, seen)->0;
        assert forall|k: int, j: int| 0 <= k < c.tasks.len() && 0 <= j < c.tasks[k].children.len() implies adds_up(
            #[trigger] c.tasks[k].children[j],
        ) by {
            if k < own.len() {
                assert(c.tasks[k].children[j] == own[k].children[j]);
            }
        }
    }
}

proof fn lemma_leaves_add_up(es: Seq<Entry>, depth: nat, seen: Set<u64>)
    ensures
        forall|j: int|
            0 <= j < leaves(es, depth, seen).len() ==> adds_up(#[trigger] leaves(es, depth, seen)[j]),
    decreases es.len(),
{
    if es.len() > 0 {
        lemma_leaves_add_up(es.drop_last(), depth, seen);
        let e = es.last();
        if !is_subdirectory(e) && e.is_dir {
            let none = Seq::<Tree>::empty();
            law_new_folder_adds_up(
                e.name,
                folder_color_at(depth),
                none,
                e.modified_ft,
                e.created_ft,
                e.accessed_ft,
                e.attrs,
                e.reparse_tag,
                false,
                Seq::empty(),
            );
        }
        let before = leaves(es.drop_last(), depth, seen);
        let now = leaves(es, depth, seen);
        assert forall|j: int| 0 <= j < now.len() implies adds_up(#[trigger] now[j]) by {
            if j < before.len() {
                assert(now[j] == before[j]);
            } else {
                assert(now[j] == leaf_of(e, depth, seen_after_all(es.drop_last(), seen)));
            }
        }
    }
}

proof fn lemma_completed_adds_up(b: Board, i: int)
    requires
        rooted(b.tasks),
        0 <= i < b.tasks.len(),
        nodes_add_up(b),
        b.tasks[i].children.len() <= usize::MAX,
        forall|k: int| 0 <= k < b.tasks.len() && k != i ==> (#[trigger] b.tasks[k]).children.len() < usize::MAX,
        completed(b, i) is Some,
    ensures
        nodes_add_up(completed(b, i)->0),
    decreases i,
{
    let t = b.tasks[i];
    let fin = Task { progress: Progress::Done, children: Seq::empty(), ..t };
    let done = b.tasks.update(i, fin);
    assert forall|j: int| 0 <= j < t.children.len() implies adds_up(#[trigger] t.children[j]) by {
        assert(adds_up(b.tasks[i].children[j]));
    }
    law_new_folder_adds_up(
        t.name,
        t.color,
        t.children,
        t.self_modified,
        t.self_created,
        t.self_accessed,
        t.self_attrs,
        0,
        false,
        Seq::empty(),
    );
    assert forall|k: int, j: int| 0 <= k < done.len() && 0 <= j < done[k].children.len() implies adds_up(
        #[trigger] done[k].children[j],
    ) by {
        if k != i {
            assert(done[k].children[j] == b.tasks[k].children[j]);
        }
    }
    if let Some(p) = t.parent {
        let pi = p as int;
        let up = done[pi];
        let joined = Task { children: up.children.push(finished(t)), ..up };
        let left = match up.progress {
            Progress::Open(n) => n - 1,
            _ => 0,
        };
        let next = if left > 0 {
            Task { progress: Progress::Open(left as usize), ..joined }
        } else {
            joined
        };
        let after = done.update(pi, next);
        let mid = Board { tasks: after, root: b.root };
        assert forall|k: int, j: int| 0 <= k < after.len() && 0 <= j < after[k].children.len() implies adds_up(
            #[trigger] after[k].children[j],
        ) by {
            if k == pi {
                if j < up.children.len() {
                    assert(after[k].children[j] == done[pi].children[j]);
                }
            } else {
                assert(after[k].children[j] == done[k].children[j]);
            }
        }
        if left <= 0 {
            lemma_completed_adds_up(mid, pi);
        }
    }
}

// ---------------------------------------------------------------------------------------------
// What a scan has found
// ---------------------------------------------------------------------------------------------

/// The sum of `worth` over the nodes found so far, with `own` for each directory that is not done,
/// and `whole` for the node of the first directory once it is.
pub open spec fn held(
    b: Board,
    worth: spec_fn(Tree) -> nat,
    own: nat,
    whole: spec_fn(Tree) -> nat,
) -> nat {
    total(b.tasks, |t: Task| if t.progress == Progress::Done { 0 } else { total(t.children, worth) + own })
        + match b.root {
        Some(r) => whole(r),
        None => 0,
    }
}

/// The lengths of the files found so far.
pub open spec fn bytes_found(b: Board) -> nat {
    held(b, |c: Tree| c.logical_size as nat, 0, |r: Tree| r.logical_size as nat)
}

/// The room that the files found so far take up.
pub open spec fn room_found(b: Board) -> nat {
    held(b, |c: Tree| c.physical_size as nat, 0, |r: Tree| r.physical_size as nat)
}

/// How many files have been found so far.
pub open spec fn files_found(b: Board) -> nat {
    held(
        b,
        |c: Tree| c.file_count as nat + if c.kind == NodeKind::File { 1nat } else { 0nat },
        0,
        |r: Tree| r.file_count as nat,
    )
}

/// How many folders have been found so far, the one that is scanned included.
pub open spec fn folders_found(b: Board) -> nat {
    held(
        b,
        |c: Tree| c.folder_count as nat + if c.kind == NodeKind::Folder { 1nat } else { 0nat },
        1,
        |r: Tree| r.folder_count as nat + 1,
    )
}

/// The lengths of the files among `es`.
pub open spec fn bytes_in(es: Seq<Entry>) -> nat {
    total(es, |e: Entry| if e.is_dir { 0 } else { e.logical as nat })
}

pub open spec fn files_in(es: Seq<Entry>) -> nat {
    total(es, |e: Entry| if e.is_dir { 0nat } else { 1nat })
}

pub open spec fn folders_in(es: Seq<Entry>) -> nat {
    total(es, |e: Entry| if e.is_dir { 1nat } else { 0nat })
}

/// Nothing is lost on the way up and nothing counts twice: whatever the order in which directories
/// are handed in, what has been found grows by exactly the entries of the one that is.
pub proof fn law_listing_loses_nothing(b: Board, i: int, depth: nat, es: Seq<Entry>, seen: Set<u64>)
    requires
        sound(b),
        0 <= i < b.tasks.len(),
        b.tasks[i].progress == Progress::Waiting,
        listed(b, i, depth, es, seen) is Some,
    ensures
        ({
            let c = listed(b, i, depth, es, seen)->0;
            &&& bytes_found(c) == bytes_found(b) + bytes_in(es)
            &&& room_found(c) == room_found(b) + physical_total(leaves(es, depth, seen))
            &&& files_found(c) == files_found(b) + files_in(es)
            &&& folders_found(c) == folders_found(b) + folders_in(es)
            &&& files_in(es) + folders_in(es) == es.len()
        }),
{
    lemma_leaves_hold_entries(es, depth, seen);
    lemma_listed_holds(
        b,
        i,
        depth,
        es,
        seen,
        |c: Tree| c.logical_size as nat,
        0,
        |r: Tree| r.logical_size as nat,
    );
    lemma_listed_holds(
        b,
        i,
        depth,
        es,
        seen,
        |c: Tree| c.physical_size as nat,
        0,
        |r: Tree| r.physical_size as nat,
    );
    lemma_listed_holds(
        b,
        i,
        depth,
        es,
        seen,
        |c: Tree| c.file_count as nat + if c.kind == NodeKind::File { 1nat } else { 0nat },
        0,
        |r: Tree| r.file_count as nat,
    );
    lemma_listed_holds(
        b,
        i,
        depth,
        es,
        seen,
        |c: Tree| c.folder_count as nat + if c.kind == NodeKind::Folder { 1nat } else { 0nat },
        1,
        |r: Tree| r.folder_count as nat + 1,
    );
}

/// The node that a scan ends with holds all that has been found.
pub proof fn law_root_holds_all_that_was_found(b: Board)
    requires
        sound(b),
        b.root is Some,
    ensures
        b.root->0.logical_size == bytes_found(b),
        b.root->0.physical_size == room_found(b),
        b.root->0.file_count == files_found(b),
        b.root->0.folder_count + 1 == folders_found(b),
{
    assert forall|k: int| 0 <= k < b.tasks.len() implies (#[trigger] b.tasks[k]).progress
        == Progress::Done by {
        if b.tasks[k].progress != Progress::Done {
            lemma_root_not_done(b, k);
        }
    }
    lemma_only_root_holds(b, |c: Tree| c.logical_size as nat, 0, |r: Tree| r.logical_size as nat);
    lemma_only_root_holds(b, |c: Tree| c.physical_size as nat, 0, |r: Tree| r.physical_size as nat);
    lemma_only_root_holds(
        b,
        |c: Tree| c.file_count as nat + if c.kind == NodeKind::File { 1nat } else { 0nat },
        0,
        |r: Tree| r.file_count as nat,
    );
    lemma_only_root_holds(
        b,
        |c: Tree| c.folder_count as nat + if c.kind == NodeKind::Folder { 1nat } else { 0nat },
        1,
        |r: Tree| r.folder_count as nat + 1,
    );
}

/// At the start of a scan there is the folder that is scanned, and nothing else.
proof fn lemma_only_first_holds(b: Board, worth: spec_fn(Tree) -> nat, own: nat, whole: spec_fn(Tree) -> nat)
    requires
        b.tasks.len() == 1,
        b.tasks[0].progress != Progress::Done,
        b.tasks[0].children == Seq::<Tree>::empty(),
        b.root is None,
    ensures
        held(b, worth, own, whole) == own,
{
    let f = |t: Task| if t.progress == Progress::Done { 0 } else { total(t.children, worth) + own };
    lemma_same_each(b.tasks, f, own);
    assert(own * b.tasks.len() == own) by (nonlinear_arith)
        requires
            b.tasks.len() == 1,
    ;
}

proof fn lemma_only_root_holds(b: Board, worth: spec_fn(Tree) -> nat, own: nat, whole: spec_fn(Tree) -> nat)
    requires
        forall|k: int| 0 <= k < b.tasks.len() ==> (#[trigger] b.tasks[k]).progress == Progress::Done,
        b.root is Some,
    ensures
        held(b, worth, own, whole) == whole(b.root->0),
{
    lemma_total_zero(
        b.tasks,
        |t: Task| if t.progress == Progress::Done { 0 } else { total(t.children, worth) + own },
    );
}

/// The nodes of entries that are not looked into, and the directories that are, make up the entries.
proof fn lemma_leaves_hold_entries(es: Seq<Entry>, depth: nat, seen: Set<u64>)
    ensures
        logical_total(leaves(es, depth, seen)) == bytes_in(es),
        files_total(leaves(es, depth, seen)) == files_in(es),
        folders_total(leaves(es, depth, seen)) + subdirectories(es).len() == folders_in(es),
        files_in(es) + folders_in(es) == es.len(),
    decreases es.len(),
{
    if es.len() > 0 {
        lemma_leaves_hold_entries(es.drop_last(), depth, seen);
        let before = leaves(es.drop_last(), depth, seen);
        let now = leaves(es, depth, seen);
        if !is_subdirectory(es.last()) {
            assert(now.drop_last() =~= before);
        }
    }
}

/// What is held grows by the nodes and the directories of a listing.
proof fn lemma_listed_holds(
    b: Board,
    i: int,
    depth: nat,
    es: Seq<Entry>,
    seen: Set<u64>,
    worth: spec_fn(Tree) -> nat,
    own: nat,
    whole: spec_fn(Tree) -> nat,
)
    requires
        sound(b),
        0 <= i < b.tasks.len(),
        b.tasks[i].progress == Progress::Waiting,
        listed(b, i, depth, es, seen) is Some,
        forall|t: Task|
            sums_fit(t.children) ==> worth(#[trigger] finished(t)) == total(t.children, worth) + own,
        forall|t: Task| whole(#[trigger] finished(t)) == worth(finished(t)),
    ensures
        held(listed(b, i, depth, es, seen)->0, worth, own, whole) == held(b, worth, own, whole) + total(
            leaves(es, depth, seen),
            worth,
        ) + own * subdirectories(es).len(),
{
    let f = |t: Task| if t.progress == Progress::Done { 0 } else { total(t.children, worth) + own };
    let t = b.tasks[i];
    let ls = leaves(es, depth, seen);
    let subs = subdirectories(es);
    let with_leaves = Task { children: t.children + ls, ..t };
    lemma_total_concat(t.children, ls, worth);
    if subs.len() == 0 {
        let mid = Board { tasks: b.tasks.update(i, with_leaves), root: b.root };
        lemma_total_update(b.tasks, f, i, with_leaves);
        lemma_ready_to_complete(b, i, with_leaves);
        lemma_completed_holds(mid, i, worth, own, whole);
        assert(own * subs.len() == 0) by (nonlinear_arith)
            requires
                subs.len() == 0,
        ;
    } else {
        let open = Task { progress: Progress::Open(subs.len() as usize), ..with_leaves };
        let fresh = new_tasks(subs, i as usize, depth);
        lemma_total_update(b.tasks, f, i, open);
        lemma_total_concat(b.tasks.update(i, open), fresh, f);
        lemma_same_each(fresh, f, own);
    }
}

/// Items that count the same sum up to that times their number.
proof fn lemma_same_each<T>(s: Seq<T>, f: spec_fn(T) -> nat, x: nat)
    requires
        forall|i: int| 0 <= i < s.len() ==> f(#[trigger] s[i]) == x,
    ensures
        total(s, f) == x * s.len(),
    decreases s.len(),
{
    if s.len() > 0 {
        assert forall|i: int| 0 <= i < s.drop_last().len() implies f(#[trigger] s.drop_last()[i]) == x by {
            assert(f(s[i]) == x);
        }
        lemma_same_each(s.drop_last(), f, x);
        assert(f(s[s.len() - 1]) == x);
        assert(x * s.len() == x * (s.len() - 1) + x) by (nonlinear_arith);
    } else {
        assert(x * s.len() == 0) by (nonlinear_arith)
            requires
                s.len() == 0,
        ;
    }
}

/// What is held stays the same when a directory becomes a node and joins its parent.
proof fn lemma_completed_holds(
    b: Board,
    i: int,
    worth: spec_fn(Tree) -> nat,
    own: nat,
    whole: spec_fn(Tree) -> nat,
)
    requires
        sound_but(b, i),
        completed(b, i) is Some,
        forall|t: Task|
            sums_fit(t.children) ==> worth(#[trigger] finished(t)) == total(t.children, worth) + own,
        forall|t: Task| whole(#[trigger] finished(t)) == worth(finished(t)),
    ensures
        held(completed(b, i)->0, worth, own, whole) == held(b, worth, own, whole),
    decreases i,
{
    let f = |t: Task| if t.progress == Progress::Done { 0 } else { total(t.children, worth) + own };
    let t = b.tasks[i];
    let node = finished(t);
    let fin = Task { progress: Progress::Done, children: Seq::empty(), ..t };
    let done = b.tasks.update(i, fin);
    lemma_total_update(b.tasks, f, i, fin);
    if let Some(p) = t.parent {
        let pi = p as int;
        assert(pi < i);
        assert(truthful(b.tasks, pi));
        lemma_parent_is_open(b.tasks, i, pi);
        let up = done[pi];
        let n = up.progress->Open_0;
        let joined = Task { children: up.children.push(node), ..up };
        assert(up.children.push(node).drop_last() =~= up.children);
        if n > 1 {
            let open = Task { progress: Progress::Open((n - 1) as usize), ..joined };
            lemma_total_update(done, f, pi, open);
        } else {
            lemma_up(b, i);
            lemma_total_update(done, f, pi, joined);
            lemma_completed_holds(Board { tasks: done.update(pi, joined), root: b.root }, pi, worth, own, whole);
        }
    }
}


/// The path of an entry leads into its directory: it is the name behind the path, with exactly one
/// separator in between. The top of a drive without a separator gets none.
pub proof fn law_entries_stand_behind_their_directory(path: Seq<char>, name: Seq<char>, letter: char)
    requires
        'a' <= letter <= 'z' || 'A' <= letter <= 'Z',
    ensures
        entry_path(path.push('\\'), '\\', name) == path + seq!['\\'] + name,
        entry_path(path.push('/'), '\\', name) == path + seq!['/'] + name,
        entry_path(path.push('/'), '/', name) == path + seq!['/'] + name,
        path.len() > 0 && path.last() != '/' ==> entry_path(path, '/', name) == path + seq!['/'] + name,
        path.len() > 2 && path.last() != '\\' && path.last() != '/' ==> entry_path(path, '\\', name) == path
            + seq!['\\'] + name,
        entry_path(seq![letter, ':'], '\\', name) == seq![letter, ':'] + name,
        entry_path(seq![letter, ':'], '/', name) == seq![letter, ':', '/'] + name,
        entry_path(Seq::empty(), '\\', name) == name,
{
    assert(path.push('\\') =~= path + seq!['\\']);
    assert(path.push('/') =~= path + seq!['/']);
    let drive = seq![letter, ':'];
    assert(drive.last() == ':');
    assert(drive.push('/') =~= seq![letter, ':', '/']);
    assert(Seq::<char>::empty() + name =~= name);
}


/// Files have the color of files. Folders have that of the depth at which they stand, whether a scan
/// goes into them or not.
pub proof fn law_scanned_folders_are_colored_by_depth(
    e: Entry,
    parent: usize,
    depth: nat,
    seen: Set<u64>,
    ch: Seq<Tree>,
)
    ensures
        finished(Task { children: ch, ..new_task(e, parent, depth) }).color == folder_color_at(depth),
        e.is_dir ==> leaf_of(e, depth, seen).color == folder_color_at(depth),
        !e.is_dir ==> leaf_of(e, depth, seen).color == file_color_of(),
        leaf_of(e, depth, seen).kind == if e.is_dir {
            NodeKind::Folder
        } else {
            NodeKind::File
        },
{
}

} // verus!
