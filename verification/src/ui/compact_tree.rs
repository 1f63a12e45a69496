//! The list of the analysis screens: groups of files, and the files of those that are open.
use vstd::prelude::*;

use crate::edit::copy_path;
use crate::model::{Node, NodePath};
use crate::order::{stable_order, Ranking};
use crate::text::{chars_of, owned, string_of, text_may_precede_ignoring_case};
use crate::ui::TreeAction;

verus! {

use crate::edit::path_text;
use crate::model::{trees, Tree};
use crate::order::{is_preorder, lemma_order_is_permutation, lemma_sorted, order_of};
use crate::text::{lemma_lex_total, lemma_lex_transitive, lower_bytes, text_le_ignoring_case};
use crate::ui::cells::{asks_to_open, asks_to_select};

/// What the list can be sorted by.
#[derive(Debug, Clone, Copy, PartialEq, Eq, Structural)]
pub enum SortKey {
    Name,
    Size,
    Modified,
    Path,
}

#[derive(Debug, Clone, Copy, PartialEq, Eq, Structural)]
pub enum SortDir {
    Asc,
    Desc,
}

pub open spec fn other_way(d: SortDir) -> SortDir {
    match d {
        SortDir::Asc => SortDir::Desc,
        SortDir::Desc => SortDir::Asc,
    }
}

impl SortDir {
    /// The other way round.
    pub fn toggled(self) -> (r: Self)
        ensures
            r == other_way(self),
    {
        match self {
            SortDir::Asc => SortDir::Desc,
            SortDir::Desc => SortDir::Asc,
        }
    }
}

/// By what the list is sorted, and which way.
#[derive(Debug, Clone, Copy, PartialEq, Eq, Structural)]
pub struct SortState {
    pub key: SortKey,
    pub dir: SortDir,
}

impl Default for SortState {
    fn default() -> (s: Self)
        ensures
            s == (SortState { key: SortKey::Size, dir: SortDir::Desc }),
    {
        SortState { key: SortKey::Size, dir: SortDir::Desc }
    }
}

/// The order after a click on the heading of `key`.
pub open spec fn clicked(s: SortState, key: SortKey) -> SortState {
    if s.key == key {
        SortState { key, dir: other_way(s.dir) }
    } else {
        SortState { key, dir: SortDir::Desc }
    }
}

impl SortState {
    /// A heading was clicked: the same one again turns the order round, another one sorts by that.
    pub fn click(&mut self, key: SortKey)
        ensures
            *final(self) == clicked(*old(self), key),
    {
        if self.key == key {
            self.dir = self.dir.toggled();
        } else {
            self.key = key;
            self.dir = SortDir::Desc;
        }
    }
}

// ---------------------------------------------------------------------------------------------
// Order
// ---------------------------------------------------------------------------------------------

/// Whether `a` comes before `b` or is equal by `key`. The case of ASCII letters makes no difference.
pub open spec fn key_le(a: Tree, b: Tree, key: SortKey) -> bool {
    match key {
        SortKey::Name => text_le_ignoring_case(a.name, b.name),
        SortKey::Size => a.logical_size <= b.logical_size,
        SortKey::Modified => a.modified_ft <= b.modified_ft,
        SortKey::Path => text_le_ignoring_case(path_text(a), path_text(b)),
    }
}

pub open spec fn by_key(key: SortKey) -> spec_fn(Tree, Tree) -> bool {
    |a: Tree, b: Tree| key_le(a, b, key)
}

proof fn lemma_by_key_is_preorder(key: SortKey)
    ensures
        is_preorder(by_key(key)),
{
    let le = by_key(key);
    let e = |s: Seq<char>| lower_bytes(vstd::utf8::encode_utf8(s));
    assert forall|a: Tree, b: Tree| #[trigger] le(a, b) || le(b, a) by {
        lemma_lex_total(e(a.name), e(b.name));
        lemma_lex_total(e(path_text(a)), e(path_text(b)));
    }
    assert forall|a: Tree, b: Tree, c: Tree| #[trigger] le(a, b) && #[trigger] le(b, c) implies le(a, c) by {
        match key {
            SortKey::Name => lemma_lex_transitive(e(a.name), e(b.name), e(c.name)),
            SortKey::Path => lemma_lex_transitive(e(path_text(a)), e(path_text(b)), e(path_text(c))),
            _ => {},
        }
    }
}

/// Decides whether `a` comes before `b` or is equal by `key`.
fn may_precede(a: &Node, b: &Node, key: SortKey) -> (r: bool)
    ensures
        r == key_le(a@, b@, key),
{
    match key {
        SortKey::Name => text_may_precede_ignoring_case(a.name.as_str(), b.name.as_str()),
        SortKey::Size => a.logical_size <= b.logical_size,
        SortKey::Modified => a.modified_ft <= b.modified_ft,
        SortKey::Path => {
            let none = String::new();
            let p = match &a.full_path_override {
                Some(s) => s,
                None => &none,
            };
            let q = match &b.full_path_override {
                Some(s) => s,
                None => &none,
            };
            text_may_precede_ignoring_case(p.as_str(), q.as_str())
        },
    }
}

struct KeyRank<'a> {
    nodes: &'a Vec<Node>,
    key: SortKey,
}

impl<'a> Ranking<Tree> for KeyRank<'a> {
    closed spec fn items(&self) -> Seq<Tree> {
        trees(self.nodes@)
    }

    closed spec fn le(&self) -> spec_fn(Tree, Tree) -> bool {
        by_key(self.key)
    }

    proof fn is_lawful(&self) {
        lemma_by_key_is_preorder(self.key);
    }

    fn may_precede(&self, i: usize, j: usize) -> (r: bool) {
        may_precede(&self.nodes[i], &self.nodes[j], self.key)
    }
}

/// The order in which nodes are shown: sorted upwards, nodes that are equal as they stand; for the
/// other direction all of that backwards.
pub open spec fn shown_order(ch: Seq<Tree>, sort: SortState) -> Seq<usize> {
    let up = order_of(ch, by_key(sort.key));
    match sort.dir {
        SortDir::Asc => up,
        SortDir::Desc => up.reverse(),
    }
}

/// The order in which the children of a node are shown. The children themselves stay where they
/// are, so that the way to each of them stays the same.
pub fn sorted_child_order(children: &Vec<Node>, sort: SortState) -> (r: Vec<usize>)
    ensures
        r@ == shown_order(trees(children@), sort),
        r@.len() == children@.len(),
        r@.no_duplicates(),
        forall|k: int| 0 <= k < r@.len() ==> (#[trigger] r@[k]) < children@.len(),
{
    let n: usize = children.len();
    let rank = KeyRank { nodes: children, key: sort.key };
    let up = stable_order(&rank, n);
    proof {
        lemma_by_key_is_preorder(sort.key);
        lemma_order_is_permutation(trees(children@), by_key(sort.key), up@, 0, n as int);
    }
    match sort.dir {
        SortDir::Asc => up,
        SortDir::Desc => {
            let mut down: Vec<usize> = Vec::new();
            let mut i: usize = up.len();
            while i > 0
                invariant
                    i <= up@.len(),
                    down@ =~= up@.reverse().take(up@.len() - i),
                decreases i,
            {
                i = i - 1;
                down.push(up[i]);
            }
            assert(down@ =~= up@.reverse());
            down
        },
    }
}

// ---------------------------------------------------------------------------------------------
// Rows
// ---------------------------------------------------------------------------------------------

/// A row of the list.
pub struct FlatRow {
    /// The way to the node that is shown.
    pub abs_path: NodePath,
    pub depth: u32,
    /// A group, not a file.
    pub is_group: bool,
}

/// What a [`FlatRow`] says.
pub struct Row {
    pub at: Seq<usize>,
    pub depth: u32,
    pub is_group: bool,
}

impl View for FlatRow {
    type V = Row;

    open spec fn view(&self) -> Row {
        Row { at: self.abs_path@, depth: self.depth, is_group: self.is_group }
    }
}

pub open spec fn rows_in(v: Seq<FlatRow>) -> Seq<Row> {
    v.map_values(|r: FlatRow| r@)
}

/// The rows of the files of a group that is at `at`.
pub open spec fn file_rows(group: Tree, at: Seq<usize>, sort: SortState) -> Seq<Row> {
    let o = shown_order(group.children, sort);
    Seq::new(o.len(), |k: int| Row { at: at.push(o[k]), depth: 1, is_group: false })
}

/// The rows of the first `n` groups in the order shown, each with its files if it is open.
pub open spec fn group_rows(root: Tree, at: Seq<usize>, sort: SortState, n: int) -> Seq<Row>
    decreases n,
{
    if n <= 0 {
        Seq::empty()
    } else {
        let i = shown_order(root.children, sort)[n - 1];
        let group = root.children[i as int];
        let here = group_rows(root, at, sort, n - 1).push(Row { at: at.push(i), depth: 0, is_group: true });
        if group.expanded {
            here + file_rows(group, at.push(i), sort)
        } else {
            here
        }
    }
}

/// The rows of a list with the given top, which is at `at` and has no row of its own.
pub open spec fn rows_of(root: Tree, at: Seq<usize>, sort: SortState) -> Seq<Row> {
    group_rows(root, at, sort, root.children.len() as int)
}

fn push_row(rows: &mut Vec<FlatRow>, at: &NodePath, i: usize, depth: u32, is_group: bool)
    ensures
        rows_in(final(rows)@) == rows_in(old(rows)@).push(Row { at: at@.push(i), depth, is_group }),
{
    let mut p = copy_path(at);
    p.push(i);
    rows.push(FlatRow { abs_path: p, depth, is_group });
    assert(rows_in(rows@) =~= rows_in(old(rows)@).push(Row { at: at@.push(i), depth, is_group }));
}

/// Appends the rows of a list with the given top.
pub fn collect_rows(root: &Node, rel_path: &NodePath, sort: SortState, rows: &mut Vec<FlatRow>)
    ensures
        rows_in(final(rows)@) == rows_in(old(rows)@) + rows_of(root@, rel_path@, sort),
{
    let order = sorted_child_order(&root.children, sort);
    assert(trees(root.children@) =~= root@.children);
    let ghost start = rows_in(rows@);
    let mut k: usize = 0;
    while k < order.len()
        invariant
            k <= order@.len(),
            order@ == shown_order(root@.children, sort),
            order@.len() == root@.children.len(),
            forall|x: int| 0 <= x < order@.len() ==> (#[trigger] order@[x]) < root.children@.len(),
            rows_in(rows@) =~= start + group_rows(root@, rel_path@, sort, k as int),
        decreases order@.len() - k,
    {
        let i: usize = order[k];
        let group = &root.children[i];
        assert(root@.children[i as int] == group@);
        push_row(rows, rel_path, i, 0, true);
        let ghost here = rows_in(rows@);
        if group.expanded {
            let mut at = copy_path(rel_path);
            at.push(i);
            let inner = sorted_child_order(&group.children, sort);
            assert(trees(group.children@) =~= group@.children);
            let mut j: usize = 0;
            while j < inner.len()
                invariant
                    j <= inner@.len(),
                    inner@ == shown_order(group@.children, sort),
                    at@ == rel_path@.push(i),
                    rows_in(rows@) =~= here + file_rows(group@, at@, sort).take(j as int),
                decreases inner@.len() - j,
            {
                push_row(rows, &at, inner[j], 1, false);
                j = j + 1;
            }
            assert(file_rows(group@, at@, sort).take(j as int) =~= file_rows(group@, at@, sort));
        }
        k = k + 1;
    }
}

// ---------------------------------------------------------------------------------------------
// Rows that are kept
// ---------------------------------------------------------------------------------------------

/// How a list is shown, and the rows worked out last. They are worked out again only when the order
/// or what is open has changed.
pub struct ViewState {
    pub sort: SortState,
    /// Changes whenever something is opened or closed.
    pub expand_version: u64,
    /// The rows, with the order and the version that they were worked out for.
    pub cache: Option<(SortState, u64, Vec<FlatRow>)>,
}

/// The way to the top of a list.
pub open spec fn top_path() -> Seq<usize> {
    seq![0]
}

impl Default for ViewState {
    fn default() -> (v: Self)
        ensures
            v.sort == (SortState { key: SortKey::Size, dir: SortDir::Desc }),
            v.expand_version == 0,
            v.cache is None,
    {
        ViewState {
            sort: SortState { key: SortKey::Size, dir: SortDir::Desc },
            expand_version: 0,
            cache: None,
        }
    }
}

impl ViewState {
    /// Whether the rows that are kept can be relied on for a list with the given top: rows that
    /// bear the present order and version are its rows.
    pub open spec fn is_fresh(&self, root: Tree) -> bool {
        match self.cache {
            Some((sort, version, rows)) => {
                &&& version <= self.expand_version
                &&& (sort == self.sort && version == self.expand_version ==> rows_in(rows@) == rows_of(
                    root,
                    top_path(),
                    sort,
                ))
            },
            None => true,
        }
    }

    /// Whether the rows that are kept bear no version that is yet to come.
    pub open spec fn is_tagged(&self) -> bool {
        match self.cache {
            Some((sort, version, rows)) => version <= self.expand_version,
            None => true,
        }
    }

    /// Works out the rows of a list if they may have changed.
    pub fn refresh(&mut self, root: &Node)
        requires
            old(self).is_fresh(root@),
        ensures
            final(self).is_fresh(root@),
            final(self).sort == old(self).sort,
            final(self).expand_version == old(self).expand_version,
            final(self).cache is Some,
            rows_in((final(self).cache->0).2@) == rows_of(root@, top_path(), old(self).sort),
    {
        let stale = match &self.cache {
            Some((s, v, _)) => *s != self.sort || *v != self.expand_version,
            None => true,
        };
        if stale {
            let mut rows: Vec<FlatRow> = Vec::new();
            let mut top: NodePath = Vec::new();
            top.push(0);
            assert(top@ =~= top_path());
            assert(rows_in(rows@) =~= Seq::empty());
            collect_rows(root, &top, self.sort, &mut rows);
            assert(rows_in(rows@) =~= rows_of(root@, top_path(), self.sort));
            self.cache = Some((self.sort, self.expand_version, rows));
        }
    }

    /// Notes that something was opened or closed, or taken out: rows worked out before are not
    /// relied on any more, whatever the list is now.
    pub fn touch(&mut self)
        ensures
            final(self).sort == old(self).sort,
            final(self).expand_version == next_version(old(self).expand_version),
            old(self).is_tagged() ==> forall|root: Tree| #[trigger] final(self).is_fresh(root),
            old(self).cache is None ==> final(self).cache is None,
    {
        if self.expand_version < u64::MAX {
            self.expand_version = self.expand_version + 1;
        } else {
            self.cache = None;
        }
    }
}

/// The version after one more change.
pub open spec fn next_version(v: u64) -> u64 {
    if v < u64::MAX {
        (v + 1) as u64
    } else {
        v
    }
}

// ---------------------------------------------------------------------------------------------
// What the list says, and what a click asks for
// ---------------------------------------------------------------------------------------------

/// The text of a heading: the one that the list is sorted by has an arrow.
pub open spec fn heading_of(label: Seq<char>, key: SortKey, sort: SortState) -> Seq<char> {
    if sort.key != key {
        label
    } else {
        label + match sort.dir {
            SortDir::Asc => " ▲"@,
            SortDir::Desc => " ▼"@,
        }
    }
}

/// The text of the heading of `key`.
pub fn heading(label: &str, key: SortKey, sort: SortState) -> (r: String)
    ensures
        r@ == heading_of(label@, key, sort),
{
    let mut out = owned(label);
    if sort.key == key {
        match sort.dir {
            SortDir::Asc => out.append(" ▲"),
            SortDir::Desc => out.append(" ▼"),
        }
    }
    out
}

/// What stands before the last backslash of a path; nothing if there is none.
pub open spec fn folder_in(path: Seq<char>) -> Seq<char>
    decreases path.len(),
{
    if path.len() == 0 {
        path
    } else if path.last() == '\\' {
        path.drop_last()
    } else {
        folder_in(path.drop_last())
    }
}

/// The folder that a file with the given path is in.
pub fn folder_text(path: &str) -> (r: String)
    ensures
        r@ == folder_in(path@),
{
    let v = chars_of(path);
    let mut n: usize = v.len();
    assert(v@.take(n as int) =~= v@);
    while n > 0
        invariant
            n <= v@.len(),
            v@ == path@,
            folder_in(v@) == folder_in(v@.take(n as int)),
        decreases n,
    {
        assert(v@.take(n as int).drop_last() =~= v@.take(n - 1));
        if v[n - 1] == '\\' {
            let r = string_of(&v, 0, n - 1);
            assert(r@ =~= v@.take(n - 1));
            return r;
        }
        n = n - 1;
    }
    String::new()
}

/// What the user asked for: what a menu was asked to delete, or else what the clicked row stands
/// for. A group is opened or closed, a file is selected.
pub fn outcome(rows: &Vec<FlatRow>, clicked: Option<usize>, delete: Option<TreeAction>) -> (r: TreeAction)
    requires
        clicked is Some ==> clicked->0 < rows@.len(),
    ensures
        match (delete, clicked) {
            (Some(a), _) => r == a,
            (None, Some(i)) => if rows@[i as int].is_group {
                asks_to_open(r, rows@[i as int].abs_path@)
            } else {
                asks_to_select(r, rows@[i as int].abs_path@)
            },
            (None, None) => r is Nothing,
        },
{
    match delete {
        Some(a) => a,
        None => match clicked {
            Some(i) => {
                let p = copy_path(&rows[i].abs_path);
                if rows[i].is_group {
                    TreeAction::ToggleExpand(p)
                } else {
                    TreeAction::Select(p)
                }
            },
            None => TreeAction::Nothing,
        },
    }
}

/// Whatever the order was, a click sorts by the clicked heading, and two more clicks on it leave
/// the order as it is.
pub proof fn law_clicking_twice_changes_nothing(s: SortState, key: SortKey)
    ensures
        clicked(s, key).key == key,
        clicked(clicked(clicked(s, key), key), key) == clicked(s, key),
        clicked(clicked(s, key), key) != clicked(s, key),
{
}

/// The order of a list says of each of its nodes once where it is shown, and turning the order
/// round shows the same nodes backwards.
pub proof fn law_turning_round_reverses(ch: Seq<Tree>, sort: SortState)
    requires
        ch.len() <= usize::MAX,
    ensures
        shown_order(ch, clicked(sort, sort.key)) =~= shown_order(ch, sort).reverse(),
        shown_order(ch, sort).len() == ch.len(),
        shown_order(ch, sort).no_duplicates(),
{
    lemma_by_key_is_preorder(sort.key);
    lemma_sorted(ch, by_key(sort.key));
}

/// A heading that the list was not sorted by sorts it with the largest or latest first.
pub proof fn law_new_headings_sort_downwards(s: SortState, key: SortKey)
    requires
        s.key != key,
    ensures
        clicked(s, key) == (SortState { key, dir: SortDir::Desc }),
{
}

proof fn lemma_shown_pair(ch: Seq<Tree>, sort: SortState, i: int, j: int)
    requires
        ch.len() <= usize::MAX,
        0 <= i < j < ch.len(),
    ensures
        ({
            let o = shown_order(ch, sort);
            &&& o.len() == ch.len()
            &&& o[i] < ch.len() && o[j] < ch.len()
            &&& sort.dir == SortDir::Asc ==> key_le(ch[o[i] as int], ch[o[j] as int], sort.key)
            &&& sort.dir == SortDir::Desc ==> key_le(ch[o[j] as int], ch[o[i] as int], sort.key)
        }),
{
    let le = by_key(sort.key);
    lemma_by_key_is_preorder(sort.key);
    lemma_sorted(ch, le);
    let up = order_of(ch, le);
    let n = ch.len();
    match sort.dir {
        SortDir::Asc => {
            assert(crate::order::precedes(ch, le, up[i] as int, up[j] as int));
        },
        SortDir::Desc => {
            let o = shown_order(ch, sort);
            assert(o[i] == up[n - 1 - i] && o[j] == up[n - 1 - j]);
            assert(crate::order::precedes(ch, le, up[n - 1 - j] as int, up[n - 1 - i] as int));
        },
    }
}

/// Nodes are shown in the order of what the list is sorted by, upwards or downwards: sizes, times, or
/// texts without regard to the case of ASCII letters. The path is the one that a node carries.
pub proof fn law_shown_order_goes_by_the_key(ch: Seq<Tree>, dir: SortDir, i: int, j: int)
    requires
        ch.len() <= usize::MAX,
        0 <= i < j < ch.len(),
    ensures
        ({
            let o = shown_order(ch, SortState { key: SortKey::Size, dir });
            let (a, b) = (ch[o[i] as int], ch[o[j] as int]);
            if dir == SortDir::Asc {
                a.logical_size <= b.logical_size
            } else {
                a.logical_size >= b.logical_size
            }
        }),
        ({
            let o = shown_order(ch, SortState { key: SortKey::Modified, dir });
            let (a, b) = (ch[o[i] as int], ch[o[j] as int]);
            if dir == SortDir::Asc {
                a.modified_ft <= b.modified_ft
            } else {
                a.modified_ft >= b.modified_ft
            }
        }),
        ({
            let o = shown_order(ch, SortState { key: SortKey::Name, dir });
            let (a, b) = (ch[o[i] as int], ch[o[j] as int]);
            if dir == SortDir::Asc {
                text_le_ignoring_case(a.name, b.name)
            } else {
                text_le_ignoring_case(b.name, a.name)
            }
        }),
        ({
            let o = shown_order(ch, SortState { key: SortKey::Path, dir });
            let (a, b) = (ch[o[i] as int], ch[o[j] as int]);
            a.full_path is Some && b.full_path is Some ==> if dir == SortDir::Asc {
                text_le_ignoring_case(a.full_path->0, b.full_path->0)
            } else {
                text_le_ignoring_case(b.full_path->0, a.full_path->0)
            }
        }),
{
    lemma_shown_pair(ch, SortState { key: SortKey::Size, dir }, i, j);
    lemma_shown_pair(ch, SortState { key: SortKey::Modified, dir }, i, j);
    lemma_shown_pair(ch, SortState { key: SortKey::Name, dir }, i, j);
    lemma_shown_pair(ch, SortState { key: SortKey::Path, dir }, i, j);
}

/// Every child is shown somewhere in the order.
proof fn lemma_shown_somewhere(ch: Seq<Tree>, sort: SortState, i: usize) -> (k: int)
    requires
        ch.len() <= usize::MAX,
        i < ch.len(),
    ensures
        0 <= k < shown_order(ch, sort).len(),
        shown_order(ch, sort)[k] == i,
        shown_order(ch, sort).len() == ch.len(),
{
    let le = by_key(sort.key);
    lemma_by_key_is_preorder(sort.key);
    lemma_sorted(ch, le);
    let up = order_of(ch, le);
    lemma_order_is_permutation(ch, le, up, 0, ch.len() as int);
    assert(up.contains((i as int) as usize));
    let k = choose|k: int| 0 <= k < up.len() && up[k] == i;
    match sort.dir {
        SortDir::Asc => k,
        SortDir::Desc => {
            assert(up.reverse()[up.len() - 1 - k] == i);
            up.len() - 1 - k
        },
    }
}

proof fn lemma_rows_stay(root: Tree, at: Seq<usize>, sort: SortState, m: int, n: int, r: Row)
    requires
        0 <= m <= n,
        group_rows(root, at, sort, m).contains(r),
    ensures
        group_rows(root, at, sort, n).contains(r),
    decreases n - m,
{
    if m < n {
        lemma_rows_stay(root, at, sort, m, n - 1, r);
        let before = group_rows(root, at, sort, n - 1);
        let now = group_rows(root, at, sort, n);
        let k = choose|k: int| 0 <= k < before.len() && before[k] == r;
        assert(now[k] == r);
    }
}

/// Every group has its row, and every file of a group that is open has one below it.
pub proof fn law_every_group_and_open_file_has_a_row(root: Tree, at: Seq<usize>, sort: SortState, i: usize, j: usize)
    requires
        root.children.len() <= usize::MAX,
        i < root.children.len(),
        root.children[i as int].children.len() <= usize::MAX,
    ensures
        rows_of(root, at, sort).contains(Row { at: at.push(i), depth: 0, is_group: true }),
        root.children[i as int].expanded && j < root.children[i as int].children.len() ==> rows_of(
            root,
            at,
            sort,
        ).contains(Row { at: at.push(i).push(j), depth: 1, is_group: false }),
{
    let n = root.children.len() as int;
    let k = lemma_shown_somewhere(root.children, sort, i);
    let group = root.children[i as int];
    let before = group_rows(root, at, sort, k);
    let now = group_rows(root, at, sort, k + 1);
    let own = Row { at: at.push(i), depth: 0, is_group: true };
    assert(now[before.len() as int] == own);
    lemma_rows_stay(root, at, sort, k + 1, n, own);
    if group.expanded && j < group.children.len() {
        let m = lemma_shown_somewhere(group.children, sort, j);
        let row = Row { at: at.push(i).push(j), depth: 1, is_group: false };
        let files = file_rows(group, at.push(i), sort);
        assert(files[m] == row);
        assert(now[before.len() + 1 + m] == row);
        lemma_rows_stay(root, at, sort, k + 1, n, row);
    }
}

/// Whether a row is of a group of `root`, or of a file of one that is open.
pub open spec fn is_row_in(root: Tree, at: Seq<usize>, r: Row) -> bool {
    if r.is_group {
        r.depth == 0 && exists|i: usize| i < root.children.len() && r.at == #[trigger] at.push(i)
    } else {
        r.depth == 1 && exists|i: usize, j: usize|
            i < root.children.len() && root.children[i as int].expanded && j < root.children[i as int].children.len() && r.at
                == #[trigger] at.push(i).push(j)
    }
}

/// There are no other rows.
pub proof fn law_rows_are_of_groups_and_open_files(root: Tree, at: Seq<usize>, sort: SortState, n: int)
    requires
        0 <= n <= root.children.len(),
        root.children.len() <= usize::MAX,
        forall|i: int| 0 <= i < root.children.len() ==> (#[trigger] root.children[i]).children.len() <= usize::MAX,
    ensures
        forall|k: int|
            0 <= k < group_rows(root, at, sort, n).len() ==> is_row_in(root, at, #[trigger] group_rows(root, at, sort, n)[k]),
    decreases n,
{
    if n > 0 {
        law_rows_are_of_groups_and_open_files(root, at, sort, n - 1);
        let before = group_rows(root, at, sort, n - 1);
        let now = group_rows(root, at, sort, n);
        let le = by_key(sort.key);
        lemma_by_key_is_preorder(sort.key);
        lemma_sorted(root.children, le);
        let i = shown_order(root.children, sort)[n - 1];
        assert(i < root.children.len());
        let group = root.children[i as int];
        lemma_sorted(group.children, le);
        assert forall|k: int| 0 <= k < now.len() implies is_row_in(root, at, #[trigger] now[k]) by {
            if k < before.len() {
                assert(now[k] == before[k]);
            } else if k == before.len() {
                assert(now[k].at == at.push(i));
            } else {
                let m = k - before.len() - 1;
                let j = shown_order(group.children, sort)[m];
                assert(now[k].at == at.push(i).push(j));
                assert(j < group.children.len());
            }
        }
    }
}

/// The folder of a path is what stands before the last backslash, whatever it is called; a path
/// without one has no folder.
pub proof fn law_folder_stands_before_the_name(folder: Seq<char>, name: Seq<char>)
    requires
        forall|i: int| 0 <= i < name.len() ==> #[trigger] name[i] != '\\',
    ensures
        folder_in(folder + seq!['\\'] + name) == folder,
        folder_in(name).len() == 0,
    decreases name.len(),
{
    let path = folder + seq!['\\'] + name;
    if name.len() == 0 {
        assert(path.drop_last() =~= folder);
    } else {
        let front = name.drop_last();
        assert(name[name.len() - 1] != '\\');
        assert forall|i: int| 0 <= i < front.len() implies #[trigger] front[i] != '\\' by {
            assert(name[i] != '\\');
        }
        law_folder_stands_before_the_name(folder, front);
        assert(path.drop_last() =~= folder + seq!['\\'] + front);
    }
}

} // verus!
