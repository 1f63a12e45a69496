//! Changing a tree of nodes in place: folding, sorting, expanding, removing.
//!
//! The walks that change a tree keep a stack of their own, so its depth is no concern to them.
//! Only cloning a node, and dropping one, goes down by calls, one for each level.
use vstd::prelude::*;

#[allow(unused_imports)]
use crate::model::{adds_up, at_path, is_rearrangement, lemma_at_push, trees, with_at, Tree};
use crate::model::{Node, NodeKind, NodePath, SortKey};
#[allow(unused_imports)]
use crate::order::{
    is_preorder, is_stable_order, law_stable_order_is_unique, lemma_order_is_permutation, lemma_sorted,
    lemma_total_rearranged, lemma_total_remove, lemma_total_update, order_of, sorted, taken_from, total,
};
use crate::order::{stable_order, take_all, Ranking};
use crate::text::text_may_precede;
#[allow(unused_imports)]
use crate::text::{lemma_lex_total, lemma_lex_transitive, lowercase, text_le};
#[allow(unused_imports)]
use crate::worklist::{
    apart, change_each, changed_children, child_paths, comparable, lemma_ahead_elsewhere,
    lemma_at_with, lemma_change_children, lemma_children_ahead, lemma_children_apart,
    lemma_with_with, node_count, nodes_ahead, nodes_among,
};

verus! {

impl Clone for Node {
    fn clone(&self) -> (res: Node)
        ensures
            res@ == self@,
        decreases self,
    {
        let mut children: Vec<Node> = Vec::new();
        let mut i: usize = 0;
        while i < self.children.len()
            invariant
                i <= self.children@.len(),
                children@.len() == i,
                forall|k: int| 0 <= k < i ==> (#[trigger] children@[k])@ == self.children@[k]@,
            decreases self.children@.len() - i,
        {
            let c = self.children[i].clone();
            children.push(c);
            i = i + 1;
        }
        let full_path_override: Option<String> = match &self.full_path_override {
            Some(p) => Some(p.clone()),
            None => None,
        };
        let res = Node {
            name: self.name.clone(),
            size: self.size,
            logical_size: self.logical_size,
            physical_size: self.physical_size,
            kind: self.kind,
            color: self.color,
            children,
            expanded: self.expanded,
            file_count: self.file_count,
            folder_count: self.folder_count,
            modified_ft: self.modified_ft,
            created_ft: self.created_ft,
            accessed_ft: self.accessed_ft,
            attributes: self.attributes,
            reparse_tag: self.reparse_tag,
            is_reserved: self.is_reserved,
            owner: self.owner.clone(),
            full_path_override,
        };
        assert(res@.children =~= self@.children);
        res
    }
}

/// A vector with the same numbers.
pub fn copy_path(p: &Vec<usize>) -> (r: NodePath)
    ensures
        r@ == p@,
{
    let mut out: Vec<usize> = Vec::new();
    let mut i: usize = 0;
    while i < p.len()
        invariant
            i <= p@.len(),
            out@ =~= p@.take(i as int),
        decreases p@.len() - i,
    {
        out.push(p[i]);
        i = i + 1;
    }
    assert(p@.take(p@.len() as int) =~= p@);
    out
}

/// The paths that a stack holds.
pub open spec fn paths(stack: Seq<Vec<usize>>) -> Seq<Seq<usize>> {
    Seq::new(stack.len(), |i: int| stack[i]@)
}

/// Puts the paths of the children `idx` of the node at `p` on the stack.
fn push_children(stack: &mut Vec<Vec<usize>>, p: &Vec<usize>, idx: &Vec<usize>)
    ensures
        paths(final(stack)@) == paths(old(stack)@) + child_paths(p@, idx@),
{
    let mut k: usize = 0;
    while k < idx.len()
        invariant
            k <= idx@.len(),
            paths(stack@) =~= paths(old(stack)@) + child_paths(p@, idx@.take(k as int)),
        decreases idx@.len() - k,
    {
        let mut q = copy_path(p);
        q.push(idx[k]);
        let ghost before = paths(stack@);
        stack.push(q);
        assert(paths(stack@) =~= before.push(p@.push(idx@[k as int])));
        k = k + 1;
        assert(child_paths(p@, idx@.take(k as int)) =~= child_paths(p@, idx@.take(k - 1)).push(
            p@.push(idx@[k - 1]),
        ));
    }
    assert(idx@.take(idx@.len() as int) =~= idx@);
}

// ---------------------------------------------------------------------------------------------
// Folding
// ---------------------------------------------------------------------------------------------

/// The tree folded up: the node is no longer expanded, and if it was, nor are its children, all
/// the way down.
pub open spec fn collapsed(t: Tree) -> Tree
    decreases t,
{
    Tree {
        expanded: false,
        children: if t.expanded {
            Seq::new(
                t.children.len(),
                |i: int|
                    if 0 <= i < t.children.len() {
                        collapsed(t.children[i])
                    } else {
                        arbitrary()
                    },
            )
        } else {
            t.children
        },
        ..t
    }
}

spec fn collapse() -> spec_fn(Tree) -> Tree {
    |t: Tree| collapsed(t)
}

/// The numbers from 0 up to, not including, `n`.
fn all_positions(n: usize) -> (r: Vec<usize>)
    ensures
        r@.len() == n,
        forall|k: int| 0 <= k < n ==> #[trigger] r@[k] == k,
{
    let mut out: Vec<usize> = Vec::new();
    let mut i: usize = 0;
    while i < n
        invariant
            i <= n,
            out@.len() == i,
            forall|k: int| 0 <= k < i ==> #[trigger] out@[k] == k,
        decreases n - i,
    {
        out.push(i);
        i = i + 1;
    }
    out
}

impl Node {
    /// Folds the node up. What was not expanded is not looked into: below it nothing is expanded
    /// either, as long as nodes are expanded by [`Node::exclusive_toggle`].
    pub fn collapse_all(&mut self)
        ensures
            final(self)@ == collapsed(old(self)@),
    {
        let ghost goal = collapsed(self@);
        let ghost f = collapse();
        let mut stack: Vec<Vec<usize>> = Vec::new();
        stack.push(Vec::new());
        proof {
            let s = paths(stack@);
            assert(s.drop_last() =~= Seq::<Seq<usize>>::empty());
            assert(s.last() =~= Seq::<usize>::empty());
            reveal_with_fuel(change_each, 2);
        }
        while stack.len() > 0
            invariant
                f == collapse(),
                goal == collapsed(old(self)@),
                change_each(self@, paths(stack@), f) == goal,
                apart(paths(stack@)),
            decreases nodes_ahead(self@, paths(stack@)),
        {
            let ghost before = paths(stack@);
            let ghost t = self@;
            let rel: Vec<usize> = stack.pop().unwrap();
            let ghost base = paths(stack@);
            assert(before =~= base.push(rel@));
            assert(before.drop_last() =~= base);
            let n: usize;
            match self.navigate_mut(rel.as_slice()) {
                Some(cur) => {
                    let len: usize = cur.children.len();
                    n = if cur.expanded {
                        len
                    } else {
                        0
                    };
                    assert(at_path(t, rel@)->0.children.len() == len);
                    let ghost here = cur@;
                    cur.expanded = false;
                    assert(cur@ == (Tree { expanded: false, ..here })) by {
                        assert(cur@.children =~= here.children);
                    }
                },
                None => {
                    n = 0;
                },
            }
            let idx = all_positions(n);
            push_children(&mut stack, &rel, &idx);
            proof {
                let kids = child_paths(rel@, idx@);
                lemma_children_apart(base, rel@, idx@);
                match at_path(t, rel@) {
                    Some(c) => {
                        let c1 = Tree { expanded: false, ..c };
                        let t1 = self@;
                        assert(t1 == with_at(t, rel@, c1));
                        lemma_at_with(t, rel@, c1);
                        lemma_change_children(t1, base, rel@, idx@, f);
                        let c2 = Tree { children: changed_children(c1.children, idx@, f), ..c1 };
                        lemma_with_with(t, rel@, c1, c2);
                        assert(c2.children =~= collapsed(c).children) by {
                            assert forall|j: int| 0 <= j < c.children.len() implies #[trigger] idx@.contains(
                                j as usize,
                            ) == c.expanded by {
                                if c.expanded {
                                    assert(idx@[j] == j as usize);
                                }
                            }
                        }
                        assert(c2 == collapsed(c));
                        assert forall|a: int| 0 <= a < base.len() implies !comparable(
                            #[trigger] base[a],
                            rel@,
                        ) by {
                            assert(!comparable(before[a], before[base.len() as int]));
                        }
                        lemma_ahead_elsewhere(t, rel@, c1, base);
                        lemma_children_ahead(t1, base, rel@, idx@);
                    },
                    None => {
                        assert(kids =~= Seq::<Seq<usize>>::empty());
                        assert(base + kids =~= base);
                    },
                }
            }
        }
    }
}

// ---------------------------------------------------------------------------------------------
// Sorting
// ---------------------------------------------------------------------------------------------

/// The path of a node that carries one, else nothing.
pub open spec fn path_text(t: Tree) -> Seq<char> {
    match t.full_path {
        Some(p) => p,
        None => Seq::empty(),
    }
}

/// Whether `a` is ordered before `b` or equal by `key`. Text is compared without regard to case.
pub open spec fn key_le(a: Tree, b: Tree, key: SortKey) -> bool {
    match key {
        SortKey::Name => text_le(lowercase(a.name), lowercase(b.name)),
        SortKey::LogicalSize => a.logical_size <= b.logical_size,
        SortKey::PhysicalSize => a.physical_size <= b.physical_size,
        SortKey::Modified => a.modified_ft <= b.modified_ft,
        SortKey::Created => a.created_ft <= b.created_ft,
        SortKey::Accessed => a.accessed_ft <= b.accessed_ft,
        SortKey::Attributes => a.attributes <= b.attributes,
        SortKey::Owner => text_le(lowercase(a.owner), lowercase(b.owner)),
        SortKey::Path => text_le(lowercase(path_text(a)), lowercase(path_text(b))),
    }
}

/// Whether `a` may stand before `b`: folders stand before files whatever the key and the
/// direction, and the key decides among folders and among files.
pub open spec fn stands_before(a: Tree, b: Tree, key: SortKey, ascending: bool) -> bool {
    if a.kind != b.kind {
        a.kind == NodeKind::Folder
    } else if ascending {
        key_le(a, b, key)
    } else {
        key_le(b, a, key)
    }
}

pub open spec fn by_key(key: SortKey, ascending: bool) -> spec_fn(Tree, Tree) -> bool {
    |a: Tree, b: Tree| stands_before(a, b, key, ascending)
}

/// The tree with the children of the node and of every folder below it sorted.
pub open spec fn sorted_deep(t: Tree, key: SortKey, ascending: bool) -> Tree
    decreases t,
{
    Tree { children: sorted(each_sorted_deep(t.children, key, ascending), by_key(key, ascending)), ..t }
}

/// `ch` with every folder among them sorted deeply.
pub open spec fn each_sorted_deep(ch: Seq<Tree>, key: SortKey, ascending: bool) -> Seq<Tree>
    decreases ch,
{
    if ch.len() == 0 {
        Seq::empty()
    } else {
        each_sorted_deep(ch.drop_last(), key, ascending).push(
            if ch.last().kind == NodeKind::Folder {
                sorted_deep(ch.last(), key, ascending)
            } else {
                ch.last()
            },
        )
    }
}

proof fn lemma_key_total(a: Tree, b: Tree, key: SortKey)
    ensures
        key_le(a, b, key) || key_le(b, a, key),
{
    let e = |s: Seq<char>| vstd::utf8::encode_utf8(lowercase(s));
    lemma_lex_total(e(a.name), e(b.name));
    lemma_lex_total(e(a.owner), e(b.owner));
    lemma_lex_total(e(path_text(a)), e(path_text(b)));
}

proof fn lemma_key_transitive(a: Tree, b: Tree, c: Tree, key: SortKey)
    requires
        key_le(a, b, key),
        key_le(b, c, key),
    ensures
        key_le(a, c, key),
{
    let e = |s: Seq<char>| vstd::utf8::encode_utf8(lowercase(s));
    match key {
        SortKey::Name => lemma_lex_transitive(e(a.name), e(b.name), e(c.name)),
        SortKey::Owner => lemma_lex_transitive(e(a.owner), e(b.owner), e(c.owner)),
        SortKey::Path => lemma_lex_transitive(e(path_text(a)), e(path_text(b)), e(path_text(c))),
        _ => {},
    }
}

pub proof fn lemma_by_key_is_preorder(key: SortKey, ascending: bool)
    ensures
        is_preorder(by_key(key, ascending)),
{
    let le = by_key(key, ascending);
    assert forall|a: Tree, b: Tree| #[trigger] le(a, b) || le(b, a) by {
        lemma_key_total(a, b, key);
    }
    assert forall|a: Tree, b: Tree, c: Tree| #[trigger] le(a, b) && #[trigger] le(b, c) implies le(a, c) by {
        if a.kind == b.kind && b.kind == c.kind {
            if ascending {
                lemma_key_transitive(a, b, c, key);
            } else {
                lemma_key_transitive(c, b, a, key);
            }
        }
    }
}

fn key_may_precede(a: &Node, b: &Node, key: SortKey) -> (r: bool)
    ensures
        r == key_le(a@, b@, key),
{
    match key {
        SortKey::Name => {
            let x = a.name.as_str().to_lowercase();
            let y = b.name.as_str().to_lowercase();
            text_may_precede(x.as_str(), y.as_str())
        },
        SortKey::LogicalSize => a.logical_size <= b.logical_size,
        SortKey::PhysicalSize => a.physical_size <= b.physical_size,
        SortKey::Modified => a.modified_ft <= b.modified_ft,
        SortKey::Created => a.created_ft <= b.created_ft,
        SortKey::Accessed => a.accessed_ft <= b.accessed_ft,
        SortKey::Attributes => a.attributes <= b.attributes,
        SortKey::Owner => {
            let x = a.owner.as_str().to_lowercase();
            let y = b.owner.as_str().to_lowercase();
            text_may_precede(x.as_str(), y.as_str())
        },
        SortKey::Path => {
            let none = String::new();
            let p = match &a.full_path_override {
                Some(s) => s,
                None => &none,
            };
            let q = match &b.full_path_override {
                Some(s) => s,
                None => &none,
            };
            let x = p.as_str().to_lowercase();
            let y = q.as_str().to_lowercase();
            text_may_precede(x.as_str(), y.as_str())
        },
    }
}

struct KeyRank<'a> {
    nodes: &'a Vec<Node>,
    key: SortKey,
    ascending: bool,
}

impl<'a> Ranking<Tree> for KeyRank<'a> {
    closed spec fn items(&self) -> Seq<Tree> {
        trees(self.nodes@)
    }

    closed spec fn le(&self) -> spec_fn(Tree, Tree) -> bool {
        by_key(self.key, self.ascending)
    }

    proof fn is_lawful(&self) {
        lemma_by_key_is_preorder(self.key, self.ascending);
    }

    fn may_precede(&self, i: usize, j: usize) -> (r: bool) {
        let a = &self.nodes[i];
        let b = &self.nodes[j];
        if a.is_folder() != b.is_folder() {
            a.is_folder()
        } else if self.ascending {
            key_may_precede(a, b, self.key)
        } else {
            key_may_precede(b, a, self.key)
        }
    }
}

/// Sorts some nodes.
fn sort_nodes(nodes: Vec<Node>, key: SortKey, ascending: bool) -> (res: Vec<Node>)
    ensures
        trees(res@) == sorted(trees(nodes@), by_key(key, ascending)),
{
    let rank = KeyRank { nodes: &nodes, key, ascending };
    let order = stable_order(&rank, nodes.len());
    let ghost ch = trees(nodes@);
    proof {
        lemma_by_key_is_preorder(key, ascending);
        lemma_order_is_permutation(ch, by_key(key, ascending), order@, 0, ch.len() as int);
    }
    let res = take_all(nodes, &order);
    assert(trees(res@) =~= taken_from(ch, order@));
    res
}

/// The positions of the folders among `nodes`.
fn folder_positions(nodes: &Vec<Node>) -> (r: Vec<usize>)
    ensures
        r@.no_duplicates(),
        forall|k: int| 0 <= k < r@.len() ==> #[trigger] r@[k] < nodes@.len(),
        forall|j: int| 0 <= j < nodes@.len() ==> (#[trigger] r@.contains(j as usize) <==> nodes@[j].kind
            == NodeKind::Folder),
{
    let mut out: Vec<usize> = Vec::new();
    let mut i: usize = 0;
    while i < nodes.len()
        invariant
            i <= nodes@.len(),
            out@.no_duplicates(),
            forall|k: int| 0 <= k < out@.len() ==> #[trigger] out@[k] < i,
            forall|j: int| 0 <= j < i ==> (#[trigger] out@.contains(j as usize) <==> nodes@[j].kind
                == NodeKind::Folder),
        decreases nodes@.len() - i,
    {
        let ghost before = out@;
        assert(!before.contains(i)) by {
            if before.contains(i) {
                let k = before.index_of(i);
                assert(before[k] < i);
            }
        }
        if nodes[i].is_folder() {
            out.push(i);
            assert(out@[before.len() as int] == i);
            assert forall|j: int| 0 <= j < i + 1 implies (#[trigger] out@.contains(j as usize) <==> nodes@[j].kind
                == NodeKind::Folder) by {
                if j < i {
                    if before.contains(j as usize) {
                        let k = before.index_of(j as usize);
                        assert(out@[k] == j as usize);
                    }
                    if out@.contains(j as usize) {
                        let k = out@.index_of(j as usize);
                        assert(before[k] == j as usize);
                    }
                }
            }
        }
        i = i + 1;
    }
    out
}

/// What [`sorted_deep`] does to a child.
pub open spec fn sort_child(c: Tree, key: SortKey, ascending: bool) -> Tree {
    if c.kind == NodeKind::Folder {
        sorted_deep(c, key, ascending)
    } else {
        c
    }
}

pub open spec fn child_sorter(key: SortKey, ascending: bool) -> spec_fn(Tree) -> Tree {
    |c: Tree| sort_child(c, key, ascending)
}

/// Sorting each of `ch` deeply changes each by itself.
pub proof fn lemma_each_sorted_deep(ch: Seq<Tree>, key: SortKey, ascending: bool)
    ensures
        each_sorted_deep(ch, key, ascending) == ch.map_values(child_sorter(key, ascending)),
    decreases ch.len(),
{
    let g = child_sorter(key, ascending);
    if ch.len() > 0 {
        lemma_each_sorted_deep(ch.drop_last(), key, ascending);
    }
    assert(each_sorted_deep(ch, key, ascending) =~= ch.map_values(g));
}

/// Sorting the children does not depend on whether their own children are sorted first.
proof fn lemma_sort_then_descend(ch: Seq<Tree>, key: SortKey, ascending: bool)
    requires
        ch.len() <= usize::MAX,
    ensures
        sorted(ch.map_values(child_sorter(key, ascending)), by_key(key, ascending)) == sorted(
            ch,
            by_key(key, ascending),
        ).map_values(child_sorter(key, ascending)),
{
    let le = by_key(key, ascending);
    let g = child_sorter(key, ascending);
    let gh = ch.map_values(g);
    lemma_by_key_is_preorder(key, ascending);
    lemma_sorted(ch, le);
    lemma_sorted(gh, le);
    let o = order_of(ch, le);
    assert(is_stable_order(gh, le, o)) by {
        assert forall|i: int, j: int| 0 <= i < ch.len() && 0 <= j < ch.len() implies le(
            #[trigger] gh[i],
            #[trigger] gh[j],
        ) == le(ch[i], ch[j]) by {}
        assert forall|a: int, b: int| 0 <= a < b < o.len() implies crate::order::precedes(
            gh,
            le,
            #[trigger] o[a] as int,
            #[trigger] o[b] as int,
        ) by {
            assert(crate::order::precedes(ch, le, o[a] as int, o[b] as int));
            assert(le(gh[o[a] as int], gh[o[b] as int]) == le(ch[o[a] as int], ch[o[b] as int]));
            assert(le(gh[o[b] as int], gh[o[a] as int]) == le(ch[o[b] as int], ch[o[a] as int]));
        }
    }
    law_stable_order_is_unique(gh, le, o, order_of(gh, le));
    assert(taken_from(gh, o) =~= taken_from(ch, o).map_values(g));
}

proof fn lemma_among_is_total(ch: Seq<Tree>)
    ensures
        nodes_among(ch) == total(ch, |c: Tree| node_count(c)),
    decreases ch.len(),
{
    if ch.len() > 0 {
        lemma_among_is_total(ch.drop_last());
    }
}

/// Sorting keeps the number of nodes.
proof fn lemma_sorting_keeps_count(ch: Seq<Tree>, key: SortKey, ascending: bool)
    requires
        ch.len() <= usize::MAX,
    ensures
        nodes_among(sorted(ch, by_key(key, ascending))) == nodes_among(ch),
{
    let le = by_key(key, ascending);
    lemma_by_key_is_preorder(key, ascending);
    lemma_sorted(ch, le);
    lemma_among_is_total(ch);
    lemma_among_is_total(sorted(ch, le));
    lemma_total_rearranged(ch, |c: Tree| node_count(c), order_of(ch, le));
}

spec fn deep_sort(key: SortKey, ascending: bool) -> spec_fn(Tree) -> Tree {
    |t: Tree| sorted_deep(t, key, ascending)
}

impl Node {
    /// Sorts the children of the node and of every folder below it.
    pub fn sort_recursive(&mut self, key: SortKey, ascending: bool)
        ensures
            final(self)@ == sorted_deep(old(self)@, key, ascending),
    {
        let ghost goal = sorted_deep(self@, key, ascending);
        let ghost f = deep_sort(key, ascending);
        let mut stack: Vec<Vec<usize>> = Vec::new();
        stack.push(Vec::new());
        proof {
            let s = paths(stack@);
            assert(s.drop_last() =~= Seq::<Seq<usize>>::empty());
            assert(s.last() =~= Seq::<usize>::empty());
            reveal_with_fuel(change_each, 2);
        }
        while stack.len() > 0
            invariant
                f == deep_sort(key, ascending),
                goal == sorted_deep(old(self)@, key, ascending),
                change_each(self@, paths(stack@), f) == goal,
                apart(paths(stack@)),
            decreases nodes_ahead(self@, paths(stack@)),
        {
            let ghost before = paths(stack@);
            let ghost t = self@;
            let rel: Vec<usize> = stack.pop().unwrap();
            let ghost base = paths(stack@);
            assert(before =~= base.push(rel@));
            assert(before.drop_last() =~= base);
            let idx: Vec<usize>;
            match self.navigate_mut(rel.as_slice()) {
                Some(cur) => {
                    let len: usize = cur.children.len();
                    let ghost here = cur@;
                    assert(here.children =~= trees(cur.children@));
                    let mut children: Vec<Node> = Vec::new();
                    std::mem::swap(&mut children, &mut cur.children);
                    let in_order = sort_nodes(children, key, ascending);
                    idx = folder_positions(&in_order);
                    cur.children = in_order;
                    assert(cur@.children =~= trees(in_order@));
                    assert(cur@ == (Tree { children: sorted(here.children, by_key(key, ascending)), ..here }));
                    assert(here.children.len() == len);
                    assert(forall|j: int|
                        0 <= j < cur@.children.len() ==> (#[trigger] idx@.contains(j as usize)
                            <==> cur@.children[j].kind == NodeKind::Folder));
                },
                None => {
                    idx = Vec::new();
                },
            }
            push_children(&mut stack, &rel, &idx);
            proof {
                let kids = child_paths(rel@, idx@);
                lemma_children_apart(base, rel@, idx@);
                match at_path(t, rel@) {
                    Some(c) => {
                        let le = by_key(key, ascending);
                        let c1 = Tree { children: sorted(c.children, le), ..c };
                        let t1 = self@;
                        assert(t1 == with_at(t, rel@, c1));
                        lemma_at_with(t, rel@, c1);
                        lemma_by_key_is_preorder(key, ascending);
                        lemma_sorted(c.children, le);
                        lemma_change_children(t1, base, rel@, idx@, f);
                        let c2 = Tree { children: changed_children(c1.children, idx@, f), ..c1 };
                        lemma_with_with(t, rel@, c1, c2);
                        lemma_sort_then_descend(c.children, key, ascending);
                        lemma_each_sorted_deep(c.children, key, ascending);
                        let g = child_sorter(key, ascending);
                        assert(c2.children =~= c1.children.map_values(g));
                        assert(c2 == sorted_deep(c, key, ascending));
                        assert forall|a: int| 0 <= a < base.len() implies !comparable(
                            #[trigger] base[a],
                            rel@,
                        ) by {
                            assert(!comparable(before[a], before[base.len() as int]));
                        }
                        lemma_ahead_elsewhere(t, rel@, c1, base);
                        lemma_children_ahead(t1, base, rel@, idx@);
                        lemma_sorting_keeps_count(c.children, key, ascending);
                    },
                    None => {
                        assert(kids =~= Seq::<Seq<usize>>::empty());
                        assert(base + kids =~= base);
                    },
                }
            }
        }
    }
}

// ---------------------------------------------------------------------------------------------
// Expanding
// ---------------------------------------------------------------------------------------------

/// Each of `ch` folded up.
pub open spec fn each_collapsed(ch: Seq<Tree>) -> Seq<Tree> {
    Seq::new(ch.len(), |i: int| collapsed(ch[i]))
}

/// `ch` after a click on item `i`: all are folded up, and item `i` is expanded if it was not.
pub open spec fn toggled_among(ch: Seq<Tree>, i: usize) -> Seq<Tree> {
    let folded = each_collapsed(ch);
    if i < ch.len() && !ch[i as int].expanded {
        folded.update(i as int, Tree { expanded: true, ..folded[i as int] })
    } else {
        folded
    }
}

/// The tree after a click on the node at the end of `path`, and whether that node is now expanded.
pub open spec fn toggled(t: Tree, path: Seq<usize>) -> (Tree, bool) {
    if path.len() == 0 {
        (t, false)
    } else {
        let up = path.drop_last();
        match at_path(t, up) {
            Some(p) => (
                with_at(t, up, Tree { children: toggled_among(p.children, path.last()), ..p }),
                path.last() < p.children.len() && !p.children[path.last() as int].expanded,
            ),
            None => (t, false),
        }
    }
}

impl Node {
    /// Expands the node at the end of `path` and folds up its siblings, or folds it up if it was
    /// expanded. Returns whether it is now expanded.
    pub fn exclusive_toggle(&mut self, path: &[usize]) -> (opened: bool)
        ensures
            (final(self)@, opened) == toggled(old(self)@, path@),
    {
        if path.len() == 0 {
            return false;
        }
        let last: usize = path.len() - 1;
        let up = vstd::slice::slice_subrange(path, 0, last);
        assert(up@ =~= path@.drop_last());
        let target: usize = path[last];
        match self.navigate_mut(up) {
            Some(parent) => {
                let ghost here = parent@;
                let n: usize = parent.children.len();
                let was: bool = target < n && parent.children[target].expanded;
                assert(was == (target < n && here.children[target as int].expanded)) by {
                    if target < n {
                        assert(here.children[target as int] == parent.children@[target as int]@);
                    }
                }
                let mut i: usize = 0;
                while i < n
                    invariant
                        i <= n,
                        n == here.children.len(),
                        parent.children@.len() == n,
                        parent@ == (Tree { children: parent@.children, ..here }),
                        forall|k: int| 0 <= k < i ==> #[trigger] parent@.children[k] == collapsed(
                            here.children[k],
                        ),
                        forall|k: int| i <= k < n ==> #[trigger] parent@.children[k] == here.children[k],
                    decreases n - i,
                {
                    let ghost before = parent@;
                    let ghost nodes = parent.children@;
                    assert(before.children[i as int] == nodes[i as int]@);
                    parent.children[i].collapse_all();
                    assert(parent.children@ =~= nodes.update(i as int, parent.children@[i as int]));
                    assert(parent.children@[i as int]@ == collapsed(nodes[i as int]@));
                    assert(parent@.children =~= before.children.update(
                        i as int,
                        collapsed(here.children[i as int]),
                    ));
                    i = i + 1;
                }
                assert(parent@.children =~= each_collapsed(here.children));
                if !was && target < n {
                    let ghost before = parent@;
                    let ghost nodes = parent.children@;
                    assert(before.children[target as int] == nodes[target as int]@);
                    parent.children[target].expanded = true;
                    assert(parent.children@ =~= nodes.update(target as int, parent.children@[target as int]));
                    let ghost opened = Tree { expanded: true, ..before.children[target as int] };
                    assert(parent.children@[target as int]@.children =~= opened.children);
                    assert(parent@.children =~= before.children.update(target as int, opened));
                    assert(parent@ == (Tree { children: toggled_among(here.children, target), ..here }));
                    return true;
                }
                assert(parent@ == (Tree { children: toggled_among(here.children, target), ..here }));
                false
            },
            None => false,
        }
    }
}

/// Whether no node of the tree is expanded.
pub open spec fn nothing_expanded(t: Tree) -> bool
    decreases t,
{
    !t.expanded && forall|i: int| 0 <= i < t.children.len() ==> nothing_expanded(#[trigger] t.children[i])
}

/// Whether nothing is expanded below a node that is not.
pub open spec fn tidy(t: Tree) -> bool
    decreases t,
{
    if t.expanded {
        forall|i: int| 0 <= i < t.children.len() ==> tidy(#[trigger] t.children[i])
    } else {
        nothing_expanded(t)
    }
}

/// Folding up a tidy tree leaves nothing expanded, though it looks below expanded nodes only.
pub proof fn law_collapse_leaves_nothing_expanded(t: Tree)
    requires
        tidy(t),
    ensures
        nothing_expanded(collapsed(t)),
    decreases t,
{
    let c = collapsed(t);
    if t.expanded {
        assert forall|i: int| 0 <= i < c.children.len() implies nothing_expanded(#[trigger] c.children[i]) by {
            law_collapse_leaves_nothing_expanded(t.children[i]);
        }
    }
}

/// After a click at most one of the siblings is expanded: the one clicked on, and exactly if the
/// click is reported to have opened it.
pub proof fn law_toggle_is_exclusive(t: Tree, path: Seq<usize>)
    requires
        path.len() > 0,
        at_path(t, path.drop_last()) is Some,
    ensures
        ({
            let (u, opened) = toggled(t, path);
            let up = at_path(u, path.drop_last());
            &&& up is Some
            &&& forall|i: int|
                0 <= i < up->0.children.len() ==> (#[trigger] up->0.children[i]).expanded == (opened && i
                    == path.last())
        }),
{
    let p = at_path(t, path.drop_last())->0;
    lemma_at_with(
        t,
        path.drop_last(),
        Tree { children: toggled_among(p.children, path.last()), ..p },
    );
}

/// Clicking twice on a tidy node that was folded up leaves it folded up again.
pub proof fn law_toggle_twice_closes(t: Tree, path: Seq<usize>)
    requires
        toggled(t, path).1,
    ensures
        !toggled(toggled(t, path).0, path).1,
{
    let p = at_path(t, path.drop_last())->0;
    lemma_at_with(
        t,
        path.drop_last(),
        Tree { children: toggled_among(p.children, path.last()), ..p },
    );
}

proof fn lemma_nothing_expanded_is_tidy(t: Tree)
    requires
        nothing_expanded(t),
    ensures
        tidy(t),
{
}

/// Whether every node on the way along `path`, the first and the last left out, is expanded.
pub open spec fn way_is_expanded(t: Tree, path: Seq<usize>) -> bool
    decreases path.len(),
{
    path.len() <= 1 || (path[0] < t.children.len() && t.children[path[0] as int].expanded
        && way_is_expanded(t.children[path[0] as int], path.skip(1)))
}

/// Clicks keep a tree tidy: where the children of the root are tidy, and everything between the
/// root and the node clicked on is expanded, the children of the root are tidy after the click.
pub proof fn law_toggle_keeps_tidy(t: Tree, path: Seq<usize>)
    requires
        path.len() > 0,
        forall|i: int| 0 <= i < t.children.len() ==> tidy(#[trigger] t.children[i]),
        way_is_expanded(t, path),
    ensures
        ({
            let u = toggled(t, path).0;
            forall|i: int| 0 <= i < u.children.len() ==> tidy(#[trigger] u.children[i])
        }),
    decreases path.len(),
{
    let u = toggled(t, path).0;
    if path.len() == 1 {
        assert(path.drop_last() =~= Seq::<usize>::empty());
        assert(u.children == toggled_among(t.children, path.last()));
        assert forall|i: int| 0 <= i < u.children.len() implies tidy(#[trigger] u.children[i]) by {
            let c = t.children[i];
            law_collapse_leaves_nothing_expanded(c);
            if i == path.last() && !c.expanded {
                assert forall|j: int| 0 <= j < u.children[i].children.len() implies tidy(
                    #[trigger] u.children[i].children[j],
                ) by {
                    assert(nothing_expanded(collapsed(c).children[j]));
                    lemma_nothing_expanded_is_tidy(collapsed(c).children[j]);
                }
            } else {
                lemma_nothing_expanded_is_tidy(collapsed(c));
            }
        }
    } else {
        let i = path[0] as int;
        let c = t.children[i];
        let rest = path.skip(1);
        assert(path.drop_last().skip(1) =~= rest.drop_last());
        assert(path.drop_last()[0] == path[0]);
        assert(rest.last() == path.last());
        law_toggle_keeps_tidy(c, rest);
        let v = toggled(c, rest).0;
        assert(at_path(t, path.drop_last()) == at_path(c, rest.drop_last()));
        if at_path(t, path.drop_last()) is Some {
            assert(u == (Tree { children: t.children.update(i, v), ..t }));
            assert(v.expanded) by {
                if rest.len() > 1 {
                    assert(rest.drop_last().len() > 0);
                } else {
                    assert(rest.drop_last() =~= Seq::<usize>::empty());
                }
            }
            assert(tidy(v));
        }
    }
}

// ---------------------------------------------------------------------------------------------
// Removing
// ---------------------------------------------------------------------------------------------

/// `a - b`, or 0 where `b` is the larger.
pub open spec fn minus(a: u64, b: nat) -> u64 {
    if a >= b {
        (a - b) as u64
    } else {
        0
    }
}

/// The files that `t` stands for: those below it, and itself.
pub open spec fn own_files(t: Tree) -> nat {
    t.file_count as nat + if t.kind == NodeKind::File { 1nat } else { 0nat }
}

/// The folders that `t` stands for: those below it, and itself.
pub open spec fn own_folders(t: Tree) -> nat {
    t.folder_count as nat + if t.kind == NodeKind::Folder { 1nat } else { 0nat }
}

/// `t` with the sizes and counts of `gone` taken off.
pub open spec fn without(t: Tree, gone: Tree) -> Tree {
    Tree {
        size: minus(t.size, gone.logical_size as nat),
        logical_size: minus(t.logical_size, gone.logical_size as nat),
        physical_size: minus(t.physical_size, gone.physical_size as nat),
        file_count: minus(t.file_count, own_files(gone)),
        folder_count: minus(t.folder_count, own_folders(gone)),
        ..t
    }
}

/// `t` with `x` put at the end of `p`, and `gone` taken off every node on the way there.
pub open spec fn thinned(t: Tree, p: Seq<usize>, gone: Tree, x: Tree) -> Tree
    decreases p.len(),
{
    if p.len() == 0 {
        x
    } else {
        Tree {
            children: t.children.update(
                p[0] as int,
                thinned(t.children[p[0] as int], p.skip(1), gone, x),
            ),
            ..without(t, gone)
        }
    }
}

/// The tree after the node at the end of `path` is taken out: its parent has one child less, and
/// every node above it loses its sizes and counts. A path that leads nowhere, and the path of the
/// root, change nothing.
pub open spec fn removed_at(t: Tree, path: Seq<usize>) -> Tree {
    if path.len() == 0 || at_path(t, path) is None {
        t
    } else {
        let gone = at_path(t, path)->0;
        let p = at_path(t, path.drop_last())->0;
        thinned(
            t,
            path.drop_last(),
            gone,
            Tree { children: p.children.remove(path.last() as int), ..without(p, gone) },
        )
    }
}

proof fn lemma_thinned_push(t: Tree, p: Seq<usize>, i: usize, gone: Tree, x: Tree)
    requires
        at_path(t, p) is Some,
        i < at_path(t, p)->0.children.len(),
    ensures
        thinned(t, p.push(i), gone, x) == thinned(
            t,
            p,
            gone,
            (Tree {
                children: at_path(t, p)->0.children.update(i as int, x),
                ..without(at_path(t, p)->0, gone)
            }),
        ),
    decreases p.len(),
{
    if p.len() == 0 {
        reveal_with_fuel(thinned, 2);
        assert(p.push(i).skip(1) =~= Seq::<usize>::empty());
    } else {
        assert(p.push(i).skip(1) =~= p.skip(1).push(i));
        lemma_thinned_push(t.children[p[0] as int], p.skip(1), i, gone, x);
    }
}

/// A path that leads somewhere leads somewhere all along.
proof fn lemma_way_exists(t: Tree, path: Seq<usize>)
    requires
        path.len() > 0,
        at_path(t, path) is Some,
    ensures
        at_path(t, path.drop_last()) is Some,
        path.last() < at_path(t, path.drop_last())->0.children.len(),
        at_path(t, path)->0 == at_path(t, path.drop_last())->0.children[path.last() as int],
{
    assert(path.drop_last().push(path.last()) =~= path);
    lemma_at_push(t, path.drop_last(), path.last());
}

fn reduced(a: u64, b: u64, one_more: bool) -> (r: u64)
    ensures
        r == minus(a, b as nat + if one_more { 1nat } else { 0nat }),
{
    let one: u64 = if one_more { 1 } else { 0 };
    if a >= b && a - b >= one {
        a - b - one
    } else {
        0
    }
}

/// The numbers of a node that is being removed.
struct Removed {
    logical_size: u64,
    physical_size: u64,
    file_count: u64,
    folder_count: u64,
    is_file: bool,
}

impl Removed {
    spec fn is_of(&self, t: Tree) -> bool {
        &&& self.logical_size == t.logical_size
        &&& self.physical_size == t.physical_size
        &&& self.file_count == t.file_count
        &&& self.folder_count == t.folder_count
        &&& self.is_file == (t.kind == NodeKind::File)
    }
}

/// Takes the sizes and counts of a removed node off `n`.
fn take_off(n: &mut Node, gone: &Removed)
    ensures
        final(n).children@ == old(n).children@,
        forall|g: Tree| #[trigger] gone.is_of(g) ==> final(n)@ == without(old(n)@, g),
{
    let ghost before = n@;
    n.size = reduced(n.size, gone.logical_size, false);
    n.logical_size = reduced(n.logical_size, gone.logical_size, false);
    n.physical_size = reduced(n.physical_size, gone.physical_size, false);
    n.file_count = reduced(n.file_count, gone.file_count, gone.is_file);
    n.folder_count = reduced(n.folder_count, gone.folder_count, !gone.is_file);
    assert(n@.children =~= before.children);
}

impl Node {
    /// Takes the node at the end of `path` out of the tree, and its sizes and counts off every
    /// node above it. Returns whether there was such a node; the root itself stays.
    pub fn remove_at_path(&mut self, path: &[usize]) -> (removed: bool)
        ensures
            final(self)@ == removed_at(old(self)@, path@),
            removed == (path@.len() > 0 && at_path(old(self)@, path@) is Some),
    {
        if path.len() == 0 {
            return false;
        }
        let gone: Removed = match self.navigate(path) {
            Some(n) => Removed {
                logical_size: n.logical_size,
                physical_size: n.physical_size,
                file_count: n.file_count,
                folder_count: n.folder_count,
                is_file: n.is_file(),
            },
            None => {
                return false;
            },
        };
        let last: usize = path.len() - 1;
        let ghost start = self@;
        let ghost g = at_path(start, path@)->0;
        proof {
            lemma_way_exists(start, path@);
            assert(path@.drop_last().skip(0) =~= path@.drop_last());
        }
        let mut cur = self;
        let mut k: usize = 0;
        while k < last
            invariant
                k <= last,
                last == path@.len() - 1,
                start == old(self)@,
                gone.is_of(g),
                at_path(start, path@.drop_last()) is Some,
                at_path(start, path@.take(k as int)) == Some(cur@),
                at_path(start, path@.drop_last()) == at_path(cur@, path@.drop_last().skip(k as int)),
                final(self)@ == thinned(start, path@.take(k as int), g, final(cur)@),
            decreases last - k,
        {
            let i: usize = path[k];
            assert(path@.drop_last().skip(k as int).skip(1) =~= path@.drop_last().skip(k + 1));
            assert(path@.drop_last().skip(k as int)[0] == i);
            assert(path@.take(k as int).push(i) =~= path@.take(k + 1));
            let ghost here = cur@;
            take_off(&mut *cur, &gone);
            let ghost mid = cur@;
            assert(mid == without(here, g));
            proof {
                lemma_at_push(start, path@.take(k as int), i);
            }
            let ghost fin = *final(cur);
            cur = &mut cur.children[i];
            proof {
                lemma_thinned_push(start, path@.take(k as int), i, g, final(cur)@);
                assert(fin@.children =~= here.children.update(i as int, final(cur)@));
                assert(fin@ == (Tree { children: here.children.update(i as int, final(cur)@), ..mid }));
            }
            k = k + 1;
        }
        assert(path@.take(last as int) =~= path@.drop_last());
        let ghost here = cur@;
        take_off(&mut *cur, &gone);
        let ghost nodes = cur.children@;
        let ghost mid = cur@;
        assert(mid == without(here, g));
        let _dropped = cur.children.remove(path[last]);
        assert(cur@.children =~= here.children.remove(path@.last() as int));
        assert(cur@ == (Tree { children: here.children.remove(path@.last() as int), ..mid }));
        true
    }
}

/// Taking a node out of a tree whose sizes and counts add up leaves such a tree, and its root has
/// lost exactly what the node stood for.
pub proof fn law_removal_adds_up(t: Tree, path: Seq<usize>)
    requires
        adds_up(t),
        path.len() > 0,
        at_path(t, path) is Some,
    ensures
        ({
            let r = removed_at(t, path);
            let gone = at_path(t, path)->0;
            &&& adds_up(r)
            &&& r.kind == t.kind
            &&& r.logical_size + gone.logical_size == t.logical_size
            &&& r.physical_size + gone.physical_size == t.physical_size
            &&& r.file_count + own_files(gone) == t.file_count
            &&& r.folder_count + own_folders(gone) == t.folder_count
        }),
    decreases path.len(),
{
    let gone = at_path(t, path)->0;
    let r = removed_at(t, path);
    let i = path[0] as int;
    let ch = t.children;
    let fl = |c: Tree| c.logical_size as nat;
    let fp = |c: Tree| c.physical_size as nat;
    let ff = |c: Tree| c.file_count as nat + if c.kind == NodeKind::File { 1nat } else { 0nat };
    let fd = |c: Tree| c.folder_count as nat + if c.kind == NodeKind::Folder { 1nat } else { 0nat };
    assert(t.kind == NodeKind::Folder);
    if path.len() == 1 {
        reveal_with_fuel(at_path, 2);
        assert(path.drop_last() =~= Seq::<usize>::empty());
        assert(path.skip(1) =~= Seq::<usize>::empty());
        assert(gone == ch[i]);
        lemma_total_remove(ch, fl, i);
        lemma_total_remove(ch, fp, i);
        lemma_total_remove(ch, ff, i);
        lemma_total_remove(ch, fd, i);
        assert forall|j: int| 0 <= j < r.children.len() implies adds_up(#[trigger] r.children[j]) by {
            if j < i {
                assert(r.children[j] == ch[j]);
            } else {
                assert(r.children[j] == ch[j + 1]);
            }
        }
    } else {
        let rest = path.skip(1);
        let c = ch[i];
        assert(adds_up(c));
        law_removal_adds_up(c, rest);
        let rc = removed_at(c, rest);
        assert(path.drop_last().skip(1) =~= rest.drop_last());
        assert(path.drop_last()[0] == path[0]);
        assert(rest.last() == path.last());
        assert(at_path(t, path.drop_last()) == at_path(c, rest.drop_last()));
        assert(r == (Tree { children: ch.update(i, rc), ..without(t, gone) }));
        lemma_total_update(ch, fl, i, rc);
        lemma_total_update(ch, fp, i, rc);
        lemma_total_update(ch, ff, i, rc);
        lemma_total_update(ch, fd, i, rc);
        lemma_total_remove(ch, fl, i);
        lemma_total_remove(ch, fp, i);
        lemma_total_remove(ch, ff, i);
        lemma_total_remove(ch, fd, i);
        assert forall|j: int| 0 <= j < r.children.len() implies adds_up(#[trigger] r.children[j]) by {
            if j != i {
                assert(r.children[j] == ch[j]);
            }
        }
    }
}

/// Whether no node has more children than a machine can number.
pub open spec fn machine_sized(t: Tree) -> bool
    decreases t,
{
    &&& t.children.len() <= usize::MAX
    &&& forall|i: int| 0 <= i < t.children.len() ==> machine_sized(#[trigger] t.children[i])
}

/// Whether the children of the node and of every folder below it stand as `key` has them, folders
/// before files.
pub open spec fn in_order_everywhere(t: Tree, key: SortKey, ascending: bool) -> bool
    decreases t,
{
    &&& forall|i: int, j: int|
        0 <= i < j < t.children.len() ==> stands_before(
            #[trigger] t.children[i],
            #[trigger] t.children[j],
            key,
            ascending,
        )
    &&& forall|i: int, j: int|
        0 <= i < j < t.children.len() && (#[trigger] t.children[j]).kind == NodeKind::Folder ==> (
        #[trigger] t.children[i]).kind == NodeKind::Folder
    &&& forall|i: int|
        0 <= i < t.children.len() && (#[trigger] t.children[i]).kind == NodeKind::Folder
            ==> in_order_everywhere(t.children[i], key, ascending)
}

/// Each child of a deeply sorted tree is a child of the tree, deeply sorted if it is a folder.
proof fn lemma_sorted_deep_child(t: Tree, key: SortKey, ascending: bool, i: int)
    requires
        t.children.len() <= usize::MAX,
        0 <= i < t.children.len(),
    ensures
        sorted_deep(t, key, ascending).children.len() == t.children.len(),
        exists|k: int|
            0 <= k < t.children.len() && sorted_deep(t, key, ascending).children[i] == sort_child(
                #[trigger] t.children[k],
                key,
                ascending,
            ),
{
    let le = by_key(key, ascending);
    let ch = each_sorted_deep(t.children, key, ascending);
    lemma_each_sorted_deep(t.children, key, ascending);
    lemma_by_key_is_preorder(key, ascending);
    lemma_sorted(ch, le);
    let k = order_of(ch, le)[i] as int;
    assert(ch[k] == sort_child(t.children[k], key, ascending));
}

/// Sorting puts every folder in order, all the way down, and always folders before files.
pub proof fn law_sorting_orders_every_folder(t: Tree, key: SortKey, ascending: bool)
    requires
        machine_sized(t),
    ensures
        in_order_everywhere(sorted_deep(t, key, ascending), key, ascending),
    decreases t,
{
    let u = sorted_deep(t, key, ascending);
    let le = by_key(key, ascending);
    let ch = each_sorted_deep(t.children, key, ascending);
    lemma_each_sorted_deep(t.children, key, ascending);
    lemma_by_key_is_preorder(key, ascending);
    lemma_sorted(ch, le);
    let o = order_of(ch, le);
    assert forall|i: int, j: int| 0 <= i < j < u.children.len() implies stands_before(
        #[trigger] u.children[i],
        #[trigger] u.children[j],
        key,
        ascending,
    ) by {
        assert(crate::order::precedes(ch, le, o[i] as int, o[j] as int));
    }
    assert forall|i: int|
        0 <= i < u.children.len() && (#[trigger] u.children[i]).kind == NodeKind::Folder implies in_order_everywhere(
        u.children[i],
        key,
        ascending,
    ) by {
        lemma_sorted_deep_child(t, key, ascending, i);
        let k = choose|k: int|
            0 <= k < t.children.len() && u.children[i] == sort_child(
                #[trigger] t.children[k],
                key,
                ascending,
            );
        law_sorting_orders_every_folder(t.children[k], key, ascending);
    }
}

/// A second sort by the same key changes nothing.
pub proof fn law_sorting_again_changes_nothing(t: Tree, key: SortKey, ascending: bool)
    requires
        machine_sized(t),
    ensures
        sorted_deep(sorted_deep(t, key, ascending), key, ascending) == sorted_deep(t, key, ascending),
    decreases t,
{
    let u = sorted_deep(t, key, ascending);
    let le = by_key(key, ascending);
    let ch = each_sorted_deep(t.children, key, ascending);
    lemma_each_sorted_deep(t.children, key, ascending);
    lemma_each_sorted_deep(u.children, key, ascending);
    lemma_by_key_is_preorder(key, ascending);
    lemma_sorted(ch, le);
    let o = order_of(ch, le);
    assert forall|i: int| 0 <= i < u.children.len() implies sort_child(
        #[trigger] u.children[i],
        key,
        ascending,
    ) == u.children[i] by {
        lemma_sorted_deep_child(t, key, ascending, i);
        let k = choose|k: int|
            0 <= k < t.children.len() && u.children[i] == sort_child(
                #[trigger] t.children[k],
                key,
                ascending,
            );
        law_sorting_again_changes_nothing(t.children[k], key, ascending);
    }
    assert(each_sorted_deep(u.children, key, ascending) =~= u.children);
    let same = Seq::new(u.children.len(), |i: int| i as usize);
    assert forall|i: int, j: int| 0 <= i < j < same.len() implies crate::order::precedes(
        u.children,
        le,
        #[trigger] same[i] as int,
        #[trigger] same[j] as int,
    ) by {
        assert(crate::order::precedes(ch, le, o[i] as int, o[j] as int));
    }
    assert(is_stable_order(u.children, le, same));
    lemma_sorted(u.children, le);
    law_stable_order_is_unique(u.children, le, same, order_of(u.children, le));
    assert(sorted(u.children, le) =~= u.children);
}

/// Sorting keeps sizes and counts, and whether they add up.
pub proof fn law_sorting_keeps_sums(t: Tree, key: SortKey, ascending: bool)
    requires
        machine_sized(t),
        adds_up(t),
    ensures
        adds_up(sorted_deep(t, key, ascending)),
        sorted_deep(t, key, ascending) == (Tree {
            children: sorted_deep(t, key, ascending).children,
            ..t
        }),
        sorted_deep(t, key, ascending).children.len() == t.children.len(),
    decreases t,
{
    let u = sorted_deep(t, key, ascending);
    let le = by_key(key, ascending);
    let ch = each_sorted_deep(t.children, key, ascending);
    lemma_each_sorted_deep(t.children, key, ascending);
    lemma_by_key_is_preorder(key, ascending);
    lemma_sorted(ch, le);
    let o = order_of(ch, le);
    let fl = |c: Tree| c.logical_size as nat;
    let fp = |c: Tree| c.physical_size as nat;
    let ff = |c: Tree| c.file_count as nat + if c.kind == NodeKind::File { 1nat } else { 0nat };
    let fd = |c: Tree| c.folder_count as nat + if c.kind == NodeKind::Folder { 1nat } else { 0nat };
    lemma_total_rearranged(ch, fl, o);
    lemma_total_rearranged(ch, fp, o);
    lemma_total_rearranged(ch, ff, o);
    lemma_total_rearranged(ch, fd, o);
    lemma_same_total(t.children, ch, fl);
    lemma_same_total(t.children, ch, fp);
    lemma_same_total(t.children, ch, ff);
    lemma_same_total(t.children, ch, fd);
    assert forall|i: int| 0 <= i < u.children.len() implies adds_up(#[trigger] u.children[i]) by {
        lemma_sorted_deep_child(t, key, ascending, i);
        let k = choose|k: int|
            0 <= k < t.children.len() && u.children[i] == sort_child(
                #[trigger] t.children[k],
                key,
                ascending,
            );
        assert(t.kind == NodeKind::Folder);
        law_sorting_keeps_sums(t.children[k], key, ascending);
    }
}

proof fn lemma_same_total<T>(s: Seq<T>, r: Seq<T>, f: spec_fn(T) -> nat)
    requires
        s.len() == r.len(),
        forall|i: int| 0 <= i < s.len() ==> f(#[trigger] s[i]) == f(r[i]),
    ensures
        total(s, f) == total(r, f),
    decreases s.len(),
{
    if s.len() > 0 {
        assert forall|i: int| 0 <= i < s.drop_last().len() implies f(#[trigger] s.drop_last()[i]) == f(
            r.drop_last()[i],
        ) by {
            assert(f(s[i]) == f(r[i]));
        }
        lemma_same_total(s.drop_last(), r.drop_last(), f);
        let k = s.len() - 1;
        assert(f(s[k]) == f(r[k]));
    }
}

// ---------------------------------------------------------------------------------------------
// What changes do, and what they leave alone
// ---------------------------------------------------------------------------------------------

/// Sorted by a number, siblings of the same kind stand with that number going up, or down where that
/// is asked for. Each key goes by its own number.
pub proof fn law_sorting_goes_by_the_number(t: Tree, ascending: bool, i: int, j: int)
    requires
        machine_sized(t),
        0 <= i < j < t.children.len(),
    ensures
        ({
            let u = sorted_deep(t, SortKey::LogicalSize, ascending).children;
            u.len() == t.children.len() && (u[i].kind == u[j].kind ==> if ascending {
                u[i].logical_size <= u[j].logical_size
            } else {
                u[i].logical_size >= u[j].logical_size
            })
        }),
        ({
            let u = sorted_deep(t, SortKey::PhysicalSize, ascending).children;
            u.len() == t.children.len() && (u[i].kind == u[j].kind ==> if ascending {
                u[i].physical_size <= u[j].physical_size
            } else {
                u[i].physical_size >= u[j].physical_size
            })
        }),
        ({
            let u = sorted_deep(t, SortKey::Modified, ascending).children;
            u.len() == t.children.len() && (u[i].kind == u[j].kind ==> if ascending {
                u[i].modified_ft <= u[j].modified_ft
            } else {
                u[i].modified_ft >= u[j].modified_ft
            })
        }),
        ({
            let u = sorted_deep(t, SortKey::Created, ascending).children;
            u.len() == t.children.len() && (u[i].kind == u[j].kind ==> if ascending {
                u[i].created_ft <= u[j].created_ft
            } else {
                u[i].created_ft >= u[j].created_ft
            })
        }),
        ({
            let u = sorted_deep(t, SortKey::Accessed, ascending).children;
            u.len() == t.children.len() && (u[i].kind == u[j].kind ==> if ascending {
                u[i].accessed_ft <= u[j].accessed_ft
            } else {
                u[i].accessed_ft >= u[j].accessed_ft
            })
        }),
        ({
            let u = sorted_deep(t, SortKey::Attributes, ascending).children;
            u.len() == t.children.len() && (u[i].kind == u[j].kind ==> if ascending {
                u[i].attributes <= u[j].attributes
            } else {
                u[i].attributes >= u[j].attributes
            })
        }),
{
    lemma_pair_in_order(t, SortKey::LogicalSize, ascending, i, j);
    lemma_pair_in_order(t, SortKey::PhysicalSize, ascending, i, j);
    lemma_pair_in_order(t, SortKey::Modified, ascending, i, j);
    lemma_pair_in_order(t, SortKey::Created, ascending, i, j);
    lemma_pair_in_order(t, SortKey::Accessed, ascending, i, j);
    lemma_pair_in_order(t, SortKey::Attributes, ascending, i, j);
}

proof fn lemma_pair_in_order(t: Tree, key: SortKey, ascending: bool, i: int, j: int)
    requires
        machine_sized(t),
        0 <= i < j < t.children.len(),
    ensures
        ({
            let u = sorted_deep(t, key, ascending).children;
            &&& u.len() == t.children.len()
            &&& stands_before(u[i], u[j], key, ascending)
        }),
{
    lemma_sorted_deep_child(t, key, ascending, i);
    law_sorting_orders_every_folder(t, key, ascending);
    let u = sorted_deep(t, key, ascending);
    assert(stands_before(u.children[i], u.children[j], key, ascending));
}

/// Sorted by a text, siblings of the same kind stand with the bytes of that text in lower case going
/// up as in a dictionary, or down where that is asked for. Each key goes by its own text; the path is
/// the one that a node carries.
pub proof fn law_sorting_goes_by_the_text(t: Tree, ascending: bool, i: int, j: int)
    requires
        machine_sized(t),
        0 <= i < j < t.children.len(),
    ensures
        ({
            let u = sorted_deep(t, SortKey::Name, ascending).children;
            u[i].kind == u[j].kind ==> if ascending {
                text_le(lowercase(u[i].name), lowercase(u[j].name))
            } else {
                text_le(lowercase(u[j].name), lowercase(u[i].name))
            }
        }),
        ({
            let u = sorted_deep(t, SortKey::Owner, ascending).children;
            u[i].kind == u[j].kind ==> if ascending {
                text_le(lowercase(u[i].owner), lowercase(u[j].owner))
            } else {
                text_le(lowercase(u[j].owner), lowercase(u[i].owner))
            }
        }),
        ({
            let u = sorted_deep(t, SortKey::Path, ascending).children;
            u[i].kind == u[j].kind && u[i].full_path is Some && u[j].full_path is Some ==> if ascending {
                text_le(lowercase(u[i].full_path->0), lowercase(u[j].full_path->0))
            } else {
                text_le(lowercase(u[j].full_path->0), lowercase(u[i].full_path->0))
            }
        }),
{
    lemma_pair_in_order(t, SortKey::Name, ascending, i, j);
    lemma_pair_in_order(t, SortKey::Owner, ascending, i, j);
    lemma_pair_in_order(t, SortKey::Path, ascending, i, j);
}

/// Whether `b` is `a` but for where its children stand.
pub open spec fn same_but_for_order(a: Tree, b: Tree) -> bool {
    b == (Tree { children: b.children, ..a }) && b.children.len() == a.children.len()
}

/// Sorting only moves things: the children of every folder are the same as before, each of them once,
/// in another order; what the key does not tell apart stays as it stood.
pub proof fn law_sorting_only_rearranges(t: Tree, key: SortKey, ascending: bool) -> (o: Seq<usize>)
    requires
        machine_sized(t),
    ensures
        same_but_for_order(t, sorted_deep(t, key, ascending)),
        is_rearrangement(o, t.children.len()),
        forall|i: int|
            0 <= i < t.children.len() ==> same_but_for_order(
                t.children[o[i] as int],
                #[trigger] sorted_deep(t, key, ascending).children[i],
            ),
        forall|i: int, j: int|
            0 <= i < j < t.children.len() && stands_before(
                sorted_deep(t, key, ascending).children[j],
                sorted_deep(t, key, ascending).children[i],
                key,
                ascending,
            ) ==> #[trigger] o[i] < #[trigger] o[j],
{
    let le = by_key(key, ascending);
    let ch = each_sorted_deep(t.children, key, ascending);
    lemma_each_sorted_deep(t.children, key, ascending);
    lemma_by_key_is_preorder(key, ascending);
    lemma_sorted(ch, le);
    let o = order_of(ch, le);
    let u = sorted_deep(t, key, ascending);
    assert forall|i: int| 0 <= i < t.children.len() implies same_but_for_order(
        t.children[o[i] as int],
        #[trigger] u.children[i],
    ) by {
        let c = t.children[o[i] as int];
        assert(machine_sized(c));
        assert(ch[o[i] as int] == sort_child(c, key, ascending));
        if c.kind == NodeKind::Folder {
            lemma_each_sorted_deep(c.children, key, ascending);
            lemma_sorted(each_sorted_deep(c.children, key, ascending), le);
        }
    }
    assert forall|i: int, j: int|
        0 <= i < j < t.children.len() && stands_before(u.children[j], u.children[i], key, ascending) implies #[trigger] o[i]
        < #[trigger] o[j] by {
        assert(crate::order::precedes(ch, le, o[i] as int, o[j] as int));
        assert(le(ch[o[j] as int], ch[o[i] as int]));
    }
    o
}

/// Whether `b` is `a` but for which nodes are expanded.
pub open spec fn same_but_for_expanded(a: Tree, b: Tree) -> bool
    decreases a,
{
    &&& b == (Tree { children: b.children, expanded: b.expanded, ..a })
    &&& b.children.len() == a.children.len()
    &&& forall|i: int| #![trigger a.children[i]] 0 <= i < a.children.len() ==> same_but_for_expanded(a.children[i], b.children[i])
}

proof fn lemma_same_as_itself(t: Tree)
    ensures
        same_but_for_expanded(t, t),
    decreases t,
{
    assert forall|i: int| #![trigger t.children[i]] 0 <= i < t.children.len() implies same_but_for_expanded(
        t.children[i],
        t.children[i],
    ) by {
        lemma_same_as_itself(t.children[i]);
    }
}

/// Folding up changes nothing but what is expanded.
pub proof fn law_collapse_changes_nothing_else(t: Tree)
    ensures
        same_but_for_expanded(t, collapsed(t)),
        !collapsed(t).expanded,
    decreases t,
{
    let c = collapsed(t);
    assert forall|i: int| #![trigger t.children[i]] 0 <= i < t.children.len() implies same_but_for_expanded(
        t.children[i],
        c.children[i],
    ) by {
        if t.expanded {
            law_collapse_changes_nothing_else(t.children[i]);
        } else {
            lemma_same_as_itself(t.children[i]);
        }
    }
}

/// A click opens the node that it falls on if that was closed, and closes it if it was open; a click
/// beside everything opens nothing. It changes nothing but what is expanded.
pub proof fn law_click_opens_what_is_closed(t: Tree, path: Seq<usize>)
    ensures
        toggled(t, path).1 <==> (path.len() > 0 && (at_path(t, path) matches Some(n) && !n.expanded)),
        same_but_for_expanded(t, toggled(t, path).0),
{
    let u = toggled(t, path).0;
    if path.len() == 0 {
        lemma_same_as_itself(t);
    } else {
        let up = path.drop_last();
        assert(up.push(path.last()) =~= path);
        lemma_at_push(t, up, path.last());
        match at_path(t, up) {
            Some(p) => {
                let new = Tree { children: toggled_among(p.children, path.last()), ..p };
                assert forall|i: int| #![trigger p.children[i]] 0 <= i < p.children.len() implies same_but_for_expanded(
                    p.children[i],
                    new.children[i],
                ) by {
                    law_collapse_changes_nothing_else(p.children[i]);
                }
                assert(same_but_for_expanded(p, new));
                lemma_put_same(t, up, new);
            },
            None => {
                lemma_same_as_itself(t);
            },
        }
    }
}

proof fn lemma_put_same(t: Tree, p: Seq<usize>, new: Tree)
    requires
        at_path(t, p) is Some,
        same_but_for_expanded(at_path(t, p)->0, new),
    ensures
        same_but_for_expanded(t, with_at(t, p, new)),
    decreases p.len(),
{
    if p.len() > 0 {
        let k = p[0] as int;
        lemma_put_same(t.children[k], p.skip(1), new);
        let u = with_at(t, p, new);
        assert forall|i: int| #![trigger t.children[i]] 0 <= i < t.children.len() implies same_but_for_expanded(
            t.children[i],
            u.children[i],
        ) by {
            if i != k {
                lemma_same_as_itself(t.children[i]);
            }
        }
    }
}

/// Taking out a node takes out that child of its folder and nothing else: its siblings stay, in their
/// order, and so does every other child of every folder on the way to it. Names and everything else
/// that is not a size or a count stay as they are.
pub proof fn law_removal_takes_out_one_node(t: Tree, path: Seq<usize>, k: int)
    requires
        0 <= k < path.len(),
        at_path(t, path) is Some,
    ensures
        ({
            let was = at_path(t, path.take(k));
            let now = at_path(removed_at(t, path), path.take(k));
            let i = path[k] as int;
            &&& was is Some && now is Some
            &&& now->0.name == was->0.name && now->0.kind == was->0.kind && now->0.expanded == was->0.expanded
            &&& i < was->0.children.len()
            &&& k == path.len() - 1 ==> now->0.children == was->0.children.take(i) + was->0.children.skip(i + 1)
            &&& k < path.len() - 1 ==> now->0.children.len() == was->0.children.len() && forall|j: int|
                0 <= j < was->0.children.len() && j != i ==> #[trigger] now->0.children[j] == was->0.children[j]
        }),
    decreases k,
{
    let gone = at_path(t, path)->0;
    let r = removed_at(t, path);
    lemma_way_exists(t, path);
    let up = path.drop_last();
    let p = at_path(t, up)->0;
    let x = Tree { children: p.children.remove(path.last() as int), ..without(p, gone) };
    assert(p.children.remove(path.last() as int) =~= p.children.take(path.last() as int) + p.children.skip(
        path.last() as int + 1,
    ));
    lemma_thinned_way(t, up, gone, x, k);
    assert(up.take(k) =~= path.take(k));
    if k == path.len() - 1 {
        assert(path.take(k) =~= up);
    }
}

proof fn lemma_thinned_way(t: Tree, p: Seq<usize>, gone: Tree, x: Tree, k: int)
    requires
        0 <= k <= p.len(),
        at_path(t, p) is Some,
    ensures
        ({
            let was = at_path(t, p.take(k));
            let now = at_path(thinned(t, p, gone, x), p.take(k));
            &&& was is Some && now is Some
            &&& k == p.len() ==> now->0 == x
            &&& k < p.len() ==> {
                &&& p[k] < was->0.children.len()
                &&& now->0 == (Tree { children: now->0.children, ..without(was->0, gone) })
                &&& now->0.children.len() == was->0.children.len()
                &&& forall|j: int|
                    0 <= j < was->0.children.len() && j != p[k] ==> #[trigger] now->0.children[j] == was->0.children[j]
            }
        }),
    decreases k,
{
    if k == 0 {
        assert(p.take(0) =~= Seq::empty());
    } else {
        lemma_thinned_way(t.children[p[0] as int], p.skip(1), gone, x, k - 1);
        assert(p.take(k).skip(1) =~= p.skip(1).take(k - 1));
        assert(p.take(k)[0] == p[0]);
    }
}

} // verus!
