//! The pages of the main window: the list of disks, and analyses that were opened beside it.
use vstd::prelude::*;

use crate::dedup::HashPhase;
use crate::duplicates::DuplicateMessage;
use crate::model::{Node, NodePath};
use crate::text::owned;
use crate::ui::compact_tree::ViewState;

verus! {

use crate::edit::{removed_at, toggled};
use crate::model::Tree;
use crate::ui::compact_tree::{next_version, SortDir, SortKey, SortState};

/// An analysis of what was found on one disk: a tree of its own, made when it was opened, with its
/// own selection.
pub struct Analysis {
    pub partition_idx: usize,
    pub title: String,
    pub root: Node,
    pub selected: Option<NodePath>,
    pub view: ViewState,
}

/// A page of the main window.
pub enum Tab {
    Main,
    Extensions(Analysis),
    /// While the search is under way, the phase with how many files it has done, of how many.
    Duplicates(Analysis, Option<(HashPhase, u64, u64)>),
}

/// What an [`Analysis`] holds.
pub struct Page {
    pub partition: usize,
    pub title: Seq<char>,
    pub root: Tree,
    pub selected: Option<Seq<usize>>,
    pub sort: SortState,
    pub version: u64,
}

/// What a [`Tab`] holds.
pub enum TabModel {
    Main,
    Extensions(Page),
    Duplicates(Page, Option<(HashPhase, u64, u64)>),
}

pub open spec fn opt_path(p: Option<NodePath>) -> Option<Seq<usize>> {
    match p {
        Some(v) => Some(v@),
        None => None,
    }
}

impl View for Analysis {
    type V = Page;

    open spec fn view(&self) -> Page {
        Page {
            partition: self.partition_idx,
            title: self.title@,
            root: self.root@,
            selected: opt_path(self.selected),
            sort: self.view.sort,
            version: self.view.expand_version,
        }
    }
}

impl View for Tab {
    type V = TabModel;

    open spec fn view(&self) -> TabModel {
        match self {
            Tab::Main => TabModel::Main,
            Tab::Extensions(a) => TabModel::Extensions(a@),
            Tab::Duplicates(a, loading) => TabModel::Duplicates(a@, *loading),
        }
    }
}

/// A click on the node at `at` of a tree whose top is at `[0]`: the top itself is opened or closed,
/// anything below it is opened as the only one among its siblings.
pub open spec fn tree_clicked(t: Tree, at: Seq<usize>) -> Tree {
    if at.len() == 1 {
        Tree { expanded: !t.expanded, ..t }
    } else {
        toggled(t, at.skip(1)).0
    }
}

/// The tree without the node at `at`, where the first number is that of the tree itself, which
/// stays.
pub open spec fn tree_without(t: Tree, at: Seq<usize>) -> Tree {
    if at.len() >= 2 {
        removed_at(t, at.skip(1))
    } else {
        t
    }
}

/// A page after a click on the node at `at`.
pub open spec fn page_clicked(p: Page, at: Seq<usize>) -> Page {
    Page { root: tree_clicked(p.root, at), selected: Some(at), version: next_version(p.version), ..p }
}

/// A page after the node at `at` was deleted.
pub open spec fn page_without(p: Page, at: Seq<usize>) -> Page {
    Page {
        root: tree_without(p.root, at),
        selected: if p.selected == Some(at) {
            None
        } else {
            p.selected
        },
        version: next_version(p.version),
        ..p
    }
}

/// A page that was just opened.
pub open spec fn new_page(partition: usize, title: Seq<char>, root: Tree) -> Page {
    Page {
        partition,
        title,
        root,
        selected: None,
        sort: SortState { key: SortKey::Size, dir: SortDir::Desc },
        version: 0,
    }
}

/// Opens or closes what is at `at` in a tree.
pub fn click_tree(t: &mut Node, at: &NodePath)
    requires
        at@.len() >= 1,
    ensures
        final(t)@ == tree_clicked(old(t)@, at@),
{
    if at.len() == 1 {
        let ghost was = t@;
        t.expanded = !t.expanded;
        assert(t@.children =~= was.children);
    } else {
        let way = vstd::slice::slice_subrange(at.as_slice(), 1, at.len());
        assert(way@ =~= at@.skip(1));
        t.exclusive_toggle(way);
    }
}

/// Takes what is at `at` out of a tree.
pub fn remove_from_tree(t: &mut Node, at: &NodePath)
    ensures
        final(t)@ == tree_without(old(t)@, at@),
{
    if at.len() >= 2 {
        let way = vstd::slice::slice_subrange(at.as_slice(), 1, at.len());
        assert(way@ =~= at@.skip(1));
        t.remove_at_path(way);
    }
}

/// Whether the selection is the node at `at`.
pub fn is_selected(selected: &Option<NodePath>, at: &NodePath) -> (r: bool)
    ensures
        r == (opt_path(*selected) == Some(at@)),
{
    match selected {
        Some(p) => same_path(p, at),
        None => false,
    }
}

/// Whether two paths lead to the same place.
pub(crate) fn same_path(p: &NodePath, q: &NodePath) -> (r: bool)
    ensures
        r == (p@ == q@),
{
    if p.len() != q.len() {
        return false;
    }
    let mut i: usize = 0;
    while i < p.len()
        invariant
            i <= p@.len(),
            p@.len() == q@.len(),
            forall|k: int| 0 <= k < i ==> p@[k] == #[trigger] q@[k],
        decreases p@.len() - i,
    {
        if p[i] != q[i] {
            assert(p@[i as int] != q@[i as int]);
            return false;
        }
        i = i + 1;
    }
    assert(p@ =~= q@);
    true
}

impl Analysis {
    /// The rows kept for the page can be relied on.
    pub open spec fn well_formed(&self) -> bool {
        self.view.is_fresh(self.root@)
    }

    pub fn new(partition_idx: usize, title: String, root: Node) -> (a: Self)
        ensures
            a@ == new_page(partition_idx, title@, root@),
            a.well_formed(),
            a.view.cache is None,
    {
        Analysis { partition_idx, title, root, selected: None, view: ViewState::default() }
    }

    /// Opens or closes what is at `at`, and selects it.
    pub fn click(&mut self, at: NodePath)
        requires
            old(self).well_formed(),
            at@.len() >= 1,
        ensures
            final(self)@ == page_clicked(old(self)@, at@),
            final(self).well_formed(),
            old(self).view.cache is None ==> final(self).view.cache is None,
    {
        click_tree(&mut self.root, &at);
        self.selected = Some(at);
        self.view.touch();
    }

    /// Takes what is at `at` out of the page.
    pub fn remove(&mut self, at: &NodePath)
        requires
            old(self).well_formed(),
        ensures
            final(self)@ == page_without(old(self)@, at@),
            final(self).well_formed(),
            old(self).view.cache is None ==> final(self).view.cache is None,
    {
        remove_from_tree(&mut self.root, at);
        if is_selected(&self.selected, at) {
            self.selected = None;
        }
        self.view.touch();
    }
}

/// Whether a tab shows duplicates on disk `pi`.
pub open spec fn is_duplicates_of(t: TabModel, pi: usize) -> bool {
    match t {
        TabModel::Duplicates(p, _) => p.partition == pi,
        _ => false,
    }
}

/// Whether a tab shows the extensions on disk `pi`.
pub open spec fn is_extensions_of(t: TabModel, pi: usize) -> bool {
    match t {
        TabModel::Extensions(p) => p.partition == pi,
        _ => false,
    }
}

/// A tab after a message from the search that it stands for.
pub open spec fn tab_told(t: TabModel, msg: DuplicateMessage) -> TabModel {
    match t {
        TabModel::Duplicates(p, _) => match msg {
            DuplicateMessage::Progress { phase, done, total } => TabModel::Duplicates(
                p,
                Some((phase, done, total)),
            ),
            DuplicateMessage::Done(tree) => TabModel::Duplicates(Page { root: tree@, ..p }, None),
        },
        _ => t,
    }
}

impl Tab {
    /// The rows that are kept can be relied on; none are kept while a search is under way.
    pub open spec fn well_formed(&self) -> bool {
        match self {
            Tab::Main => true,
            Tab::Extensions(a) => a.well_formed(),
            Tab::Duplicates(a, loading) => a.well_formed() && (loading is Some ==> a.view.cache is None),
        }
    }

    /// Takes in a message from a search.
    pub fn tell(&mut self, msg: DuplicateMessage)
        requires
            old(self).well_formed(),
        ensures
            final(self).well_formed(),
            final(self)@ == tab_told(old(self)@, msg),
    {
        match self {
            Tab::Duplicates(a, loading) => {
                // Rows of the tree as it was are of no use.
                a.view.cache = None;
                match msg {
                    DuplicateMessage::Progress { phase, done, total } => {
                        *loading = Some((phase, done, total));
                    },
                    DuplicateMessage::Done(tree) => {
                        a.root = *tree;
                        *loading = None;
                    },
                }
            },
            _ => {},
        }
    }

    /// What the tab is called.
    pub fn caption(&self) -> (r: String)
        ensures
            r@ == match self@ {
                TabModel::Main => "📋 主列表"@,
                TabModel::Extensions(p) => "🗐 "@ + p.title,
                TabModel::Duplicates(p, _) => "🔍 "@ + p.title,
            },
    {
        match self {
            Tab::Main => owned("📋 主列表"),
            Tab::Extensions(a) => {
                let mut s = owned("🗐 ");
                s.append(a.title.as_str());
                s
            },
            Tab::Duplicates(a, _) => {
                let mut s = owned("🔍 ");
                s.append(a.title.as_str());
                s
            },
        }
    }
}


/// A search that is under way leaves its page as it is; once it has ended, the page shows what was
/// found and no search any more. Other pages are not told.
pub proof fn law_searches_end_with_what_was_found(p: Page, was: Option<(HashPhase, u64, u64)>, msg: DuplicateMessage)
    ensures
        tab_told(TabModel::Main, msg) == TabModel::Main,
        tab_told(TabModel::Extensions(p), msg) == TabModel::Extensions(p),
        match tab_told(TabModel::Duplicates(p, was), msg) {
            TabModel::Duplicates(q, now) => {
                &&& q.partition == p.partition && q.title == p.title && q.selected == p.selected
                &&& match msg {
                    DuplicateMessage::Progress { phase, done, total } => q.root == p.root && now == Some(
                        (phase, done, total),
                    ),
                    DuplicateMessage::Done(tree) => q.root == tree@ && now is None,
                }
            },
            _ => false,
        },
{
}

} // verus!
