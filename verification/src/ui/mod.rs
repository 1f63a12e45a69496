//! What the screens show and what can be done on them.
use vstd::prelude::*;

use crate::model::NodePath;

pub mod analysis;
pub mod cells;
pub mod compact_tree;
pub mod shares;
pub mod sidebar;
pub mod startup;
pub mod topbar;
pub mod tree_list;
pub mod treemap_view;

verus! {

/// What the user did in a tree.
#[derive(Debug, Clone)]
pub enum TreeAction {
    Nothing,
    Select(NodePath),
    ToggleExpand(NodePath),
    EnterNode(NodePath),
    /// Asked to delete something; nothing is deleted before that is confirmed.
    RequestDelete { abs_path: NodePath, name: String, full_path: String, is_folder: bool },
    /// Asked who keeps something open.
    RequestCheckLock { abs_path: NodePath, name: String, full_path: String, is_folder: bool },
}

/// What the main list can be sorted by.
#[derive(Debug, Clone, Copy, PartialEq, Eq, Structural)]
pub enum SortKey {
    Name,
    Size,
    Modified,
    Physical,
    Created,
    Accessed,
    Items,
    Files,
    Folders,
    Attributes,
    Reparse,
    Reserved,
    Owner,
}

#[derive(Debug, Clone, Copy, PartialEq, Eq, Structural)]
pub enum SortDir {
    Asc,
    Desc,
}

pub open spec fn other_way(d: SortDir) -> SortDir {
    match d {
        SortDir::Asc => SortDir::Desc,
        SortDir::Desc => SortDir::Asc,
    }
}

impl SortDir {
    /// The other way round.
    pub fn toggled(self) -> (r: Self)
        ensures
            r == other_way(self),
    {
        match self {
            SortDir::Asc => SortDir::Desc,
            SortDir::Desc => SortDir::Asc,
        }
    }
}

/// By what the main list is sorted, and which way.
#[derive(Debug, Clone, Copy, PartialEq, Eq, Structural)]
pub struct SortState {
    pub key: SortKey,
    pub dir: SortDir,
}

impl Default for SortState {
    fn default() -> (s: Self)
        ensures
            s == (SortState { key: SortKey::Size, dir: SortDir::Desc }),
    {
        SortState { key: SortKey::Size, dir: SortDir::Desc }
    }
}

/// The order after a click on the heading of `key`.
pub open spec fn clicked(s: SortState, key: SortKey) -> SortState {
    if s.key == key {
        SortState { key, dir: other_way(s.dir) }
    } else {
        SortState { key, dir: SortDir::Desc }
    }
}

impl SortState {
    /// A heading was clicked: the same one again turns the order round, another one sorts by that,
    /// the largest or latest first.
    pub fn click(&mut self, key: SortKey)
        ensures
            *final(self) == clicked(*old(self), key),
    {
        if self.key == key {
            self.dir = self.dir.toggled();
        } else {
            self.key = key;
            self.dir = SortDir::Desc;
        }
    }
}

/// Whatever the order was, a click sorts by the clicked heading, and two more clicks on it leave
/// the order as it is.
pub proof fn law_clicking_twice_changes_nothing(s: SortState, key: SortKey)
    ensures
        clicked(s, key).key == key,
        clicked(clicked(clicked(s, key), key), key) == clicked(s, key),
        clicked(clicked(s, key), key) != clicked(s, key),
{
}

/// A heading that the list was not sorted by sorts it with the largest or latest first.
pub proof fn law_new_headings_sort_downwards(s: SortState, key: SortKey)
    requires
        s.key != key,
    ensures
        clicked(s, key) == (SortState { key, dir: SortDir::Desc }),
{
}

} // verus!
