//! What the tiles of the treemap do: where the view stands, what is drawn inside a tile, what the
//! tooltip says and what a click asks for.
use vstd::prelude::*;

use crate::edit::copy_path;
use crate::format::human_size;
use crate::model::{Node, NodePath};
use crate::tabs::same_path;
use crate::text::owned;
use crate::ui::TreeAction;

verus! {

use crate::format::size_text;
use crate::model::{at_path, Tree};
use crate::ui::cells::{asks_to_open, asks_to_select};

/// How many levels of tiles are drawn inside one another.
pub const MAX_DEPTH: u32 = 6;

/// Where the view stands: at the node that `view_path` leads to, or at the root if it leads nowhere
/// any more.
pub open spec fn view_at(root: Tree, view_path: Seq<usize>) -> (Tree, Seq<usize>) {
    match at_path(root, view_path) {
        Some(t) => (t, view_path),
        None => (root, Seq::empty()),
    }
}

/// Where the view stands.
pub fn view_root<'a>(root: &'a Node, view_path: &Vec<usize>) -> (r: (&'a Node, NodePath))
    ensures
        (r.0@, r.1@) == view_at(root@, view_path@),
{
    match root.navigate(view_path.as_slice()) {
        Some(n) => (n, copy_path(view_path)),
        None => (root, Vec::new()),
    }
}

/// The first tile that is large enough to be drawn.
pub open spec fn first_drawn(drawn: Seq<bool>) -> Option<int>
    decreases drawn.len(),
{
    if drawn.len() == 0 {
        None
    } else {
        match first_drawn(drawn.drop_last()) {
            Some(i) => Some(i),
            None => if drawn.last() {
                Some(drawn.len() - 1)
            } else {
                None
            },
        }
    }
}

/// What is selected by itself when the tiles of the node at `path` have just appeared: the first of
/// them that is drawn. `target` is the way to the node whose tiles have appeared, and `drawn` says
/// of each tile of the node at `path` whether it is large enough.
pub fn auto_select(target: Option<&NodePath>, path: &NodePath, drawn: &Vec<bool>) -> (r: TreeAction)
    ensures
        if target is Some && (target->0)@ == path@ && first_drawn(drawn@) is Some {
            asks_to_select(r, path@.push((first_drawn(drawn@)->0) as usize))
        } else {
            r is Nothing
        },
{
    let here = match target {
        Some(t) => same_path(t, path),
        None => false,
    };
    if !here {
        return TreeAction::Nothing;
    }
    let mut i: usize = 0;
    while i < drawn.len()
        invariant
            i <= drawn@.len(),
            target is Some,
            (target->0)@ == path@,
            first_drawn(drawn@.take(i as int)) is None,
        decreases drawn@.len() - i,
    {
        assert(drawn@.take(i + 1).drop_last() =~= drawn@.take(i as int));
        if drawn[i] {
            proof {
                lemma_first_stays(drawn@, i + 1);
            }
            let mut p = copy_path(path);
            p.push(i);
            return TreeAction::Select(p);
        }
        i = i + 1;
    }
    assert(drawn@.take(i as int) =~= drawn@);
    TreeAction::Nothing
}

/// More tiles after the first that is drawn make no difference.
proof fn lemma_first_stays(drawn: Seq<bool>, n: int)
    requires
        0 <= n <= drawn.len(),
        first_drawn(drawn.take(n)) is Some,
    ensures
        first_drawn(drawn) == first_drawn(drawn.take(n)),
    decreases drawn.len(),
{
    if n < drawn.len() {
        assert(drawn.drop_last().take(n) =~= drawn.take(n));
        lemma_first_stays(drawn.drop_last(), n);
    } else {
        assert(drawn.take(n) =~= drawn);
    }
}

/// Whether the tiles of what is in `node` are drawn inside its own, which is at `depth`: the node is
/// open and not empty, the tile is large enough, and not too many levels are drawn already.
pub fn draws_inside(node: &Node, depth: u32, roomy: bool) -> (r: bool)
    ensures
        r == (node@.children.len() > 0 && node@.expanded && depth + 1 < 6 && roomy),
{
    node.children.len() > 0 && node.expanded && depth < MAX_DEPTH - 1 && roomy
}

/// What the tooltip of a tile says.
pub open spec fn tooltip_of(t: Tree, inside: bool) -> (Seq<char>, Seq<char>) {
    (
        t.name + " · "@ + size_text(t.size as nat),
        if t.children.len() == 0 {
            "文件 · 单击选中"@
        } else if t.expanded && !inside {
            "文件夹 · 块太小，请双击进入"@
        } else {
            "文件夹 · 单击展开/收起 · 双击进入"@
        },
    )
}

/// What the tooltip of a tile says: what it is and how large, and what a click does. `inside` says
/// whether the tiles of what is in it are drawn inside its own.
pub fn tooltip(node: &Node, inside: bool) -> (r: (String, String))
    ensures
        (r.0@, r.1@) == tooltip_of(node@, inside),
{
    let mut line = node.name.clone();
    line.append(" · ");
    line.append(human_size(node.size).as_str());
    let hint = if node.children.len() == 0 {
        owned("文件 · 单击选中")
    } else if node.expanded && !inside {
        owned("文件夹 · 块太小，请双击进入")
    } else {
        owned("文件夹 · 单击展开/收起 · 双击进入")
    };
    (line, hint)
}

/// What a click on the tile at `path` asks for. A double click enters what is not empty. A single
/// one opens or closes what is not empty if the tile is large enough, and selects anything else.
pub fn tile_click(node: &Node, path: &NodePath, double: bool, roomy: bool) -> (r: TreeAction)
    ensures
        if double {
            if node@.children.len() > 0 {
                r matches TreeAction::EnterNode(p) && p@ == path@
            } else {
                r is Nothing
            }
        } else if node@.children.len() > 0 && roomy {
            asks_to_open(r, path@)
        } else {
            asks_to_select(r, path@)
        },
{
    if double {
        if node.children.len() > 0 {
            TreeAction::EnterNode(copy_path(path))
        } else {
            TreeAction::Nothing
        }
    } else if node.children.len() > 0 && roomy {
        TreeAction::ToggleExpand(copy_path(path))
    } else {
        TreeAction::Select(copy_path(path))
    }
}


/// The tile that is selected is drawn, and none before it is; none is selected exactly if none is
/// drawn.
pub proof fn law_the_first_drawn_is_found(drawn: Seq<bool>)
    ensures
        match first_drawn(drawn) {
            Some(i) => 0 <= i < drawn.len() && drawn[i] && forall|j: int| 0 <= j < i ==> !#[trigger] drawn[j],
            None => forall|j: int| 0 <= j < drawn.len() ==> !#[trigger] drawn[j],
        },
    decreases drawn.len(),
{
    if drawn.len() > 0 {
        let before = drawn.drop_last();
        law_the_first_drawn_is_found(before);
        assert forall|j: int| 0 <= j < before.len() implies #[trigger] drawn[j] == before[j] by {}
    }
}

/// The view always stands at a node of the tree: at the one that the path leads to, or at the top
/// where it leads nowhere.
pub proof fn law_view_stands_in_the_tree(root: Tree, view_path: Seq<usize>)
    ensures
        at_path(root, view_at(root, view_path).1) == Some(view_at(root, view_path).0),
        at_path(root, view_path) is Some ==> view_at(root, view_path).1 == view_path,
        at_path(root, view_path) is None ==> view_at(root, view_path).1.len() == 0,
{
}

} // verus!
