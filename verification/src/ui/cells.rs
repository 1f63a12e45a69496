//! What the rows of the main list say, and what a click on one asks for.
use vstd::prelude::*;

use crate::disk_info::DiskInfo;
use crate::edit::copy_path;
use crate::export::RowTimes;
use crate::format::{format_attributes, format_filetime_local, human_size, human_size_compact, LocalTime};
use crate::model::{Node, NodeKind};
use crate::text::{owned, push_decimal_wide, push_hex_upper};
use crate::ui::shares::share_text;
use crate::ui::tree_list::RowKind;
use crate::ui::TreeAction;

verus! {

use crate::disk_info::Disk;
use crate::edit::machine_sized;
use crate::export::{reparse_field, time_field};
use crate::format::{attributes_text, compact_size_text, local_text, size_text};
use crate::model::{at_path, trees, Tree};
use crate::text::{
    all_digits, decimal, hex_upper, law_decimals_read_back, law_hex_reads_back, read_decimal, read_hex, two_decimals,
};
use crate::ui::shares::share;
use crate::ui::tree_list::{at_least_one, disk_rows, shown_walk, ListRow};
use crate::walk::{law_every_step_leads_to_its_node, leads_right, steps};

/// The texts of a row, column by column, but for its shares.
pub struct RowCells {
    pub name: String,
    /// What marks a hidden item or one of the system's; nothing for others.
    pub mark: String,
    pub logical: String,
    pub modified: String,
    pub physical: String,
    pub created: String,
    pub accessed: String,
    pub items: String,
    pub files: String,
    pub folders: String,
    pub attributes: String,
    pub reparse: String,
    pub reserved: String,
    pub owner: String,
}

/// What a [`RowCells`] says.
#[verifier::ext_equal]
pub struct Cells {
    pub name: Seq<char>,
    pub mark: Seq<char>,
    pub logical: Seq<char>,
    pub modified: Seq<char>,
    pub physical: Seq<char>,
    pub created: Seq<char>,
    pub accessed: Seq<char>,
    pub items: Seq<char>,
    pub files: Seq<char>,
    pub folders: Seq<char>,
    pub attributes: Seq<char>,
    pub reparse: Seq<char>,
    pub reserved: Seq<char>,
    pub owner: Seq<char>,
}

impl View for RowCells {
    type V = Cells;

    open spec fn view(&self) -> Cells {
        Cells {
            name: self.name@,
            mark: self.mark@,
            logical: self.logical@,
            modified: self.modified@,
            physical: self.physical@,
            created: self.created@,
            accessed: self.accessed@,
            items: self.items@,
            files: self.files@,
            folders: self.folders@,
            attributes: self.attributes@,
            reparse: self.reparse@,
            reserved: self.reserved@,
            owner: self.owner@,
        }
    }
}

/// Text, or a dash where there is none.
pub open spec fn or_dash(s: Seq<char>) -> Seq<char> {
    if s.len() == 0 {
        "—"@
    } else {
        s
    }
}

/// A number that only folders show.
pub open spec fn folder_count_text(t: Tree, n: int) -> Seq<char> {
    if t.kind == NodeKind::Folder {
        decimal(n as nat)
    } else {
        "—"@
    }
}

pub open spec fn reserved_cell(is_reserved: bool) -> Seq<char> {
    if is_reserved {
        "是"@
    } else {
        "—"@
    }
}

/// What marks an item with these attributes: hidden items and the system's are shown, but marked.
pub open spec fn hidden_mark_of(attributes: u32) -> Seq<char> {
    if attributes & 0x06 != 0 {
        "(隐藏)"@
    } else {
        Seq::empty()
    }
}

/// What marks an item; nothing for one that is not hidden.
pub fn hidden_mark(node: &Node) -> (r: String)
    ensures
        r@ == hidden_mark_of(node@.attributes),
{
    if node.is_hidden_or_system() {
        owned("(隐藏)")
    } else {
        String::new()
    }
}

/// The texts of the row of a file or folder.
pub open spec fn child_cells_of(t: Tree, times: RowTimes) -> Cells {
    Cells {
        name: (if t.kind == NodeKind::Folder {
            "📁 "@
        } else {
            "📄 "@
        }) + t.name,
        mark: hidden_mark_of(t.attributes),
        logical: size_text(t.logical_size as nat),
        modified: or_dash(time_field(t.modified_ft, times.modified)),
        physical: size_text(t.physical_size as nat),
        created: or_dash(time_field(t.created_ft, times.created)),
        accessed: or_dash(time_field(t.accessed_ft, times.accessed)),
        items: folder_count_text(t, t.file_count + t.folder_count),
        files: folder_count_text(t, t.file_count as int),
        folders: folder_count_text(t, t.folder_count as int),
        attributes: attributes_text(t.attributes),
        reparse: or_dash(reparse_field(t.reparse_tag)),
        reserved: reserved_cell(t.is_reserved),
        owner: or_dash(t.owner),
    }
}

/// What stands in the column of modification times of a disk: its file system where that is known.
pub open spec fn disk_modified(t: Tree, info: Option<Disk>, times: RowTimes) -> Seq<char> {
    match info {
        Some(d) => if d.file_system.len() > 0 {
            d.file_system
        } else {
            time_field(t.modified_ft, times.modified)
        },
        None => time_field(t.modified_ft, times.modified),
    }
}

/// The texts of the row of a disk.
pub open spec fn disk_cells_of(t: Tree, info: Option<Disk>, times: RowTimes) -> Cells {
    Cells {
        name: "💾 "@ + t.name,
        modified: disk_modified(t, info, times),
        items: decimal((t.file_count + t.folder_count) as nat),
        files: decimal(t.file_count as nat),
        folders: decimal(t.folder_count as nat),
        ..child_cells_of(t, times)
    }
}

fn dash_for_nothing(s: String) -> (r: String)
    ensures
        r@ == or_dash(s@),
{
    if s.as_str().is_empty() {
        owned("—")
    } else {
        s
    }
}

fn time_text(ft: u64, local: Option<LocalTime>) -> (r: String)
    ensures
        r@ == time_field(ft, local),
{
    if ft == 0 {
        String::new()
    } else {
        format_filetime_local(ft, local)
    }
}

fn number_text(n: u128) -> (r: String)
    ensures
        r@ == decimal(n as nat),
{
    let mut out = String::new();
    push_decimal_wide(&mut out, n);
    assert(out@ =~= decimal(n as nat));
    out
}

fn folder_number_text(node: &Node, n: u128) -> (r: String)
    ensures
        r@ == folder_count_text(node@, n as int),
{
    match node.kind {
        NodeKind::Folder => number_text(n),
        NodeKind::File => owned("—"),
    }
}

fn reparse_cell(tag: u32) -> (r: String)
    ensures
        r@ == or_dash(reparse_field(tag)),
{
    proof {
        reveal_strlit("0x");
    }
    if tag == 0 {
        owned("—")
    } else {
        let mut out = owned("0x");
        push_hex_upper(&mut out, tag as u64);
        out
    }
}

/// The texts of the row of a file or folder. `times` are its times on the user's own clock, as far
/// as the system could tell them.
pub fn child_cells(node: &Node, times: RowTimes) -> (r: RowCells)
    ensures
        r@ == child_cells_of(node@, times),
{
    let mut name = match node.kind {
        NodeKind::Folder => owned("📁 "),
        NodeKind::File => owned("📄 "),
    };
    name.append(node.name.as_str());
    RowCells {
        name,
        mark: hidden_mark(node),
        logical: human_size(node.logical_size),
        modified: dash_for_nothing(time_text(node.modified_ft, times.modified)),
        physical: human_size(node.physical_size),
        created: dash_for_nothing(time_text(node.created_ft, times.created)),
        accessed: dash_for_nothing(time_text(node.accessed_ft, times.accessed)),
        items: folder_number_text(node, node.file_count as u128 + node.folder_count as u128),
        files: folder_number_text(node, node.file_count as u128),
        folders: folder_number_text(node, node.folder_count as u128),
        attributes: format_attributes(node.attributes),
        reparse: reparse_cell(node.reparse_tag),
        reserved: if node.is_reserved {
            owned("是")
        } else {
            owned("—")
        },
        owner: dash_for_nothing(node.owner.clone()),
    }
}

pub open spec fn opt_disk(info: Option<&DiskInfo>) -> Option<Disk> {
    match info {
        Some(d) => Some(d@),
        None => None,
    }
}

/// The texts of the row of a disk.
pub fn disk_cells(node: &Node, info: Option<&DiskInfo>, times: RowTimes) -> (r: RowCells)
    ensures
        r@ == disk_cells_of(node@, opt_disk(info), times),
{
    let mut cells = child_cells(node, times);
    let mut name = owned("💾 ");
    name.append(node.name.as_str());
    cells.name = name;
    let file_system = match info {
        Some(d) => d.file_system.clone(),
        None => String::new(),
    };
    cells.modified = if file_system.as_str().is_empty() {
        time_text(node.modified_ft, times.modified)
    } else {
        file_system
    };
    cells.items = number_text(node.file_count as u128 + node.folder_count as u128);
    cells.files = number_text(node.file_count as u128);
    cells.folders = number_text(node.folder_count as u128);
    cells
}

/// The two lines below the name of a disk: what the system says of it, and what the scan found.
pub open spec fn disk_lines_of(t: Tree, d: Disk) -> (Seq<char>, Seq<char>) {
    (
        "总: "@ + compact_size_text(d.total_bytes as nat) + "  已用: "@ + compact_size_text(
            d.used_bytes as nat,
        ) + "  可用: "@ + compact_size_text(d.free_bytes as nat),
        "扫描: 逻辑="@ + compact_size_text(t.logical_size as nat) + "  物理="@ + compact_size_text(
            t.physical_size as nat,
        ),
    )
}

/// The two lines below the name of a disk.
pub fn disk_lines(node: &Node, info: &DiskInfo) -> (r: (String, String))
    ensures
        (r.0@, r.1@) == disk_lines_of(node@, info@),
{
    let mut first = owned("总: ");
    first.append(human_size_compact(info.total_bytes).as_str());
    first.append("  已用: ");
    first.append(human_size_compact(info.used_bytes).as_str());
    first.append("  可用: ");
    first.append(human_size_compact(info.free_bytes).as_str());
    let mut second = owned("扫描: 逻辑=");
    second.append(human_size_compact(node.logical_size).as_str());
    second.append("  物理=");
    second.append(human_size_compact(node.physical_size).as_str());
    (first, second)
}

/// What the shares on a disk are taken of: its capacity if that is known, else what was found.
pub open spec fn disk_whole(t: Tree, info: Option<Disk>) -> u64 {
    match info {
        Some(d) => d.total_bytes,
        None => at_least_one(t.logical_size),
    }
}

/// The shares of a disk: all of itself, and what was found of its capacity. The second is what the
/// bar is drawn from.
pub fn disk_shares(node: &Node, info: Option<&DiskInfo>) -> (r: (String, String, u64))
    ensures
        r.0@ == two_decimals(share(1, 1, 100)) + "%"@,
        r.1@ == two_decimals(share(node@.logical_size, disk_whole(node@, opt_disk(info)), 100)) + "%"@,
        r.2 == disk_whole(node@, opt_disk(info)),
{
    let whole: u64 = match info {
        Some(d) => d.total_bytes,
        None => if node.logical_size == 0 {
            1
        } else {
            node.logical_size
        },
    };
    (share_text(1, 1), share_text(node.logical_size, whole), whole)
}

/// The shares of a file or folder, of the folder that it is in and of its disk.
pub fn child_shares(node: &Node, parent_logical: u64, disk: &Node) -> (r: (String, String))
    ensures
        r.0@ == two_decimals(share(node@.logical_size, parent_logical, 100)) + "%"@,
        r.1@ == two_decimals(share(node@.logical_size, at_least_one(disk@.logical_size), 100)) + "%"@,
{
    let whole: u64 = if disk.logical_size == 0 {
        1
    } else {
        disk.logical_size
    };
    (share_text(node.logical_size, parent_logical), share_text(node.logical_size, whole))
}

// ---------------------------------------------------------------------------------------------
// Rows and nodes
// ---------------------------------------------------------------------------------------------

/// What stands at `at`, the first number of which is that of a disk.
pub open spec fn found_at(parts: Seq<Tree>, at: Seq<usize>) -> Option<Tree> {
    if at.len() > 0 && at[0] < parts.len() {
        at_path(parts[at[0] as int], at.skip(1))
    } else {
        None
    }
}

/// The way to what a row shows.
pub open spec fn way_of(row: ListRow) -> Seq<usize> {
    match row {
        ListRow::Disk { pi } => seq![pi],
        ListRow::Child { pi, at, depth, parent_logical } => at,
    }
}

/// What a row shows.
pub fn row_node<'a>(partitions: &'a Vec<Node>, row: &RowKind) -> (r: Option<&'a Node>)
    ensures
        match r {
            Some(n) => found_at(trees(partitions@), way_of(row@)) == Some(n@),
            None => found_at(trees(partitions@), way_of(row@)) is None,
        },
{
    match row {
        RowKind::Disk { pi } => {
            assert(seq![*pi].skip(1) =~= Seq::empty());
            if *pi < partitions.len() {
                Some(&partitions[*pi])
            } else {
                None
            }
        },
        RowKind::Child { pi, abs_path, depth, parent_logical } => {
            if abs_path.len() == 0 {
                return None;
            }
            let top: usize = abs_path[0];
            if top >= partitions.len() {
                return None;
            }
            let below = vstd::slice::slice_subrange(abs_path.as_slice(), 1, abs_path.len());
            assert(below@ =~= abs_path@.skip(1));
            partitions[top].navigate(below)
        },
    }
}

/// Whether an action asks to open or close what is at `at`.
pub open spec fn asks_to_open(a: TreeAction, at: Seq<usize>) -> bool {
    a matches TreeAction::ToggleExpand(p) && p@ == at
}

/// Whether an action asks to select what is at `at`.
pub open spec fn asks_to_select(a: TreeAction, at: Seq<usize>) -> bool {
    a matches TreeAction::Select(p) && p@ == at
}

/// What a click on a row asks for: a disk or a folder is opened or closed, a file is selected.
/// `node` is what the row shows.
pub fn row_click(row: &RowKind, node: &Node) -> (r: TreeAction)
    ensures
        if row@ is Disk || node@.kind == NodeKind::Folder {
            asks_to_open(r, way_of(row@))
        } else {
            asks_to_select(r, way_of(row@))
        },
{
    match row {
        RowKind::Disk { pi } => {
            let mut p: Vec<usize> = Vec::new();
            p.push(*pi);
            assert(p@ =~= seq![*pi]);
            TreeAction::ToggleExpand(p)
        },
        RowKind::Child { pi, abs_path, depth, parent_logical } => {
            let p = copy_path(abs_path);
            match node.kind {
                NodeKind::Folder => TreeAction::ToggleExpand(p),
                NodeKind::File => TreeAction::Select(p),
            }
        },
    }
}

// ---------------------------------------------------------------------------------------------
// The file manager
// ---------------------------------------------------------------------------------------------

/// How the file manager is to be started.
pub enum ExplorerCall {
    /// With this text as its command line, as it stands.
    Raw(String),
    /// With this one argument.
    Plain(String),
}

/// How the file manager is started on `path`: to show the item itself in its folder, or to go into
/// it. There is nothing to start for no path. The path of an item to be shown is put in quotes,
/// without which one with blanks in it would lead elsewhere.
pub fn explorer_call(path: &str, select_self: bool) -> (r: Option<ExplorerCall>)
    ensures
        match r {
            None => path@.len() == 0,
            Some(ExplorerCall::Raw(s)) => path@.len() > 0 && select_self && s@ == "/select,\""@ + path@ + "\""@,
            Some(ExplorerCall::Plain(s)) => path@.len() > 0 && !select_self && s@ == path@,
        },
{
    if path.is_empty() {
        return None;
    }
    if select_self {
        let mut arg = owned("/select,\"");
        arg.append(path);
        arg.append("\"");
        Some(ExplorerCall::Raw(arg))
    } else {
        Some(ExplorerCall::Plain(owned(path)))
    }
}

/// Every row of the list shows something that is there: the way in it leads to a node.
pub proof fn law_every_row_shows_something(parts: Seq<Tree>, show_all: bool, i: int)
    requires
        parts.len() <= usize::MAX,
        forall|k: int| 0 <= k < parts.len() ==> machine_sized(#[trigger] parts[k]),
        0 <= i < disk_rows(parts, show_all, parts.len() as int).len(),
    ensures
        found_at(
            parts,
            way_of(disk_rows(parts, show_all, parts.len() as int)[i]),
        ) is Some,
{
    lemma_rows_lead_somewhere(parts, show_all, parts.len() as int, i);
}

proof fn lemma_rows_lead_somewhere(parts: Seq<Tree>, show_all: bool, n: int, i: int)
    requires
        0 <= n <= parts.len() <= usize::MAX,
        forall|k: int| 0 <= k < parts.len() ==> machine_sized(#[trigger] parts[k]),
        0 <= i < disk_rows(parts, show_all, n).len(),
    ensures
        found_at(parts, way_of(disk_rows(parts, show_all, n)[i])) is Some,
    decreases n,
{
    let before = disk_rows(parts, show_all, n - 1);
    let pi = (n - 1) as usize;
    if i < before.len() {
        lemma_rows_lead_somewhere(parts, show_all, n - 1, i);
    } else if i == before.len() {
        assert(seq![pi].skip(1) =~= Seq::empty());
    } else {
        let rule = shown_walk(show_all);
        let sts = steps(rule, parts[n - 1], Seq::empty());
        let k = i - before.len() - 1;
        law_every_step_leads_to_its_node(rule, parts[n - 1], Seq::empty());
        assert(leads_right(parts[n - 1], sts[k]));
        assert((seq![pi] + sts[k].at).skip(1) =~= sts[k].at);
    }
}

/// A row tells of its node, column by column: its name behind a sign, its two sizes, its three times,
/// its counts, which only folders show, its attributes, its tag, whether NTFS keeps it for itself, and
/// its owner. What is not known or not there is shown as a dash. Hidden items and the system's are
/// marked.
pub proof fn law_cells_tell_their_node(t: Tree, times: RowTimes)
    ensures
        ({
            let c = child_cells_of(t, times);
            &&& c.name.len() == t.name.len() + 2 && c.name.skip(2) == t.name
            &&& c.mark.len() > 0 <==> (t.attributes / 2 % 2 == 1 || t.attributes / 4 % 2 == 1)
            &&& c.logical == size_text(t.logical_size as nat)
            &&& c.physical == size_text(t.physical_size as nat)
            &&& shows_time(c.modified, t.modified_ft, times.modified)
            &&& shows_time(c.created, t.created_ft, times.created)
            &&& shows_time(c.accessed, t.accessed_ft, times.accessed)
            &&& t.kind == NodeKind::Folder ==> {
                &&& all_digits(c.files) && read_decimal(c.files) == t.file_count
                &&& all_digits(c.folders) && read_decimal(c.folders) == t.folder_count
                &&& all_digits(c.items) && read_decimal(c.items) == t.file_count + t.folder_count
            }
            &&& t.kind == NodeKind::File ==> c.files == "—"@ && c.folders == "—"@ && c.items == "—"@
            &&& c.attributes == attributes_text(t.attributes)
            &&& t.reparse_tag == 0 ==> c.reparse == "—"@
            &&& t.reparse_tag > 0 ==> c.reparse.len() > 2 && c.reparse[0] == '0' && c.reparse[1] == 'x' && read_hex(
                c.reparse.skip(2),
            ) == t.reparse_tag
            &&& c.reserved == (if t.is_reserved {
                "是"@
            } else {
                "—"@
            })
            &&& c.owner == (if t.owner.len() > 0 {
                t.owner
            } else {
                "—"@
            })
        }),
{
    let a = t.attributes;
    assert((a & 0x06 != 0) == (a / 2 % 2 == 1 || a / 4 % 2 == 1)) by (bit_vector);
    reveal_strlit("(隐藏)");
    reveal_strlit("📁 ");
    reveal_strlit("📄 ");
    reveal_strlit("0x");
    let c = child_cells_of(t, times);
    assert(c.name.skip(2) =~= t.name);
    law_decimals_read_back(t.file_count as nat);
    law_decimals_read_back(t.folder_count as nat);
    law_decimals_read_back((t.file_count + t.folder_count) as nat);
    law_hex_reads_back(t.reparse_tag as nat);
    let h = hex_upper(t.reparse_tag as nat);
    assert(("0x"@ + h).skip(2) =~= h);
}

/// Whether a cell shows a time: on the user's own clock where that is known, else in universal time,
/// and a dash where the time is not known or cannot be shown.
pub open spec fn shows_time(cell: Seq<char>, ft: u64, local: Option<LocalTime>) -> bool {
    if ft > 0 && local_text(ft as nat, local).len() > 0 {
        cell == local_text(ft as nat, local)
    } else {
        cell == "—"@
    }
}

/// The row of a disk shows its counts whatever it is, and its file system in place of a time where the
/// file system is known; its name stands behind a sign. Its sizes are those of what was found.
pub proof fn law_disk_cells_tell_their_disk(t: Tree, info: Option<Disk>, times: RowTimes)
    ensures
        ({
            let c = disk_cells_of(t, info, times);
            &&& c.name.len() == t.name.len() + 2 && c.name.skip(2) == t.name
            &&& all_digits(c.files) && read_decimal(c.files) == t.file_count
            &&& all_digits(c.folders) && read_decimal(c.folders) == t.folder_count
            &&& all_digits(c.items) && read_decimal(c.items) == t.file_count + t.folder_count
            &&& info is Some && info->0.file_system.len() > 0 ==> c.modified == info->0.file_system
            &&& c.logical == size_text(t.logical_size as nat)
            &&& c.physical == size_text(t.physical_size as nat)
        }),
{
    reveal_strlit("💾 ");
    let c = disk_cells_of(t, info, times);
    assert(c.name.skip(2) =~= t.name);
    law_decimals_read_back(t.file_count as nat);
    law_decimals_read_back(t.folder_count as nat);
    law_decimals_read_back((t.file_count + t.folder_count) as nat);
}


/// Exactly what is hidden, by the second bit of its attributes, or the system's, by the third, is
/// marked.
pub proof fn law_hidden_items_are_marked(attributes: u32)
    ensures
        (hidden_mark_of(attributes).len() > 0) == (attributes / 2 % 2 == 1 || attributes / 4 % 2 == 1),
{
    reveal_strlit("(隐藏)");
    assert((attributes & 0x06 != 0) == (attributes / 2 % 2 == 1 || attributes / 4 % 2 == 1)) by (bit_vector);
}

/// Shares on a disk are taken of its capacity where that is known, and else of what was found, but
/// never of nothing then.
pub proof fn law_disks_are_whole(t: Tree, d: Disk)
    ensures
        disk_whole(t, Some(d)) == d.total_bytes,
        disk_whole(t, None) > 0,
        t.logical_size > 0 ==> disk_whole(t, None) == t.logical_size,
{
}

} // verus!
