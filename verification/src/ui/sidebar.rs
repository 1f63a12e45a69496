//! The bar at the side: how full the disk in focus is, and what kinds of files are on it.
use vstd::prelude::*;

use crate::disk_info::DiskInfo;
use crate::format::human_size;
use crate::model::{CategoryStat, Node};
use crate::text::owned;

verus! {

use crate::disk_info::Disk;
use crate::format::size_text;
use crate::model::Tree;
use crate::order::{lemma_total_concat, total};
use crate::ui::cells::opt_disk;

/// What was asked for in the side bar.
#[derive(Debug, Clone, Copy, PartialEq, Eq, Structural)]
pub enum SidebarAction {
    Nothing,
    OpenExtensions,
    OpenDuplicates,
}

/// What the upper part of the bar shows.
pub enum Overview {
    /// A ring that is full to `used` parts of `whole`, with a name and a line below it.
    Ring { used: u64, whole: u64, name: String, line: String },
    /// A name and a line: of a directory there is no capacity to tell.
    Scanned { name: String, line: String },
    /// There is nothing yet.
    Waiting { line: String },
}

/// What an [`Overview`] says.
pub enum OverviewModel {
    Ring { used: u64, whole: u64, name: Seq<char>, line: Seq<char> },
    Scanned { name: Seq<char>, line: Seq<char> },
    Waiting { line: Seq<char> },
}

impl View for Overview {
    type V = OverviewModel;

    open spec fn view(&self) -> OverviewModel {
        match self {
            Overview::Ring { used, whole, name, line } => OverviewModel::Ring {
                used: *used,
                whole: *whole,
                name: name@,
                line: line@,
            },
            Overview::Scanned { name, line } => OverviewModel::Scanned { name: name@, line: line@ },
            Overview::Waiting { line } => OverviewModel::Waiting { line: line@ },
        }
    }
}

/// What is shown of what is in focus.
pub open spec fn overview_of(focused: Option<Tree>, info: Option<Disk>) -> OverviewModel {
    match (focused, info) {
        (None, _) => OverviewModel::Waiting { line: "扫描完成后显示"@ },
        (Some(t), Some(d)) => if d.total_bytes > 0 {
            OverviewModel::Ring {
                used: d.used_bytes,
                whole: d.total_bytes,
                name: t.name,
                line: "已用 "@ + size_text(d.used_bytes as nat) + " / 共 "@ + size_text(d.total_bytes as nat),
            }
        } else {
            OverviewModel::Scanned { name: t.name, line: "已扫描 "@ + size_text(t.logical_size as nat) }
        },
        (Some(t), None) => OverviewModel::Scanned {
            name: t.name,
            line: "已扫描 "@ + size_text(t.logical_size as nat),
        },
    }
}

pub open spec fn opt_tree(n: Option<&Node>) -> Option<Tree> {
    match n {
        Some(n) => Some(n@),
        None => None,
    }
}

/// What is shown of what is in focus.
pub fn overview(focused: Option<&Node>, info: Option<&DiskInfo>) -> (r: Overview)
    ensures
        r@ == overview_of(opt_tree(focused), opt_disk(info)),
{
    let node = match focused {
        Some(n) => n,
        None => {
            return Overview::Waiting { line: owned("扫描完成后显示") };
        },
    };
    let (used, whole): (u64, u64) = match info {
        Some(d) => (d.used_bytes, d.total_bytes),
        None => (0, 0),
    };
    if whole > 0 {
        let mut line = owned("已用 ");
        line.append(human_size(used).as_str());
        line.append(" / 共 ");
        line.append(human_size(whole).as_str());
        Overview::Ring { used, whole, name: node.name.clone(), line }
    } else {
        let mut line = owned("已扫描 ");
        line.append(human_size(node.logical_size).as_str());
        Overview::Scanned { name: node.name.clone(), line }
    }
}

pub open spec fn sizes_total(cats: Seq<CategoryStat>) -> nat {
    total(cats, |c: CategoryStat| c.size as nat)
}

/// The kinds that are shown: those of which there is something.
pub open spec fn shown_kinds(cats: Seq<CategoryStat>) -> Seq<CategoryStat> {
    cats.filter(|c: CategoryStat| c.size > 0)
}

/// The kinds of files that are shown, with what their shares are taken of: all sizes together, or
/// one byte where there is nothing.
pub fn shown_categories(cats: &Vec<CategoryStat>) -> (r: (Vec<CategoryStat>, u64))
    requires
        sizes_total(cats@) <= u64::MAX,
    ensures
        r.0@ == shown_kinds(cats@),
        r.1 == if sizes_total(cats@) == 0 {
            1
        } else {
            sizes_total(cats@)
        },
{
    let ghost size = |c: CategoryStat| c.size as nat;
    let ghost some = |c: CategoryStat| c.size > 0;
    let mut out: Vec<CategoryStat> = Vec::new();
    let mut sum: u64 = 0;
    let mut i: usize = 0;
    proof {
        reveal(Seq::filter);
        assert(cats@.take(0) =~= Seq::empty());
        assert(cats@.take(0).filter(some) =~= Seq::empty());
    }
    while i < cats.len()
        invariant
            i <= cats@.len(),
            size == (|c: CategoryStat| c.size as nat),
            some == (|c: CategoryStat| c.size > 0),
            total(cats@, size) <= u64::MAX,
            sum == total(cats@.take(i as int), size),
            out@ == cats@.take(i as int).filter(some),
        decreases cats@.len() - i,
    {
        let c = cats[i];
        proof {
            let now = cats@.take(i + 1);
            assert(now.drop_last() =~= cats@.take(i as int));
            assert(now.last() == c);
            lemma_total_concat(now, cats@.skip(i + 1), size);
            assert(now + cats@.skip(i + 1) =~= cats@);
            reveal(Seq::filter);
            assert(now.filter(some) == if some(c) {
                out@.push(c)
            } else {
                out@
            });
        }
        sum = sum + c.size;
        if c.size > 0 {
            out.push(c);
        }
        i = i + 1;
    }
    assert(cats@.take(i as int) =~= cats@);
    let whole: u64 = if sum == 0 {
        1
    } else {
        sum
    };
    (out, whole)
}

} // verus!
