//! The plain tables of analyses: extensions by size, and groups of files of one size.
use vstd::prelude::*;

use crate::format::human_size;
use crate::text::{chars_of, decimal_text, owned, push_decimal};

verus! {

use crate::disk_info::texts;
use crate::format::size_text;
use crate::order::{lemma_total_concat, total};
use crate::text::decimal;

/// How much there is of files with one extension.
pub struct ExtensionStat {
    pub ext: String,
    pub size: u64,
    pub count: u64,
}

/// Files that may be duplicates of one another.
pub struct PathGroup {
    pub size: u64,
    pub paths: Vec<String>,
}

/// An extension as shown: with its dot, unless it is words in brackets for files without one.
pub open spec fn extension_text(ext: Seq<char>) -> Seq<char> {
    if ext.len() > 0 && ext[0] == '（' {
        ext
    } else {
        "."@ + ext
    }
}

/// The texts of a row of the table of extensions.
pub struct ExtensionRow {
    pub name: String,
    pub size: String,
    pub count: String,
}

/// The texts of a row of the table of extensions.
pub fn extension_row(e: &ExtensionStat) -> (r: ExtensionRow)
    ensures
        r.name@ == extension_text(e.ext@),
        r.size@ == size_text(e.size as nat),
        r.count@ == decimal(e.count as nat),
{
    let v = chars_of(e.ext.as_str());
    let name = if v.len() > 0 && v[0] == '（' {
        e.ext.clone()
    } else {
        let mut s = owned(".");
        s.append(e.ext.as_str());
        s
    };
    ExtensionRow { name, size: human_size(e.size), count: decimal_text(e.count) }
}

pub open spec fn extensions_total(data: Seq<ExtensionStat>) -> nat {
    total(data, |e: ExtensionStat| e.size as nat)
}

/// What the shares of extensions are taken of: all sizes together, or one byte for nothing.
pub fn extensions_whole(data: &Vec<ExtensionStat>) -> (r: u64)
    requires
        extensions_total(data@) <= u64::MAX,
    ensures
        r == if extensions_total(data@) == 0 {
            1
        } else {
            extensions_total(data@)
        },
{
    let ghost size = |e: ExtensionStat| e.size as nat;
    let mut sum: u64 = 0;
    let mut i: usize = 0;
    while i < data.len()
        invariant
            i <= data@.len(),
            size == (|e: ExtensionStat| e.size as nat),
            total(data@, size) <= u64::MAX,
            sum == total(data@.take(i as int), size),
        decreases data@.len() - i,
    {
        proof {
            let now = data@.take(i + 1);
            assert(now.drop_last() =~= data@.take(i as int));
            lemma_total_concat(now, data@.skip(i + 1), size);
            assert(now + data@.skip(i + 1) =~= data@);
        }
        sum = sum + data[i].size;
        i = i + 1;
    }
    assert(data@.take(i as int) =~= data@);
    if sum == 0 {
        1
    } else {
        sum
    }
}

/// The texts of a row of the table of groups.
pub struct GroupRow {
    pub size: String,
    pub count: String,
    /// What could be saved.
    pub wasted: String,
    pub preview: String,
}

/// How a group is introduced: by the path of its first file, and how many more there are.
pub open spec fn preview_text(paths: Seq<Seq<char>>) -> Seq<char> {
    if paths.len() > 1 {
        paths[0] + "  (+"@ + decimal((paths.len() - 1) as nat) + " 个，悬停查看全部)"@
    } else {
        paths[0]
    }
}

/// The texts of a row of the table of groups. All files of a group but one could be saved.
pub fn group_row(g: &PathGroup) -> (r: GroupRow)
    requires
        g.paths@.len() > 0,
        g.size * (g.paths@.len() - 1) <= u64::MAX,
    ensures
        r.size@ == size_text(g.size as nat),
        r.count@ == decimal(g.paths@.len()),
        r.wasted@ == size_text((g.size * (g.paths@.len() - 1)) as nat),
        r.preview@ == preview_text(texts(g.paths@)),
{
    let n: usize = g.paths.len();
    let wasted: u64 = g.size * (n as u64 - 1);
    let mut preview = g.paths[0].clone();
    if n > 1 {
        preview.append("  (+");
        push_decimal(&mut preview, n as u64 - 1);
        preview.append(" 个，悬停查看全部)");
    }
    assert(texts(g.paths@)[0] == g.paths@[0]@);
    GroupRow { size: human_size(g.size), count: decimal_text(n as u64), wasted: human_size(wasted), preview }
}

} // verus!
