//! What the user and the log are told.
use vstd::prelude::*;

use crate::categorize::compute_categories;
use crate::dedup::HashPhase;
use crate::disk_info::DiskInfo;
use crate::format::human_size;
use crate::model::Node;
use crate::scan::SizesTooLarge;
use crate::text::{chars_of, owned, push_decimal};

verus! {

use crate::categorize::{categories_fit, category_label, category_total};
use crate::disk_info::{texts, Disk};
use crate::format::size_text;
use crate::model::Tree;
use crate::session::opt_disk;
use crate::text::{all_digits, decimal, law_decimals_read_back, read_decimal};

// ---------------------------------------------------------------------------------------------
// Export
// ---------------------------------------------------------------------------------------------

/// Whether a character is a letter or a number, in any script, as `char::is_alphanumeric` says.
pub uninterp spec fn is_alphanumeric(c: char) -> bool;

/// `char::is_alphanumeric`: the answer depends on the character alone. Which characters are letters
/// or numbers is Unicode's matter and not stated.
pub assume_specification[ char::is_alphanumeric ](c: char) -> (r: bool)
    ensures
        r == is_alphanumeric(c),
;

/// What stands for a character in the name of a file, if it is to be kept or not.
pub open spec fn kept_or_not(c: char, keep: bool) -> char {
    if keep {
        c
    } else {
        '_'
    }
}

/// What stands for a character in the name of a file, if it is to be kept or not.
pub fn safe_char(c: char, keep: bool) -> (r: char)
    ensures
        r == kept_or_not(c, keep),
{
    if keep {
        c
    } else {
        '_'
    }
}

/// `name` with everything but letters and numbers replaced.
pub open spec fn safe_name(name: Seq<char>) -> Seq<char> {
    name.map_values(|c: char| kept_or_not(c, is_alphanumeric(c)))
}

/// The name of the file that tree number `i` is exported to.
pub open spec fn export_name(i: nat, name: Seq<char>) -> Seq<char> {
    "diskforge_export_"@ + decimal(i + 1) + "_"@ + safe_name(name) + ".csv"@
}

/// The name of the file that tree number `i` is exported to: no character of it can mean anything
/// in a path.
pub fn export_file_name(i: usize, name: &str) -> (r: String)
    requires
        i < usize::MAX,
    ensures
        r@ == export_name(i as nat, name@),
{
    let mut out = owned("diskforge_export_");
    push_decimal(&mut out, i as u64 + 1);
    out.append("_");
    let ghost head = out@;
    let v = chars_of(name);
    let mut k: usize = 0;
    while k < v.len()
        invariant
            k <= v@.len(),
            v@ == name@,
            out@ =~= head + safe_name(name@).take(k as int),
        decreases v@.len() - k,
    {
        let c: char = v[k];
        out.push(safe_char(c, c.is_alphanumeric()));
        k = k + 1;
    }
    assert(safe_name(name@).take(k as int) =~= safe_name(name@));
    out.append(".csv");
    out
}

/// What the user is told after an export of which so many files were written.
pub fn export_message(ok_count: usize) -> (r: String)
    ensures
        r@ == if ok_count == 0 {
            "CSV 导出失败，详情见日志"@
        } else {
            "已导出 "@ + decimal(ok_count as nat) + " 个 CSV 文件到程序所在目录"@
        },
{
    if ok_count == 0 {
        return owned("CSV 导出失败，详情见日志");
    }
    let mut out = owned("已导出 ");
    push_decimal(&mut out, ok_count as u64);
    out.append(" 个 CSV 文件到程序所在目录");
    out
}

// ---------------------------------------------------------------------------------------------
// The end of a scan
// ---------------------------------------------------------------------------------------------

/// A size that may not be known.
pub open spec fn size_or_unknown(n: Option<u64>) -> Seq<char> {
    match n {
        Some(b) => size_text(b as nat),
        None => "未知"@,
    }
}

/// The lines about what a scan found.
pub open spec fn summary_of(t: Tree, disk: Option<Disk>) -> Seq<char> {
    let used = match disk {
        Some(d) => Some(d.used_bytes),
        None => None,
    };
    let free = match disk {
        Some(d) => Some(d.free_bytes),
        None => None,
    };
    "[app] 扫描完成: "@ + t.name + "\n  逻辑大小: "@ + size_text(t.logical_size as nat) + "\n  物理大小: "@ + size_text(
        t.physical_size as nat,
    ) + "\n  系统已用: "@ + size_or_unknown(used) + "\n  剩余空间: "@ + size_or_unknown(free) + "\n  文件: "@ + decimal(
        t.file_count as nat,
    ) + "  文件夹: "@ + decimal(t.folder_count as nat)
}

/// The line about one kind of files.
pub open spec fn category_line(t: Tree, c: int) -> Seq<char> {
    "  分类["@ + category_label(c) + "]: "@ + size_text(category_total(t, c))
}

/// The lines about the first `n` kinds of files, for those of which there is something.
pub open spec fn category_lines(t: Tree, n: int) -> Seq<Seq<char>>
    decreases n,
{
    if n <= 0 {
        Seq::empty()
    } else {
        let before = category_lines(t, n - 1);
        if category_total(t, n - 1) > 0 {
            before.push(category_line(t, n - 1))
        } else {
            before
        }
    }
}

fn push_size_or_unknown(out: &mut String, n: Option<u64>)
    ensures
        final(out)@ == old(out)@ + size_or_unknown(n),
{
    match n {
        Some(b) => {
            let s = human_size(b);
            out.append(s.as_str());
        },
        None => {
            out.append("未知");
        },
    }
}

/// What the log says once a scan is done: the sizes and counts, then how much there is of each kind
/// of files. There are no lines exactly if the kinds cannot be counted.
pub fn scan_summary(node: &Node, info: &Option<DiskInfo>) -> (r: Result<Vec<String>, SizesTooLarge>)
    ensures
        match r {
            Ok(v) => categories_fit(node@) && texts(v@) == seq![summary_of(node@, opt_disk(*info))]
                + category_lines(node@, 6),
            Err(_) => !categories_fit(node@),
        },
{
    let categories = match compute_categories(node) {
        Ok(c) => c,
        Err(e) => {
            return Err(e);
        },
    };
    let (used, free) = match info {
        Some(i) => (Some(i.used_bytes), Some(i.free_bytes)),
        None => (None, None),
    };
    let mut s = owned("[app] 扫描完成: ");
    s.append(node.name.as_str());
    s.append("\n  逻辑大小: ");
    s.append(human_size(node.logical_size).as_str());
    s.append("\n  物理大小: ");
    s.append(human_size(node.physical_size).as_str());
    s.append("\n  系统已用: ");
    push_size_or_unknown(&mut s, used);
    s.append("\n  剩余空间: ");
    push_size_or_unknown(&mut s, free);
    s.append("\n  文件: ");
    push_decimal(&mut s, node.file_count);
    s.append("  文件夹: ");
    push_decimal(&mut s, node.folder_count);
    assert(s@ =~= summary_of(node@, opt_disk(*info)));
    let ghost first = seq![s@];
    let mut out: Vec<String> = Vec::new();
    out.push(s);
    assert(texts(out@) =~= first + category_lines(node@, 0));
    let mut c: usize = 0;
    while c < 6
        invariant
            c <= 6,
            categories@.len() == 6,
            forall|k: int|
                0 <= k < 6 ==> (#[trigger] categories@[k]).label@ == category_label(k) && categories@[k].size
                    == category_total(node@, k),
            texts(out@) =~= first + category_lines(node@, c as int),
        decreases 6 - c,
    {
        let stat = categories[c];
        if stat.size > 0 {
            let mut line = owned("  分类[");
            line.append(stat.label);
            line.append("]: ");
            line.append(human_size(stat.size).as_str());
            assert(line@ =~= category_line(node@, c as int));
            let ghost before = texts(out@);
            out.push(line);
            assert(texts(out@) =~= before.push(line@));
        }
        c = c + 1;
    }
    Ok(out)
}

// ---------------------------------------------------------------------------------------------
// A search under way
// ---------------------------------------------------------------------------------------------

/// What is shown while a search for duplicates is under way.
pub struct SearchText {
    pub heading: String,
    pub step: String,
    pub count: String,
    pub explanation: String,
}

pub open spec fn step_label(phase: HashPhase) -> Seq<char> {
    match phase {
        HashPhase::Prefilter => "第 1 步 / 共 2 步：快速预筛"@,
        HashPhase::Confirm => "第 2 步 / 共 2 步：逐字节确认"@,
    }
}

pub open spec fn step_explanation(phase: HashPhase) -> Seq<char> {
    match phase {
        HashPhase::Prefilter =>
            "读取每个候选文件开头一小段内容，先排除大小相同但内容一开始就不一样的文件。"@,
        HashPhase::Confirm =>
            "逐字节比较文件内容，确认是不是真的一模一样（不是靠哈希碰巧相同）——这一步的文件数取决于实际重复率，重复率越高这一步越慢。"@,
    }
}

pub open spec fn count_text(done: u64, total: u64) -> Seq<char> {
    if total == 0 {
        "正在收集候选文件…"@
    } else {
        "已处理 "@ + decimal(done as nat) + " / "@ + decimal(total as nat) + " 个文件"@
    }
}

/// What is shown while a search for duplicates is under way: each phase by itself, since each
/// counts for itself.
pub fn search_text(title: &str, phase: HashPhase, done: u64, total: u64) -> (r: SearchText)
    ensures
        r.heading@ == "正在比对内容："@ + title@,
        r.step@ == step_label(phase),
        r.count@ == count_text(done, total),
        r.explanation@ == step_explanation(phase),
{
    let mut heading = owned("正在比对内容：");
    heading.append(title);
    let count = if total == 0 {
        owned("正在收集候选文件…")
    } else {
        let mut s = owned("已处理 ");
        push_decimal(&mut s, done);
        s.append(" / ");
        push_decimal(&mut s, total);
        s.append(" 个文件");
        s
    };
    match phase {
        HashPhase::Prefilter => SearchText {
            heading,
            step: owned("第 1 步 / 共 2 步：快速预筛"),
            count,
            explanation: owned("读取每个候选文件开头一小段内容，先排除大小相同但内容一开始就不一样的文件。"),
        },
        HashPhase::Confirm => SearchText {
            heading,
            step: owned("第 2 步 / 共 2 步：逐字节确认"),
            count,
            explanation: owned(
                "逐字节比较文件内容，确认是不是真的一模一样（不是靠哈希碰巧相同）——这一步的文件数取决于实际重复率，重复率越高这一步越慢。",
            ),
        },
    }
}


// ---------------------------------------------------------------------------------------------
// Deleting
// ---------------------------------------------------------------------------------------------

/// What the user is asked before something is deleted.
pub struct DeleteQuestion {
    pub question: String,
    /// What should be borne in mind, if anything.
    pub warning: Option<String>,
}

/// What the user is asked before a file or folder is deleted: for a folder, that all of its content
/// goes with it.
pub fn delete_question(is_folder: bool) -> (r: DeleteQuestion)
    ensures
        r.question@ == "确定要把这个"@ + (if is_folder {
            "文件夹"@
        } else {
            "文件"@
        }) + "删除到回收站吗？"@,
        match r.warning {
            Some(w) => is_folder && w@ == "文件夹里的所有内容都会一起被删除。"@,
            None => !is_folder,
        },
{
    let mut question = owned("确定要把这个");
    if is_folder {
        question.append("文件夹");
    } else {
        question.append("文件");
    }
    question.append("删除到回收站吗？");
    DeleteQuestion {
        question,
        warning: if is_folder {
            Some(owned("文件夹里的所有内容都会一起被删除。"))
        } else {
            None
        },
    }
}


/// The name of an exported file tells the number of the disk, counted from one, and its name, in
/// which every character that is neither a letter nor a digit is an underscore.
pub proof fn law_export_names_tell_the_disk(i: nat, name: Seq<char>) -> (k: int)
    ensures
        ({
            let n = export_name(i, name);
            let head = "diskforge_export_"@.len() as int;
            &&& 0 < k
            &&& n.len() == head + k + 1 + name.len() + 4
            &&& n.take(head) == "diskforge_export_"@
            &&& all_digits(n.subrange(head, head + k))
            &&& read_decimal(n.subrange(head, head + k)) == i + 1
            &&& n[head + k] == '_'
            &&& forall|j: int|
                0 <= j < name.len() ==> #[trigger] n[head + k + 1 + j] == if is_alphanumeric(name[j]) {
                    name[j]
                } else {
                    '_'
                }
            &&& n.skip(n.len() - 4) == ".csv"@
        }),
{
    let n = export_name(i, name);
    let digits = decimal(i + 1);
    law_decimals_read_back(i + 1);
    reveal_strlit("diskforge_export_");
    reveal_strlit("_");
    reveal_strlit(".csv");
    let head = "diskforge_export_"@.len() as int;
    let k = digits.len() as int;
    assert(n.subrange(head, head + k) =~= digits);
    assert(n.take(head) =~= "diskforge_export_"@);
    assert(n.skip(n.len() - 4) =~= ".csv"@);
    assert forall|j: int| 0 <= j < name.len() implies #[trigger] n[head + k + 1 + j] == if is_alphanumeric(
        name[j],
    ) {
        name[j]
    } else {
        '_'
    } by {
        assert(n[head + k + 1 + j] == safe_name(name)[j]);
    }
    k
}

/// The lines about kinds of files tell each kind of which there is something, in order, and no
/// other.
pub proof fn law_kinds_with_files_are_told(t: Tree, n: int, c: int)
    requires
        0 <= c < n,
    ensures
        category_total(t, c) > 0 ==> category_lines(t, n).contains(category_line(t, c)),
        category_lines(t, n).len() <= n,
        category_total(t, c) == 0 ==> category_lines(t, n).len() < n,
    decreases n,
{
    let before = category_lines(t, n - 1);
    lemma_few_lines(t, n - 1);
    if c < n - 1 {
        law_kinds_with_files_are_told(t, n - 1, c);
        if category_total(t, c) > 0 {
            let k = choose|k: int| 0 <= k < before.len() && before[k] == category_line(t, c);
            assert(category_lines(t, n)[k] == category_line(t, c));
        }
    } else if category_total(t, c) > 0 {
        assert(category_lines(t, n)[before.len() as int] == category_line(t, c));
    }
}

proof fn lemma_few_lines(t: Tree, n: int)
    requires
        n >= 0,
    ensures
        category_lines(t, n).len() <= n,
    decreases n,
{
    if n > 0 {
        lemma_few_lines(t, n - 1);
    }
}

} // verus!
