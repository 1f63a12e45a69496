//! A tree as a table of comma-separated values.
use vstd::prelude::*;

use crate::decimals::{percent, rounded, Precision};
use crate::format::{format_attributes, format_filetime_local, LocalTime};
use crate::model::{Node, NodeKind};
use crate::text::{chars_of, decimal_text, owned, push_decimal_wide, push_hex_upper, push_hundredths};
use crate::walk::{Walker, WalkRule};

verus! {

use crate::decimals::{float_of, law_share_is_part_of_whole, percent_of};
use crate::edit::machine_sized;
use crate::format::{attributes_text, local_text};
use crate::model::{adds_up, at_path, files_total, folders_total, Tree};
use crate::order::lemma_total_remove;
use crate::text::{
    all_digits, decimal, hex_upper, law_decimals_read_back, law_hex_reads_back, law_two_decimals_read_back,
    read_decimal, read_hex, two_decimals,
};
use crate::walk::{
    enters, is_on_walk, joined, knows_its_folder, law_every_step_knows_its_folder, law_walk_comes_by_everything_shown,
    law_walk_comes_by_nothing_else, law_walk_goes_from_top_to_bottom, stands_above, steps, steps_from, way_spelled,
    Step,
};

// ---------------------------------------------------------------------------------------------
// Fields
// ---------------------------------------------------------------------------------------------

pub open spec fn is_special(c: char) -> bool {
    c == ',' || c == '"' || c == '\n'
}

/// Whether a field has to be put in quotes.
pub open spec fn needs_quotes(s: Seq<char>) -> bool {
    exists|i: int| 0 <= i < s.len() && is_special(#[trigger] s[i])
}

/// `s` with every quote written twice.
pub open spec fn quotes_doubled(s: Seq<char>) -> Seq<char>
    decreases s.len(),
{
    if s.len() == 0 {
        Seq::empty()
    } else {
        quotes_doubled(s.drop_last()) + if s.last() == '"' {
            seq!['"', '"']
        } else {
            seq![s.last()]
        }
    }
}

/// A field as it stands in the table.
pub open spec fn escaped(s: Seq<char>) -> Seq<char> {
    if needs_quotes(s) {
        seq!['"'] + quotes_doubled(s) + seq!['"']
    } else {
        s
    }
}

/// The fields of a row, each followed by a comma but the last.
pub open spec fn row_text(fields: Seq<Seq<char>>) -> Seq<char>
    decreases fields.len(),
{
    if fields.len() == 0 {
        Seq::empty()
    } else if fields.len() == 1 {
        escaped(fields[0])
    } else {
        row_text(fields.drop_last()).push(',') + escaped(fields.last())
    }
}

fn push_field(out: &mut String, s: &str)
    ensures
        final(out)@ == old(out)@ + escaped(s@),
{
    let v = chars_of(s);
    let mut special = false;
    let mut i: usize = 0;
    while i < v.len()
        invariant
            i <= v@.len(),
            special == exists|k: int| 0 <= k < i && is_special(#[trigger] v@[k]),
        decreases v@.len() - i,
    {
        let c: char = v[i];
        if c == ',' || c == '"' || c == '\n' {
            special = true;
            assert(is_special(v@[i as int]));
        }
        i = i + 1;
    }
    if !special {
        out.append(s);
        return;
    }
    out.push('"');
    let ghost start = out@;
    let mut j: usize = 0;
    while j < v.len()
        invariant
            j <= v@.len(),
            out@ =~= start + quotes_doubled(v@.take(j as int)),
        decreases v@.len() - j,
    {
        assert(v@.take(j + 1).drop_last() =~= v@.take(j as int));
        if v[j] == '"' {
            out.push('"');
        }
        out.push(v[j]);
        j = j + 1;
    }
    assert(v@.take(v@.len() as int) =~= v@);
    out.push('"');
    assert(out@ =~= old(out)@ + escaped(s@));
}

/// The field at the start of `x`, and what follows it.
pub open spec fn read_field(x: Seq<char>) -> (Seq<char>, Seq<char>) {
    if x.len() > 0 && x[0] == '"' {
        read_quoted(x.skip(1))
    } else {
        read_plain(x)
    }
}

/// What stands before the next comma or line break.
pub open spec fn read_plain(x: Seq<char>) -> (Seq<char>, Seq<char>)
    decreases x.len(),
{
    if x.len() == 0 || x[0] == ',' || x[0] == '\n' {
        (Seq::empty(), x)
    } else {
        let r = read_plain(x.skip(1));
        (seq![x[0]] + r.0, r.1)
    }
}

/// What stands before the next single quote, two quotes being read as one.
pub open spec fn read_quoted(x: Seq<char>) -> (Seq<char>, Seq<char>)
    decreases x.len(),
{
    if x.len() == 0 {
        (Seq::empty(), x)
    } else if x[0] == '"' {
        if x.len() >= 2 && x[1] == '"' {
            let r = read_quoted(x.skip(2));
            (seq!['"'] + r.0, r.1)
        } else {
            (Seq::empty(), x.skip(1))
        }
    } else {
        let r = read_quoted(x.skip(1));
        (seq![x[0]] + r.0, r.1)
    }
}

proof fn lemma_read_plain(s: Seq<char>, rest: Seq<char>)
    requires
        !needs_quotes(s),
        rest.len() == 0 || rest[0] == ',' || rest[0] == '\n',
    ensures
        read_plain(s + rest) == (s, rest),
    decreases s.len(),
{
    if s.len() == 0 {
        assert(s + rest =~= rest);
    } else {
        assert(!is_special(s[0]));
        assert forall|i: int| 0 <= i < s.skip(1).len() implies !is_special(#[trigger] s.skip(1)[i]) by {
            assert(!is_special(s[i + 1]));
        }
        lemma_read_plain(s.skip(1), rest);
        assert((s + rest).skip(1) =~= s.skip(1) + rest);
        assert(seq![s[0]] + s.skip(1) =~= s);
    }
}

/// The first character of a text comes out first when its quotes are doubled.
proof fn lemma_doubled_first(s: Seq<char>)
    requires
        s.len() > 0,
    ensures
        quotes_doubled(s) == (if s[0] == '"' {
            seq!['"', '"']
        } else {
            seq![s[0]]
        }) + quotes_doubled(s.skip(1)),
    decreases s.len(),
{
    if s.len() == 1 {
        reveal_with_fuel(quotes_doubled, 2);
        assert(s.drop_last() =~= Seq::empty());
        assert(s.skip(1) =~= Seq::empty());
    } else {
        lemma_doubled_first(s.drop_last());
        assert(s.drop_last().skip(1) =~= s.skip(1).drop_last());
        assert(s.skip(1).last() == s.last());
    }
    assert(quotes_doubled(s) =~= (if s[0] == '"' {
        seq!['"', '"']
    } else {
        seq![s[0]]
    }) + quotes_doubled(s.skip(1)));
}

proof fn lemma_read_quoted(s: Seq<char>, rest: Seq<char>)
    requires
        rest.len() == 0 || rest[0] != '"',
    ensures
        read_quoted(quotes_doubled(s) + seq!['"'] + rest) == (s, rest),
    decreases s.len(),
{
    let x = quotes_doubled(s) + seq!['"'] + rest;
    if s.len() == 0 {
        assert(x =~= seq!['"'] + rest);
        assert(x.skip(1) =~= rest);
    } else {
        lemma_doubled_first(s);
        lemma_read_quoted(s.skip(1), rest);
        let tail = quotes_doubled(s.skip(1)) + seq!['"'] + rest;
        assert(seq![s[0]] + s.skip(1) =~= s);
        if s[0] == '"' {
            assert(x =~= seq!['"', '"'] + tail);
            assert(x.skip(2) =~= tail);
        } else {
            assert(x =~= seq![s[0]] + tail);
            assert(x.skip(1) =~= tail);
        }
    }
}

/// A reader gets back every field as it was, whatever characters it has: what is read of the
/// field as written, with a comma, a line break or nothing behind it, is the field.
pub proof fn law_escaping_can_be_undone(s: Seq<char>, rest: Seq<char>)
    requires
        rest.len() == 0 || rest[0] == ',' || rest[0] == '\n',
    ensures
        read_field(escaped(s) + rest) == (s, rest),
{
    let x = escaped(s) + rest;
    if needs_quotes(s) {
        lemma_read_quoted(s, rest);
        assert(x.skip(1) =~= quotes_doubled(s) + seq!['"'] + rest);
    } else {
        lemma_read_plain(s, rest);
        if s.len() > 0 {
            assert(!is_special(s[0]));
        }
    }
}

/// The fields of a row up to its end, which is a line break or the end of the text.
pub open spec fn read_row(x: Seq<char>, count: nat) -> Seq<Seq<char>>
    decreases count,
{
    if count == 0 {
        Seq::empty()
    } else {
        let (field, rest) = read_field(x);
        seq![field] + if rest.len() > 0 && rest[0] == ',' {
            read_row(rest.skip(1), (count - 1) as nat)
        } else {
            Seq::empty()
        }
    }
}

/// The first field of a row comes first in its text.
proof fn lemma_row_first(fields: Seq<Seq<char>>)
    requires
        fields.len() >= 2,
    ensures
        row_text(fields) == escaped(fields[0]).push(',') + row_text(fields.skip(1)),
    decreases fields.len(),
{
    if fields.len() == 2 {
        reveal_with_fuel(row_text, 3);
        assert(fields.drop_last() =~= seq![fields[0]]);
        assert(fields.skip(1) =~= seq![fields[1]]);
    } else {
        lemma_row_first(fields.drop_last());
        assert(fields.drop_last().skip(1) =~= fields.skip(1).drop_last());
        assert(fields.drop_last()[0] == fields[0]);
        assert(fields.skip(1).last() == fields.last());
    }
    assert(row_text(fields) =~= escaped(fields[0]).push(',') + row_text(fields.skip(1)));
}

/// A reader gets back every row as it was, with all of its fields and no others.
pub proof fn law_rows_can_be_read_back(fields: Seq<Seq<char>>, rest: Seq<char>)
    requires
        fields.len() > 0,
        rest.len() == 0 || rest[0] == '\n',
    ensures
        read_row(row_text(fields) + rest, fields.len()) == fields,
    decreases fields.len(),
{
    let x = row_text(fields) + rest;
    if fields.len() == 1 {
        law_escaping_can_be_undone(fields[0], rest);
        reveal_with_fuel(read_row, 2);
    } else {
        lemma_row_first(fields);
        let tail = row_text(fields.skip(1)) + rest;
        law_escaping_can_be_undone(fields[0], seq![','] + tail);
        assert(x =~= escaped(fields[0]) + (seq![','] + tail));
        assert((seq![','] + tail).skip(1) =~= tail);
        law_rows_can_be_read_back(fields.skip(1), rest);
        assert(seq![fields[0]] + fields.skip(1) =~= fields);
    }
    assert(read_row(x, fields.len()) =~= fields);
}

// ---------------------------------------------------------------------------------------------
// Rows
// ---------------------------------------------------------------------------------------------

/// The three times of a node on the user's own clock, as far as the system could tell them.
#[derive(Clone, Copy)]
pub struct RowTimes {
    pub modified: Option<LocalTime>,
    pub created: Option<LocalTime>,
    pub accessed: Option<LocalTime>,
}

/// The three file times of a node.
#[derive(Clone, Copy)]
pub struct FileTimes {
    pub modified: u64,
    pub created: u64,
    pub accessed: u64,
}

/// The times for row number `i`; where there are none, universal time is shown.
pub open spec fn times_at(times: Seq<RowTimes>, i: int) -> RowTimes {
    if 0 <= i < times.len() {
        times[i]
    } else {
        RowTimes { modified: None, created: None, accessed: None }
    }
}

pub open spec fn time_field(ft: u64, local: Option<LocalTime>) -> Seq<char> {
    if ft == 0 {
        Seq::empty()
    } else {
        local_text(ft as nat, local)
    }
}

pub open spec fn reparse_field(tag: u32) -> Seq<char> {
    if tag == 0 {
        Seq::empty()
    } else {
        "0x"@ + hex_upper(tag as nat)
    }
}

pub open spec fn reserved_field(is_reserved: bool) -> Seq<char> {
    if is_reserved {
        "是"@
    } else {
        Seq::empty()
    }
}

/// A number that a folder shows and a file does not have.
pub open spec fn folder_number(t: Tree, n: int) -> Seq<char> {
    decimal((if t.kind == NodeKind::Folder {
        n
    } else {
        0
    }) as nat)
}

/// The fields of a row: the node `t` at `path`, its shares of its folder and of everything in
/// hundredths of a percent, and its times.
pub open spec fn fields_of(t: Tree, path: Seq<char>, of_parent: nat, of_all: nat, times: RowTimes) -> Seq<
    Seq<char>,
> {
    seq![
        path,
        t.name,
        two_decimals(of_parent),
        two_decimals(of_all),
        decimal(t.logical_size as nat),
        time_field(t.modified_ft, times.modified),
        decimal(t.physical_size as nat),
        time_field(t.created_ft, times.created),
        time_field(t.accessed_ft, times.accessed),
        folder_number(t, t.file_count + t.folder_count),
        folder_number(t, t.file_count as int),
        folder_number(t, t.folder_count as int),
        attributes_text(t.attributes),
        reparse_field(t.reparse_tag),
        reserved_field(t.is_reserved),
        t.owner,
    ]
}

/// What `part` is of `whole`, in hundredths of a percent; of nothing as of one byte.
pub open spec fn share(part: u64, whole: u64) -> nat {
    let whole = if whole == 0 {
        1
    } else {
        whole
    };
    percent_of(
        float_of(part as nat, Precision::Double),
        float_of(whole as nat, Precision::Double),
        Precision::Double,
        100,
    )
}

fn share_of(part: u64, whole: u64) -> (r: u128)
    ensures
        r == share(part, whole),
{
    let w: u64 = if whole == 0 {
        1
    } else {
        whole
    };
    percent(rounded(part as u128, Precision::Double), rounded(w as u128, Precision::Double), Precision::Double, 100)
}

/// The line for one step of the walk through the tree, in row `i` of the table.
pub open spec fn line_of(s: Step, whole: u64, times: Seq<RowTimes>, i: int) -> Seq<char> {
    row_text(
        fields_of(
            s.node,
            s.path,
            share(s.node.logical_size, s.parent_logical),
            share(s.node.logical_size, whole),
            times_at(times, i),
        ),
    ).push('\n')
}

/// The lines for what is below the top of the tree.
pub open spec fn lines_of(sts: Seq<Step>, whole: u64, times: Seq<RowTimes>) -> Seq<char>
    decreases sts.len(),
{
    if sts.len() == 0 {
        Seq::empty()
    } else {
        lines_of(sts.drop_last(), whole, times) + line_of(sts.last(), whole, times, sts.len() as int)
    }
}

/// How many nodes of a kind the walk comes by.
pub open spec fn count_of(sts: Seq<Step>, kind: NodeKind) -> nat
    decreases sts.len(),
{
    if sts.len() == 0 {
        0
    } else {
        count_of(sts.drop_last(), kind) + if sts.last().node.kind == kind {
            1nat
        } else {
            0
        }
    }
}

/// The walk through everything.
pub open spec fn whole_walk() -> WalkRule {
    WalkRule { open_only: false, with_reserved: true }
}

/// The first line.
pub open spec fn heading() -> Seq<char> {
    "路径,名称,父占比(%),总占比(%),逻辑大小,修改时间,物理大小,创建时间,访问时间,项目,文件,文件夹,属性,重解析点,保留,所有者"@
}

/// The whole table: a byte order mark, the heading, the top and everything below.
pub open spec fn table_text(root: Tree, path: Seq<char>, times: Seq<RowTimes>) -> Seq<char> {
    seq!['\u{FEFF}'] + heading().push('\n') + row_text(
        fields_of(root, path, 10_000, 10_000, times_at(times, 0)),
    ).push('\n') + lines_of(steps(whole_walk(), root, path), root.logical_size, times)
}

fn time_of(ft: u64, local: Option<LocalTime>) -> (r: String)
    ensures
        r@ == time_field(ft, local),
{
    if ft > 0 {
        format_filetime_local(ft, local)
    } else {
        String::new()
    }
}

fn wide_text(n: u128) -> (r: String)
    ensures
        r@ == decimal(n as nat),
{
    let mut out = String::new();
    push_decimal_wide(&mut out, n);
    assert(out@ =~= decimal(n as nat));
    out
}

fn hundredths_text(h: u128) -> (r: String)
    ensures
        r@ == two_decimals(h as nat),
{
    let mut out = String::new();
    push_hundredths(&mut out, h);
    assert(out@ =~= two_decimals(h as nat));
    out
}

fn reparse_text(tag: u32) -> (r: String)
    ensures
        r@ == reparse_field(tag),
{
    if tag == 0 {
        String::new()
    } else {
        let mut out = owned("0x");
        push_hex_upper(&mut out, tag as u64);
        out
    }
}

/// Appends a row.
fn write_row(out: &mut String, path: &str, node: &Node, of_parent: u128, of_all: u128, times: RowTimes)
    ensures
        final(out)@ == old(out)@ + row_text(
            fields_of(node@, path@, of_parent as nat, of_all as nat, times),
        ).push('\n'),
{
    let folder = node.is_folder();
    let ghost fields = fields_of(node@, path@, of_parent as nat, of_all as nat, times);
    let items: u128 = if folder {
        node.file_count as u128 + node.folder_count as u128
    } else {
        0
    };
    let files: u128 = if folder {
        node.file_count as u128
    } else {
        0
    };
    let folders: u128 = if folder {
        node.folder_count as u128
    } else {
        0
    };
    let mut v: Vec<String> = Vec::new();
    v.push(owned(path));
    v.push(node.name.clone());
    v.push(hundredths_text(of_parent));
    v.push(hundredths_text(of_all));
    v.push(decimal_text(node.logical_size));
    v.push(time_of(node.modified_ft, times.modified));
    v.push(decimal_text(node.physical_size));
    v.push(time_of(node.created_ft, times.created));
    v.push(time_of(node.accessed_ft, times.accessed));
    v.push(wide_text(items));
    v.push(wide_text(files));
    v.push(wide_text(folders));
    v.push(format_attributes(node.attributes));
    v.push(reparse_text(node.reparse_tag));
    v.push(
        if node.is_reserved {
            owned("是")
        } else {
            String::new()
        },
    );
    v.push(node.owner.clone());
    assert(v@.len() == fields.len());
    assert(forall|i: int| 0 <= i < fields.len() ==> #[trigger] v@[i]@ == fields[i]);
    let mut i: usize = 0;
    while i < v.len()
        invariant
            i <= v@.len(),
            v@.len() == fields.len(),
            forall|k: int| 0 <= k < fields.len() ==> #[trigger] v@[k]@ == fields[k],
            out@ =~= old(out)@ + row_text(fields.take(i as int)),
        decreases v@.len() - i,
    {
        let ghost at = out@;
        if i > 0 {
            out.push(',');
        }
        push_field(out, v[i].as_str());
        proof {
            assert(fields.take(i + 1).drop_last() =~= fields.take(i as int));
            assert(fields.take(i + 1).last() == fields[i as int]);
        }
        i = i + 1;
    }
    assert(fields.take(fields.len() as int) =~= fields);
    out.push('\n');
    assert(out@ =~= old(out)@ + row_text(fields).push('\n'));
}

/// The times that the rows of the table show, row by row, in file time.
pub fn table_times(root: &Node, root_path: &str) -> (r: Vec<FileTimes>)
    ensures
        ({
            let sts = steps(whole_walk(), root@, root_path@);
            &&& r@.len() == sts.len() + 1
            &&& r@[0] == times_in(root@)
            &&& forall|i: int| 0 <= i < sts.len() ==> #[trigger] r@[i + 1] == times_in(sts[i].node)
        }),
{
    let ghost sts = steps(whole_walk(), root@, root_path@);
    let mut out: Vec<FileTimes> = Vec::new();
    out.push(
        FileTimes { modified: root.modified_ft, created: root.created_ft, accessed: root.accessed_ft },
    );
    let mut walker = Walker::new(WalkRule { open_only: false, with_reserved: true }, root, root_path);
    assert(sts.skip(0) =~= sts);
    loop
        invariant
            1 <= out@.len() <= sts.len() + 1,
            walker.left() == sts.skip(out@.len() - 1),
            out@[0] == times_in(root@),
            forall|i: int| 0 <= i < out@.len() - 1 ==> #[trigger] out@[i + 1] == times_in(sts[i].node),
        ensures
            out@.len() == sts.len() + 1,
        decreases walker.left().len(),
    {
        match walker.next() {
            Some(v) => {
                let n: &Node = v.node;
                out.push(
                    FileTimes { modified: n.modified_ft, created: n.created_ft, accessed: n.accessed_ft },
                );
                assert(walker.left() =~= sts.skip(out@.len() - 1));
            },
            None => {
                break;
            },
        }
    }
    out
}

pub open spec fn times_in(t: Tree) -> FileTimes {
    FileTimes { modified: t.modified_ft, created: t.created_ft, accessed: t.accessed_ft }
}

/// `n`, or the largest number that fits.
pub open spec fn at_most_max(n: nat) -> u64 {
    if n <= u64::MAX {
        n as u64
    } else {
        u64::MAX
    }
}

fn one_more(n: u64) -> (r: u64)
    ensures
        forall|k: nat| n == at_most_max(k) ==> r == #[trigger] at_most_max(k + 1),
{
    if n < u64::MAX {
        n + 1
    } else {
        n
    }
}

/// The whole tree as a table, with how many files and how many folders there are below the top.
/// `times` gives the times of each row on the user's own clock, in the order of [`table_times`].
pub fn export_tree_csv(root: &Node, root_path: &str, times: &Vec<RowTimes>) -> (r: (String, u64, u64))
    ensures
        r.0@ == table_text(root@, root_path@, times@),
        r.1 == at_most_max(count_of(steps(whole_walk(), root@, root_path@), NodeKind::File)),
        r.2 == at_most_max(count_of(steps(whole_walk(), root@, root_path@), NodeKind::Folder)),
{
    let ghost sts = steps(whole_walk(), root@, root_path@);
    let mut out = String::new();
    out.push('\u{FEFF}');
    out.append(
        "路径,名称,父占比(%),总占比(%),逻辑大小,修改时间,物理大小,创建时间,访问时间,项目,文件,文件夹,属性,重解析点,保留,所有者",
    );
    out.push('\n');
    let first = time_row(times, 0);
    write_row(&mut out, root_path, root, 10_000, 10_000, first);
    let ghost top = out@;
    let whole: u64 = root.logical_size;
    let mut files: u64 = 0;
    let mut folders: u64 = 0;
    let mut row: usize = 0;
    let ghost mut done: int = 0;
    let mut walker = Walker::new(WalkRule { open_only: false, with_reserved: true }, root, root_path);
    assert(sts.skip(0) =~= sts);
    assert(top =~= seq!['\u{FEFF}'] + heading().push('\n') + row_text(
        fields_of(root@, root_path@, 10_000, 10_000, times_at(times@, 0)),
    ).push('\n'));
    loop
        invariant
            0 <= done <= sts.len(),
            walker.left() == sts.skip(done),
            whole == root@.logical_size,
            row <= times@.len(),
            row == done || (row == times@.len() && row <= done),
            out@ =~= top + lines_of(sts.take(done), whole, times@),
            files == at_most_max(count_of(sts.take(done), NodeKind::File)),
            folders == at_most_max(count_of(sts.take(done), NodeKind::Folder)),
        ensures
            done == sts.len(),
        decreases walker.left().len(),
    {
        match walker.next() {
            Some(v) => {
                proof {
                    assert(sts.take(done + 1).drop_last() =~= sts.take(done));
                    assert(sts.take(done + 1).last() == sts[done]);
                    assert(v.step() == sts[done]);
                }
                if row < times.len() {
                    row = row + 1;
                }
                let t = time_row(times, row);
                let of_parent: u128 = share_of(v.node.logical_size, v.parent_logical);
                let of_all: u128 = share_of(v.node.logical_size, whole);
                write_row(&mut out, v.path.as_str(), v.node, of_parent, of_all, t);
                if v.node.is_folder() {
                    folders = one_more(folders);
                } else {
                    files = one_more(files);
                }
                proof {
                    done = done + 1;
                    assert(walker.left() =~= sts.skip(done));
                    assert(times_at(times@, row as int) == times_at(times@, done));
                }
            },
            None => {
                break;
            },
        }
    }
    assert(sts.take(sts.len() as int) =~= sts);
    (out, files, folders)
}

fn time_row(times: &Vec<RowTimes>, i: usize) -> (r: RowTimes)
    ensures
        r == times_at(times@, i as int),
{
    if i < times.len() {
        times[i]
    } else {
        RowTimes { modified: None, created: None, accessed: None }
    }
}

proof fn lemma_count_concat(a: Seq<Step>, b: Seq<Step>, kind: NodeKind)
    ensures
        count_of(a + b, kind) == count_of(a, kind) + count_of(b, kind),
    decreases b.len(),
{
    if b.len() == 0 {
        assert(a + b =~= a);
    } else {
        lemma_count_concat(a, b.drop_last(), kind);
        assert((a + b).drop_last() =~= a + b.drop_last());
        assert((a + b).last() == b.last());
    }
}

proof fn lemma_counts_from(t: Tree, from: int, at: Seq<usize>, path: Seq<char>, depth: nat)
    requires
        0 <= from <= t.children.len(),
        forall|i: int| 0 <= i < t.children.len() ==> adds_up(#[trigger] t.children[i]),
    ensures
        count_of(steps_from(whole_walk(), t, from, at, path, depth), NodeKind::File) + files_total(
            t.children.take(from),
        ) == files_total(t.children),
        count_of(steps_from(whole_walk(), t, from, at, path, depth), NodeKind::Folder) + folders_total(
            t.children.take(from),
        ) == folders_total(t.children),
    decreases t, t.children.len() - from,
{
    let rule = whole_walk();
    if from == t.children.len() {
        assert(t.children.take(from) =~= t.children);
    } else {
        let c = t.children[from];
        lemma_counts_from(t, from + 1, at, path, depth);
        assert(t.children.take(from + 1).drop_last() =~= t.children.take(from));
        assert(t.children.take(from + 1).last() == c);
        assert(adds_up(c));
        let way = at.push(from as usize);
        let name = joined(path, c.name);
        let here = Step { node: c, at: way, path: name, depth, parent_logical: t.logical_size };
        let inside = if enters(rule, c) {
            steps_from(rule, c, 0, way, name, depth + 1)
        } else {
            Seq::empty()
        };
        let rest = steps_from(rule, t, from + 1, at, path, depth);
        if c.kind == NodeKind::Folder {
            lemma_counts_from(c, 0, way, name, depth + 1);
            assert(c.children.take(0) =~= Seq::empty());
        }
        reveal_with_fuel(count_of, 2);
        assert(seq![here].drop_last() =~= Seq::empty());
        lemma_count_concat(seq![here], inside, NodeKind::File);
        lemma_count_concat(seq![here], inside, NodeKind::Folder);
        lemma_count_concat(seq![here] + inside, rest, NodeKind::File);
        lemma_count_concat(seq![here] + inside, rest, NodeKind::Folder);
    }
}

/// Where the numbers of a tree add up, the table has a row for each of the files and folders that
/// its top counts.
pub proof fn law_table_has_everything(root: Tree, path: Seq<char>)
    requires
        adds_up(root),
    ensures
        count_of(steps(whole_walk(), root, path), NodeKind::File) == root.file_count,
        count_of(steps(whole_walk(), root, path), NodeKind::Folder) == root.folder_count,
{
    if root.kind == NodeKind::Folder {
        lemma_counts_from(root, 0, Seq::empty(), path, 0);
        assert(root.children.take(0) =~= Seq::empty());
    } else {
        assert(steps(whole_walk(), root, path) =~= Seq::empty());
    }
}

// ---------------------------------------------------------------------------------------------
// Reading the table
// ---------------------------------------------------------------------------------------------

/// The next row of a table with at most `count` fields, and what follows its line break.
pub open spec fn read_line(x: Seq<char>, count: nat) -> (Seq<Seq<char>>, Seq<char>)
    decreases count,
{
    if count == 0 {
        (Seq::empty(), x)
    } else {
        let (field, rest) = read_field(x);
        if rest.len() > 0 && rest[0] == ',' {
            let (more, end) = read_line(rest.skip(1), (count - 1) as nat);
            (seq![field] + more, end)
        } else if rest.len() > 0 {
            (seq![field], rest.skip(1))
        } else {
            (seq![field], rest)
        }
    }
}

/// The next `n` rows of a table with at most `count` fields in each.
pub open spec fn read_lines(x: Seq<char>, n: nat, count: nat) -> Seq<Seq<Seq<char>>>
    decreases n,
{
    if n == 0 {
        Seq::empty()
    } else {
        let (row, rest) = read_line(x, count);
        seq![row] + read_lines(rest, (n - 1) as nat, count)
    }
}

proof fn lemma_read_line(fields: Seq<Seq<char>>, rest: Seq<char>)
    requires
        fields.len() > 0,
    ensures
        read_line(row_text(fields).push('\n') + rest, fields.len()) == (fields, rest),
    decreases fields.len(),
{
    let x = row_text(fields).push('\n') + rest;
    if fields.len() == 1 {
        law_escaping_can_be_undone(fields[0], seq!['\n'] + rest);
        assert(x =~= escaped(fields[0]) + (seq!['\n'] + rest));
        assert((seq!['\n'] + rest).skip(1) =~= rest);
        assert(seq![fields[0]] =~= fields);
    } else {
        lemma_row_first(fields);
        let tail = row_text(fields.skip(1)).push('\n') + rest;
        law_escaping_can_be_undone(fields[0], seq![','] + tail);
        assert(x =~= escaped(fields[0]) + (seq![','] + tail));
        assert((seq![','] + tail).skip(1) =~= tail);
        lemma_read_line(fields.skip(1), rest);
        assert(seq![fields[0]] + fields.skip(1) =~= fields);
    }
}

/// The lines of a table, given its rows from number `from` on.
spec fn lines_from(rows: Seq<Seq<Seq<char>>>, from: int) -> Seq<char>
    decreases rows.len() - from,
{
    if from < 0 || from >= rows.len() {
        Seq::empty()
    } else {
        row_text(rows[from]).push('\n') + lines_from(rows, from + 1)
    }
}

proof fn lemma_read_lines(rows: Seq<Seq<Seq<char>>>, from: int, count: nat)
    requires
        0 <= from <= rows.len(),
        count > 0,
        forall|i: int| 0 <= i < rows.len() ==> (#[trigger] rows[i]).len() == count,
    ensures
        read_lines(lines_from(rows, from), (rows.len() - from) as nat, count) == rows.skip(from),
    decreases rows.len() - from,
{
    if from < rows.len() {
        lemma_read_line(rows[from], lines_from(rows, from + 1));
        lemma_read_lines(rows, from + 1, count);
        assert(seq![rows[from]] + rows.skip(from + 1) =~= rows.skip(from));
    } else {
        assert(rows.skip(from) =~= Seq::empty());
    }
}

/// The rows of the table, field by field.
spec fn all_rows(root: Tree, path: Seq<char>, times: Seq<RowTimes>) -> Seq<Seq<Seq<char>>> {
    let sts = steps(whole_walk(), root, path);
    seq![fields_of(root, path, 10_000, 10_000, times_at(times, 0))] + Seq::new(
        sts.len(),
        |i: int|
            fields_of(
                sts[i].node,
                sts[i].path,
                share(sts[i].node.logical_size, sts[i].parent_logical),
                share(sts[i].node.logical_size, root.logical_size),
                times_at(times, i + 1),
            ),
    )
}

proof fn lemma_lines(root: Tree, path: Seq<char>, times: Seq<RowTimes>, n: int)
    requires
        0 <= n <= steps(whole_walk(), root, path).len(),
    ensures
        ({
            let sts = steps(whole_walk(), root, path);
            lines_of(sts.take(n), root.logical_size, times) + lines_from(all_rows(root, path, times), n + 1)
                == lines_from(all_rows(root, path, times), 1)
        }),
    decreases n,
{
    let sts = steps(whole_walk(), root, path);
    let rows = all_rows(root, path, times);
    if n == 0 {
        assert(sts.take(0) =~= Seq::empty());
        assert(lines_of(sts.take(0), root.logical_size, times) + lines_from(rows, 1) =~= lines_from(rows, 1));
    } else {
        lemma_lines(root, path, times, n - 1);
        assert(sts.take(n).drop_last() =~= sts.take(n - 1));
        assert(sts.take(n).last() == sts[n - 1]);
        let line = row_text(rows[n]).push('\n');
        assert(line == line_of(sts[n - 1], root.logical_size, times, n));
        assert(lines_of(sts.take(n), root.logical_size, times) + lines_from(rows, n + 1) =~= lines_of(
            sts.take(n - 1),
            root.logical_size,
            times,
        ) + (line + lines_from(rows, n + 1)));
    }
}

proof fn lemma_table_is_rows(root: Tree, path: Seq<char>, times: Seq<RowTimes>)
    ensures
        table_text(root, path, times) == seq!['\u{FEFF}'] + heading().push('\n') + lines_from(
            all_rows(root, path, times),
            0,
        ),
        read_lines(
            lines_from(all_rows(root, path, times), 0),
            steps(whole_walk(), root, path).len() + 1,
            16,
        ) == all_rows(root, path, times),
{
    let sts = steps(whole_walk(), root, path);
    let rows = all_rows(root, path, times);
    lemma_lines(root, path, times, sts.len() as int);
    assert(sts.take(sts.len() as int) =~= sts);
    assert(lines_from(rows, sts.len() as int + 1) =~= Seq::empty());
    let body = lines_of(sts, root.logical_size, times);
    assert(body + Seq::<char>::empty() =~= body);
    let first = row_text(rows[0]).push('\n');
    assert(lines_from(rows, 0) == first + lines_from(rows, 1));
    assert(table_text(root, path, times) =~= seq!['\u{FEFF}'] + heading().push('\n') + (first + body));
    lemma_read_lines(rows, 0, 16);
    assert(rows.skip(0) =~= rows);
}

/// A part is no larger than the whole that it is in, all the way down.
proof fn lemma_within(t: Tree, p: Seq<usize>)
    requires
        adds_up(t),
        is_on_walk(whole_walk(), t, p),
    ensures
        at_path(t, p) is Some,
        at_path(t, p.drop_last()) is Some,
        at_path(t, p.drop_last())->0.kind == NodeKind::Folder || p.len() == 1,
        at_path(t, p)->0.logical_size <= at_path(t, p.drop_last())->0.logical_size || t.kind == NodeKind::File,
        at_path(t, p)->0.logical_size <= t.logical_size || t.kind == NodeKind::File,
    decreases p.len(),
{
    let c = t.children[p[0] as int];
    if t.kind == NodeKind::Folder {
        assert(adds_up(c));
        lemma_total_remove(t.children, |c: Tree| c.logical_size as nat, p[0] as int);
    }
    if p.len() == 1 {
        reveal_with_fuel(at_path, 2);
        assert(p.skip(1) =~= Seq::empty());
        assert(p.drop_last() =~= Seq::empty());
    } else {
        lemma_within(c, p.skip(1));
        assert(p.skip(1).drop_last() =~= p.drop_last().skip(1));
        assert(p.drop_last()[0] == p[0]);
        if p.len() == 2 {
            assert(p.skip(1).drop_last() =~= Seq::empty());
        }
    }
}

/// Whether `field` shows the percentage that `part` is of `whole`, with two decimals: the hundredths
/// that it shows are within one half of 10000 times the part divided by the whole, but for a
/// billionth. Nothing has nothing but nothing in it.
pub open spec fn shows_share(field: Seq<char>, part: u64, whole: u64) -> bool {
    let h = 100 * read_decimal(field.take(field.len() - 3)) + read_decimal(field.skip(field.len() - 2));
    &&& field.len() >= 4
    &&& field[field.len() - 3] == '.'
    &&& all_digits(field.take(field.len() - 3))
    &&& all_digits(field.skip(field.len() - 2))
    &&& whole > 0 ==> {
        &&& 1_000_000_000 * ((2 * h - 1) * whole) <= 1_000_000_000 * (20_000 * part) + whole
        &&& 1_000_000_000 * (20_000 * part) <= 1_000_000_000 * ((2 * h + 1) * whole) + whole
    }
    &&& whole == 0 ==> h == 0
}

proof fn lemma_shows_share(part: u64, whole: u64)
    requires
        part <= whole,
    ensures
        shows_share(two_decimals(share(part, whole)), part, whole),
{
    law_two_decimals_read_back(share(part, whole));
    let w = if whole == 0 {
        1nat
    } else {
        whole as nat
    };
    law_share_is_part_of_whole(part as nat, w);
    if whole == 0 {
        let h = share(part, whole);
        assert(1_000_000_000 * ((2 * h - 1) * w) <= w);
        assert((2 * h - 1) * 1 == 2 * h - 1);
    }
}

/// Whether a row tells of the node `n` at the path `path`, field by field: its name, its sizes, its
/// times, what it holds, its attributes, its tag, whether NTFS keeps it for itself, and its owner.
pub open spec fn row_tells(row: Seq<Seq<char>>, n: Tree, path: Seq<char>, times: RowTimes) -> bool {
    &&& row.len() == 16
    &&& row[0] == path
    &&& row[1] == n.name
    &&& all_digits(row[4]) && read_decimal(row[4]) == n.logical_size
    &&& row[5] == shown_time(n.modified_ft, times.modified)
    &&& all_digits(row[6]) && read_decimal(row[6]) == n.physical_size
    &&& row[7] == shown_time(n.created_ft, times.created)
    &&& row[8] == shown_time(n.accessed_ft, times.accessed)
    &&& all_digits(row[9]) && all_digits(row[10]) && all_digits(row[11])
    &&& n.kind == NodeKind::Folder ==> read_decimal(row[10]) == n.file_count && read_decimal(row[11])
        == n.folder_count
    &&& n.kind == NodeKind::File ==> read_decimal(row[10]) == 0 && read_decimal(row[11]) == 0
    &&& read_decimal(row[9]) == read_decimal(row[10]) + read_decimal(row[11])
    &&& row[12] == attributes_text(n.attributes)
    &&& n.reparse_tag == 0 ==> row[13].len() == 0
    &&& n.reparse_tag != 0 ==> row[13].len() > 2 && row[13][0] == '0' && row[13][1] == 'x' && read_hex(
        row[13].skip(2),
    ) == n.reparse_tag
    &&& n.is_reserved == (row[14].len() > 0)
    &&& row[15] == n.owner
}

/// A time as it is shown: one that is not known is left out.
pub open spec fn shown_time(ft: u64, local: Option<LocalTime>) -> Seq<char> {
    if ft > 0 {
        local_text(ft as nat, local)
    } else {
        Seq::empty()
    }
}

proof fn lemma_row_tells(t: Tree, path: Seq<char>, of_parent: nat, of_all: nat, times: RowTimes)
    ensures
        row_tells(fields_of(t, path, of_parent, of_all, times), t, path, times),
{
    law_decimals_read_back(t.logical_size as nat);
    law_decimals_read_back(t.physical_size as nat);
    law_decimals_read_back((t.file_count + t.folder_count) as nat);
    law_decimals_read_back(t.file_count as nat);
    law_decimals_read_back(t.folder_count as nat);
    law_decimals_read_back(0);
    law_hex_reads_back(t.reparse_tag as nat);
    reveal_strlit("0x");
    reveal_strlit("是");
    assert(("0x"@ + hex_upper(t.reparse_tag as nat)).skip(2) =~= hex_upper(t.reparse_tag as nat));
}

/// Whether a row below the top tells of the node at `p`, the names on the way to it, and its shares:
/// the first of the folder that directly holds it, the second of everything.
pub open spec fn row_is_of(row: Seq<Seq<char>>, root: Tree, path: Seq<char>, p: Seq<usize>, times: RowTimes) -> bool {
    &&& p.len() > 0
    &&& at_path(root, p) matches Some(n) && {
        &&& row_tells(row, n, way_spelled(root, path, p), times)
        &&& at_path(root, p.drop_last()) matches Some(folder) && {
            &&& shows_share(row[2], n.logical_size, folder.logical_size)
            &&& shows_share(row[3], n.logical_size, root.logical_size)
        }
    }
}

/// What a reader finds in the table, behind the mark and the heading: first a row that tells of the
/// top, which is all of itself; then a row for each place below the top, from top to bottom, none left
/// out and none twice. Each row tells of the node in its place, with the share of the folder that
/// directly holds it and its share of everything, both rounded to two decimals of a percent. `places`
/// says which row is of which place.
pub proof fn law_table_tells_the_tree(root: Tree, path: Seq<char>, times: Seq<RowTimes>) -> (r: (
    Seq<char>,
    Seq<Seq<usize>>,
))
    requires
        adds_up(root),
        machine_sized(root),
    ensures
        ({
            let (body, places) = r;
            let rows = read_lines(body, places.len() + 1, 16);
            &&& table_text(root, path, times) == seq!['\u{FEFF}']
                + "路径,名称,父占比(%),总占比(%),逻辑大小,修改时间,物理大小,创建时间,访问时间,项目,文件,文件夹,属性,重解析点,保留,所有者"@
                + seq!['\n'] + body
            &&& rows.len() == places.len() + 1
            &&& row_tells(rows[0], root, path, times_at(times, 0))
            &&& rows[0][2] == "100.00"@ && rows[0][3] == "100.00"@
            &&& forall|k: int|
                0 <= k < places.len() ==> row_is_of(
                    #[trigger] rows[k + 1],
                    root,
                    path,
                    places[k],
                    times_at(times, k + 1),
                )
            &&& forall|p: Seq<usize>| #[trigger]
                places.contains(p) <==> is_on_walk(WalkRule { open_only: false, with_reserved: true }, root, p)
            &&& forall|k: int, l: int|
                0 <= k < l < places.len() ==> stands_above(#[trigger] places[k], #[trigger] places[l])
        }),
{
    let rule = whole_walk();
    let sts = steps(rule, root, path);
    let rows = all_rows(root, path, times);
    let body = lines_from(rows, 0);
    let places = Seq::new(sts.len(), |k: int| sts[k].at);
    lemma_table_is_rows(root, path, times);
    assert(table_text(root, path, times) =~= seq!['\u{FEFF}'] + heading() + seq!['\n'] + body);
    lemma_row_tells(root, path, 10_000, 10_000, times_at(times, 0));
    lemma_two_decimals_of_the_whole();
    law_every_step_knows_its_folder(rule, root, path);
    law_walk_goes_from_top_to_bottom(rule, root, path);
    law_walk_comes_by_nothing_else(rule, root, path);
    assert forall|k: int| 0 <= k < places.len() implies row_is_of(
        #[trigger] rows[k + 1],
        root,
        path,
        places[k],
        times_at(times, k + 1),
    ) by {
        let s = sts[k];
        assert(knows_its_folder(root, path, s));
        assert(is_on_walk(rule, root, s.at));
        lemma_row_tells(
            s.node,
            s.path,
            share(s.node.logical_size, s.parent_logical),
            share(s.node.logical_size, root.logical_size),
            times_at(times, k + 1),
        );
        if root.kind == NodeKind::File {
            assert(root.children.len() == 0);
            assert(false);
        }
        lemma_within(root, s.at);
        lemma_shows_share(s.node.logical_size, s.parent_logical);
        lemma_shows_share(s.node.logical_size, root.logical_size);
    }
    assert forall|p: Seq<usize>| #[trigger] places.contains(p) <==> is_on_walk(rule, root, p) by {
        if is_on_walk(rule, root, p) {
            law_walk_comes_by_everything_shown(rule, root, path, p);
            let k = choose|k: int| 0 <= k < sts.len() && (#[trigger] sts[k]).at == p;
            assert(places[k] == p);
        }
        if places.contains(p) {
            let k = choose|k: int| 0 <= k < places.len() && places[k] == p;
            assert(is_on_walk(rule, root, sts[k].at));
        }
    }
    (body, places)
}

/// Everything is all of itself.
proof fn lemma_two_decimals_of_the_whole()
    ensures
        two_decimals(10_000) == "100.00"@,
{
    reveal_strlit("100.00");
    reveal_with_fuel(decimal, 4);
    assert(two_decimals(10_000) =~= "100.00"@);
}

} // verus!
