//! Spot checks: whether the sizes that a scan found are those that the file system gives.
use vstd::prelude::*;
use rand::seq::SliceRandom;

use crate::decimals::{quotient, rounded, Precision};
use crate::disk_info::used_bytes;
use crate::text::{owned, push_decimal, push_hundredths};

verus! {

use crate::decimals::{float_of, quotient_hundredths};
use crate::disk_info::used_of;
use crate::text::{decimal, two_decimals};

/// What a spot check came to.
pub struct SpotCheckReport {
    pub sample_count: usize,
    /// The files whose sizes differ: path, size found by the scan, size given by the file system.
    pub mismatches: Vec<(String, u64, u64)>,
    /// How many files the file system said nothing of.
    pub unreadable: usize,
    pub disk_total: Option<u64>,
    pub disk_used: Option<u64>,
    pub scanned_total: u64,
}

/// A file whose sizes differ.
pub struct Mismatch {
    pub path: Seq<char>,
    pub found: u64,
    pub given: u64,
}

pub open spec fn mismatches_of(v: Seq<(String, u64, u64)>) -> Seq<Mismatch> {
    v.map_values(|m: (String, u64, u64)| Mismatch { path: m.0@, found: m.1, given: m.2 })
}

impl SpotCheckReport {
    /// Whether no size differed.
    pub fn all_matched(&self) -> (r: bool)
        ensures
            r == (mismatches_of(self.mismatches@).len() == 0),
    {
        self.mismatches.len() == 0
    }
}

// ---------------------------------------------------------------------------------------------
// The sample
// ---------------------------------------------------------------------------------------------

/// `rand::seq::SliceRandom::shuffle` with `rand::thread_rng`: the numbers are put into some order
/// that chance decides; none is lost and none is added.
#[verifier::external_body]
fn shuffle(v: &mut Vec<usize>)
    ensures
        final(v)@.to_multiset() == old(v)@.to_multiset(),
{
    v.shuffle(&mut rand::thread_rng());
}

/// The numbers below `n`.
pub open spec fn below(n: nat) -> Seq<usize> {
    Seq::new(n, |i: int| i as usize)
}

/// The numbers of the files to look at, picked at random: as many as asked for, or all if there are
/// not so many, and none twice.
pub fn pick_sample(files: usize, sample_count: usize) -> (r: Vec<usize>)
    ensures
        r@.len() == if sample_count <= files {
            sample_count
        } else {
            files
        },
        r@.no_duplicates(),
        forall|k: int| 0 <= k < r@.len() ==> (#[trigger] r@[k]) < files,
{
    let mut v: Vec<usize> = Vec::new();
    let mut i: usize = 0;
    while i < files
        invariant
            i <= files,
            v@ =~= below(i as nat),
        decreases files - i,
    {
        v.push(i);
        i = i + 1;
    }
    let ghost all = v@;
    shuffle(&mut v);
    proof {
        broadcast use vstd::seq_lib::group_to_multiset_ensures;

        assert(all.no_duplicates());
        all.lemma_multiset_has_no_duplicates();
        v@.lemma_multiset_has_no_duplicates_conv();
        assert(v@.len() == v@.to_multiset().len());
        assert forall|k: int| 0 <= k < v@.len() implies (#[trigger] v@[k]) < files by {
            assert(v@.contains(v@[k]));
            assert(v@.to_multiset().count(v@[k]) > 0);
            assert(all.contains(v@[k]));
        }
    }
    let ghost mixed = v@;
    let mut out: Vec<usize> = Vec::new();
    let mut k: usize = 0;
    while k < v.len() && k < sample_count
        invariant
            k <= v@.len(),
            k <= sample_count,
            v@ == mixed,
            out@ =~= mixed.take(k as int),
        decreases v@.len() - k,
    {
        out.push(v[k]);
        k = k + 1;
    }
    out
}

// ---------------------------------------------------------------------------------------------
// The comparison
// ---------------------------------------------------------------------------------------------

/// What the file system says of file number `k` of the sample.
pub open spec fn answer(answers: Seq<Option<u64>>, k: int) -> Option<u64> {
    if 0 <= k < answers.len() {
        answers[k]
    } else {
        None
    }
}

/// The files among the first `n` of the sample whose sizes differ.
pub open spec fn differing(
    paths: Seq<String>,
    sizes: Seq<u64>,
    sample: Seq<usize>,
    answers: Seq<Option<u64>>,
    n: int,
) -> Seq<Mismatch>
    decreases n,
{
    if n <= 0 {
        Seq::empty()
    } else {
        let before = differing(paths, sizes, sample, answers, n - 1);
        let i = sample[n - 1] as int;
        match answer(answers, n - 1) {
            Some(given) => if given != sizes[i] {
                before.push(Mismatch { path: paths[i]@, found: sizes[i], given })
            } else {
                before
            },
            None => before,
        }
    }
}

/// How many of the first `n` files of the sample the file system said nothing of.
pub open spec fn silent(answers: Seq<Option<u64>>, n: int) -> nat
    decreases n,
{
    if n <= 0 {
        0
    } else {
        silent(answers, n - 1) + if answer(answers, n - 1) is None {
            1nat
        } else {
            0
        }
    }
}

/// Compares the sizes that the scan found for the files of the sample with what the file system
/// says of them: `answers`, in the order of the sample. `space` is the total and the free room of
/// the disk, if known.
pub fn spot_check(
    file_paths: &Vec<String>,
    mft_sizes: &Vec<u64>,
    scanned_total: u64,
    sample: &Vec<usize>,
    answers: &Vec<Option<u64>>,
    space: Option<(u64, u64)>,
) -> (r: SpotCheckReport)
    requires
        forall|k: int|
            0 <= k < sample@.len() ==> (#[trigger] sample@[k]) < file_paths@.len() && sample@[k] < mft_sizes@.len(),
    ensures
        r.sample_count == sample@.len(),
        mismatches_of(r.mismatches@) == differing(
            file_paths@,
            mft_sizes@,
            sample@,
            answers@,
            sample@.len() as int,
        ),
        r.unreadable == silent(answers@, sample@.len() as int),
        r.disk_total == match space {
            Some((total, free)) => Some(total),
            None => None,
        },
        r.disk_used == match space {
            Some((total, free)) => Some(used_of(total, free)),
            None => None,
        },
        r.scanned_total == scanned_total,
        r.mismatches@.len() + r.unreadable <= r.sample_count,
{
    let mut mismatches: Vec<(String, u64, u64)> = Vec::new();
    let mut unreadable: usize = 0;
    let mut k: usize = 0;
    assert(mismatches_of(mismatches@) =~= Seq::empty());
    while k < sample.len()
        invariant
            k <= sample@.len(),
            forall|x: int|
                0 <= x < sample@.len() ==> (#[trigger] sample@[x]) < file_paths@.len() && sample@[x]
                    < mft_sizes@.len(),
            mismatches_of(mismatches@) == differing(file_paths@, mft_sizes@, sample@, answers@, k as int),
            unreadable == silent(answers@, k as int),
            mismatches@.len() + unreadable <= k,
        decreases sample@.len() - k,
    {
        let i: usize = sample[k];
        let given: Option<u64> = if k < answers.len() {
            answers[k]
        } else {
            None
        };
        match given {
            Some(size) => {
                if size != mft_sizes[i] {
                    let ghost before = mismatches@;
                    mismatches.push((file_paths[i].clone(), mft_sizes[i], size));
                    assert(mismatches_of(mismatches@) =~= mismatches_of(before).push(
                        Mismatch { path: file_paths@[i as int]@, found: mft_sizes@[i as int], given: size },
                    ));
                }
            },
            None => {
                unreadable = unreadable + 1;
            },
        }
        k = k + 1;
    }
    let (disk_total, disk_used) = match space {
        Some((total, free)) => (Some(total), Some(used_bytes(total, free))),
        None => (None, None),
    };
    SpotCheckReport {
        sample_count: sample.len(),
        mismatches,
        unreadable,
        disk_total,
        disk_used,
        scanned_total,
    }
}

// ---------------------------------------------------------------------------------------------
// The report
// ---------------------------------------------------------------------------------------------

/// A number of bytes in units of a billion, with two decimals.
pub open spec fn billions(bytes: u64) -> Seq<char> {
    two_decimals(quotient_hundredths(float_of(bytes as nat, Precision::Double), 1_000_000_000, Precision::Double))
}

fn push_billions(out: &mut String, bytes: u64)
    ensures
        final(out)@ == old(out)@ + billions(bytes),
{
    let h: u128 = quotient(rounded(bytes as u128, Precision::Double), 1_000_000_000, Precision::Double);
    push_hundredths(out, h);
}

/// How many mismatches are listed at most.
pub const SHOWN_MISMATCHES: usize = 10;

/// The lines for the first `n` mismatches.
pub open spec fn mismatch_lines(ms: Seq<Mismatch>, n: int) -> Seq<char>
    decreases n,
{
    if n <= 0 {
        Seq::empty()
    } else {
        let m = ms[n - 1];
        mismatch_lines(ms, n - 1) + "  不一致: "@ + m.path + " | MFT="@ + decimal(m.found as nat) + " FS="@ + decimal(
            m.given as nat,
        ) + "\n"@
    }
}

/// The lines about the disk, where its room is known.
pub open spec fn disk_lines(total: Option<u64>, used: Option<u64>, scanned: u64) -> Seq<char> {
    match (total, used) {
        (Some(t), Some(u)) => "系统报告总容量 "@ + billions(t) + " GB，已用 "@ + billions(u)
            + " GB；扫描汇总（文件逻辑大小之和）"@ + billions(scanned) + " GB。\n"@
            + "注：扫描汇总天然会略小于“已用空间”，因为不含簇内部碎片、NTFS 元数据、卷影副本等，这是预期差异。\n"@,
        _ => Seq::empty(),
    }
}

/// The report for the user.
pub open spec fn report_text(r: SpotCheckReport) -> Seq<char> {
    let ms = mismatches_of(r.mismatches@);
    "抽测 "@ + decimal(r.sample_count as nat) + " 个文件："@ + decimal(
        (r.sample_count - ms.len() - r.unreadable) as nat,
    ) + " 个大小一致，"@ + decimal(ms.len()) + " 个不一致，"@ + decimal(r.unreadable as nat)
        + " 个当时无法用传统 API 读取（竞态/权限，视为噪声）。\n"@ + mismatch_lines(
        ms,
        if ms.len() <= SHOWN_MISMATCHES {
            ms.len() as int
        } else {
            SHOWN_MISMATCHES as int
        },
    ) + disk_lines(r.disk_total, r.disk_used, r.scanned_total)
}

/// The report for the user.
pub fn format_report(r: &SpotCheckReport) -> (s: String)
    requires
        r.mismatches@.len() + r.unreadable <= r.sample_count,
    ensures
        s@ == report_text(*r),
{
    let ghost ms = mismatches_of(r.mismatches@);
    let mut s = owned("抽测 ");
    push_decimal(&mut s, r.sample_count as u64);
    s.append(" 个文件：");
    push_decimal(&mut s, (r.sample_count - r.mismatches.len() - r.unreadable) as u64);
    s.append(" 个大小一致，");
    push_decimal(&mut s, r.mismatches.len() as u64);
    s.append(" 个不一致，");
    push_decimal(&mut s, r.unreadable as u64);
    s.append(" 个当时无法用传统 API 读取（竞态/权限，视为噪声）。\n");
    let ghost head = s@;
    let mut i: usize = 0;
    while i < r.mismatches.len() && i < SHOWN_MISMATCHES
        invariant
            i <= r.mismatches@.len(),
            i <= SHOWN_MISMATCHES,
            ms == mismatches_of(r.mismatches@),
            s@ =~= head + mismatch_lines(ms, i as int),
        decreases r.mismatches@.len() - i,
    {
        let m = &r.mismatches[i];
        s.append("  不一致: ");
        s.append(m.0.as_str());
        s.append(" | MFT=");
        push_decimal(&mut s, m.1);
        s.append(" FS=");
        push_decimal(&mut s, m.2);
        s.append("\n");
        i = i + 1;
    }
    let ghost listed = s@;
    match (r.disk_total, r.disk_used) {
        (Some(total), Some(used)) => {
            s.append("系统报告总容量 ");
            push_billions(&mut s, total);
            s.append(" GB，已用 ");
            push_billions(&mut s, used);
            s.append(" GB；扫描汇总（文件逻辑大小之和）");
            push_billions(&mut s, r.scanned_total);
            s.append(" GB。\n");
            s.append(
                "注：扫描汇总天然会略小于“已用空间”，因为不含簇内部碎片、NTFS 元数据、卷影副本等，这是预期差异。\n",
            );
        },
        _ => {},
    }
    assert(s@ =~= listed + disk_lines(r.disk_total, r.disk_used, r.scanned_total));
    assert(s@ =~= report_text(*r));
    s
}

/// A file of the sample is listed as differing if and only if the file system gave another size than
/// the scan found; each is listed with both sizes. Together with those of which the file system said
/// nothing they are no more than the sample.
pub proof fn law_every_difference_is_listed(
    paths: Seq<String>,
    sizes: Seq<u64>,
    sample: Seq<usize>,
    answers: Seq<Option<u64>>,
    n: int,
)
    requires
        0 <= n <= sample.len(),
        answers.len() == sample.len(),
    ensures
        ({
            let ms = differing(paths, sizes, sample, answers, n);
            &&& forall|k: int|
                0 <= k < n && (#[trigger] answers[k]) is Some && answers[k]->0 != sizes[sample[k] as int] ==> ms.contains(
                    Mismatch {
                        path: paths[sample[k] as int]@,
                        found: sizes[sample[k] as int],
                        given: answers[k]->0,
                    },
                )
            &&& forall|m: int| 0 <= m < ms.len() ==> (#[trigger] ms[m]).found != ms[m].given
            &&& ms.len() + silent(answers, n) <= n
            &&& (forall|k: int|
                0 <= k < n ==> (#[trigger] answers[k]) is Some && answers[k]->0 == sizes[sample[k] as int]) ==> ms.len() == 0
        }),
    decreases n,
{
    if n > 0 {
        law_every_difference_is_listed(paths, sizes, sample, answers, n - 1);
        let before = differing(paths, sizes, sample, answers, n - 1);
        let now = differing(paths, sizes, sample, answers, n);
        assert forall|k: int|
            0 <= k < n && (#[trigger] answers[k]) is Some && answers[k]->0 != sizes[sample[k] as int] implies now.contains(
            Mismatch { path: paths[sample[k] as int]@, found: sizes[sample[k] as int], given: answers[k]->0 },
        ) by {
            let m = Mismatch { path: paths[sample[k] as int]@, found: sizes[sample[k] as int], given: answers[k]->0 };
            if k < n - 1 {
                let x = choose|x: int| 0 <= x < before.len() && before[x] == m;
                assert(now[x] == m);
            } else {
                assert(now[before.len() as int] == m);
            }
        }
        assert(answers[n - 1] is Some || answers[n - 1] is None);
    }
}


/// Whether a text begins with another.
pub open spec fn begins_with(s: Seq<char>, head: Seq<char>) -> bool {
    head.len() <= s.len() && s.take(head.len() as int) == head
}

/// The numbers in the report add up: files that agree, files that do not and files that could not be
/// read are all that were tried.
pub proof fn law_reported_numbers_add_up(r: SpotCheckReport, agreeing: nat)
    requires
        agreeing + r.mismatches@.len() + r.unreadable == r.sample_count,
    ensures
        begins_with(
            report_text(r),
            "抽测 "@ + decimal(r.sample_count as nat) + " 个文件："@ + decimal(agreeing) + " 个大小一致，"@ + decimal(
                r.mismatches@.len(),
            ) + " 个不一致，"@ + decimal(r.unreadable as nat),
        ),
{
    let ms = mismatches_of(r.mismatches@);
    assert(ms.len() == r.mismatches@.len());
    let head = "抽测 "@ + decimal(r.sample_count as nat) + " 个文件："@ + decimal(agreeing) + " 个大小一致，"@ + decimal(
        r.mismatches@.len(),
    ) + " 个不一致，"@ + decimal(r.unreadable as nat);
    assert((r.sample_count - ms.len() - r.unreadable) as nat == agreeing);
    assert(report_text(r).take(head.len() as int) =~= head);
}

/// Each listed difference ends the list so far with its path, what the table said and what the file
/// system says.
pub proof fn law_listed_differences_tell_both_sizes(ms: Seq<Mismatch>, n: int, k: int)
    requires
        0 <= k < n,
    ensures
        begins_with(
            mismatch_lines(ms, n),
            mismatch_lines(ms, k) + ("  不一致: "@ + ms[k].path + " | MFT="@ + decimal(ms[k].found as nat) + " FS="@
                + decimal(ms[k].given as nat) + "\n"@),
        ),
    decreases n,
{
    let head = mismatch_lines(ms, k) + ("  不一致: "@ + ms[k].path + " | MFT="@ + decimal(ms[k].found as nat)
        + " FS="@ + decimal(ms[k].given as nat) + "\n"@);
    let all = mismatch_lines(ms, n);
    if k == n - 1 {
        assert(all =~= head);
        assert(all.take(head.len() as int) =~= head);
    } else {
        law_listed_differences_tell_both_sizes(ms, n - 1, k);
        assert(all.take(head.len() as int) =~= mismatch_lines(ms, n - 1).take(head.len() as int));
    }
}

} // verus!
