//! Choosing what to scan.
use vstd::prelude::*;

use crate::disk_info::drive_root_of;
use crate::text::{owned, same_text};

verus! {

use crate::disk_info::{drive_root, texts};
use crate::model::opt_text;
use crate::tables::with_item;

/// What is chosen so far.
pub struct PickerState {
    /// The drives that there are, each with its label if it has one.
    pub available_drives: Vec<(char, Option<String>)>,
    /// The drives that are chosen, in order.
    pub selected_drives: Vec<char>,
    /// The directories that were added.
    pub custom_paths: Vec<String>,
}

/// What the user decided.
#[derive(Debug, Clone, Copy, PartialEq, Eq, Structural)]
pub enum PickerAction {
    Nothing,
    Confirm,
    Cancel,
}

/// Whether letters go up, so that none is there twice.
pub open spec fn go_up(s: Seq<char>) -> bool {
    forall|a: int, b: int| 0 <= a < b < s.len() ==> #[trigger] s[a] < #[trigger] s[b]
}

impl PickerState {
    pub open spec fn well_formed(&self) -> bool {
        &&& go_up(self.selected_drives@)
        &&& texts(self.custom_paths@).no_duplicates()
    }

    /// Nothing is chosen yet.
    pub fn new(available_drives: Vec<(char, Option<String>)>) -> (s: Self)
        ensures
            s.well_formed(),
            s.available_drives == available_drives,
            s.selected_drives@ == Seq::<char>::empty(),
            s.custom_paths@ == Seq::<String>::empty(),
    {
        PickerState { available_drives, selected_drives: Vec::new(), custom_paths: Vec::new() }
    }

    /// Whether anything is chosen.
    pub fn has_selection(&self) -> (r: bool)
        ensures
            r == (self.selected_drives@.len() > 0 || self.custom_paths@.len() > 0),
    {
        self.selected_drives.len() > 0 || self.custom_paths.len() > 0
    }

    /// Chooses a drive, or no longer chooses it.
    pub fn choose_drive(&mut self, letter: char, chosen: bool)
        requires
            old(self).well_formed(),
        ensures
            final(self).well_formed(),
            final(self).available_drives == old(self).available_drives,
            final(self).custom_paths == old(self).custom_paths,
            forall|c: char| #[trigger]
                final(self).selected_drives@.contains(c) == if c == letter {
                    chosen
                } else {
                    old(self).selected_drives@.contains(c)
                },
    {
        let ghost was = self.selected_drives@;
        let mut out: Vec<char> = Vec::new();
        let mut placed = false;
        let mut i: usize = 0;
        while i < self.selected_drives.len()
            invariant
                i <= self.selected_drives@.len(),
                was == self.selected_drives@,
                self.available_drives == old(self).available_drives,
                self.custom_paths == old(self).custom_paths,
                go_up(was),
                go_up(out@),
                out@.len() > 0 && i < was.len() ==> out@.last() < was[i as int],
                placed ==> chosen && out@.contains(letter),
                !placed && chosen ==> forall|k: int| 0 <= k < out@.len() ==> #[trigger] out@[k] < letter,
                !chosen ==> !placed,
                forall|c: char| #[trigger]
                    out@.contains(c) ==> (c == letter && chosen) || (c != letter && was.contains(c)),
                forall|k: int| 0 <= k < i && was[k] != letter ==> out@.contains(#[trigger] was[k]),
            decreases self.selected_drives@.len() - i,
        {
            let c: char = self.selected_drives[i];
            assert(was.contains(c));
            let ghost before = out@;
            if chosen && !placed && letter <= c {
                out.push(letter);
                placed = true;
                proof {
                    assert(out@.last() == letter);
                    assert(out@[out@.len() - 1] == letter);
                    lemma_push_contains(before, letter);
                }
            }
            let ghost mid = out@;
            if c != letter {
                out.push(c);
                proof {
                    lemma_push_contains(mid, c);
                    assert(out@[out@.len() - 1] == c);
                }
            }
            i = i + 1;
        }
        if chosen && !placed {
            let ghost before = out@;
            out.push(letter);
            proof {
                lemma_push_contains(before, letter);
                assert(out@[out@.len() - 1] == letter);
            }
        }
        proof {
            assert forall|c: char| #[trigger]
                out@.contains(c) == if c == letter {
                    chosen
                } else {
                    was.contains(c)
                } by {
                if c != letter && was.contains(c) {
                    let k = choose|k: int| 0 <= k < was.len() && was[k] == c;
                    assert(out@.contains(was[k]));
                }
            }
        }
        self.selected_drives = out;
    }

    /// Adds a directory, unless it is there.
    pub fn add_path(&mut self, path: String)
        requires
            old(self).well_formed(),
        ensures
            final(self).well_formed(),
            final(self).available_drives == old(self).available_drives,
            final(self).selected_drives == old(self).selected_drives,
            texts(final(self).custom_paths@) == with_item(texts(old(self).custom_paths@), path@),
    {
        let ghost was = texts(self.custom_paths@);
        let mut i: usize = 0;
        while i < self.custom_paths.len()
            invariant
                i <= self.custom_paths@.len(),
                was == texts(self.custom_paths@),
                *self == *old(self),
                self.well_formed(),
                forall|k: int| 0 <= k < i ==> #[trigger] was[k] != path@,
            decreases self.custom_paths@.len() - i,
        {
            if same_text(self.custom_paths[i].as_str(), path.as_str()) {
                assert(was[i as int] == path@);
                assert(was.contains(path@));
                return;
            }
            i = i + 1;
        }
        self.custom_paths.push(path);
        assert(texts(self.custom_paths@) =~= was.push(path@));
    }

    /// Takes a directory out again.
    pub fn remove_path(&mut self, i: usize)
        requires
            old(self).well_formed(),
            i < old(self).custom_paths@.len(),
        ensures
            final(self).well_formed(),
            final(self).available_drives == old(self).available_drives,
            final(self).selected_drives == old(self).selected_drives,
            final(self).custom_paths@ == old(self).custom_paths@.remove(i as int),
    {
        let ghost was = self.custom_paths@;
        let _ = self.custom_paths.remove(i);
        proof {
            assert(texts(self.custom_paths@) =~= texts(was).remove(i as int));
            assert forall|a: int, b: int|
                0 <= a < texts(self.custom_paths@).len() && 0 <= b < texts(self.custom_paths@).len() && a
                    != b implies texts(self.custom_paths@)[a] != texts(self.custom_paths@)[b] by {
                let x = if a < i { a } else { a + 1 };
                let y = if b < i { b } else { b + 1 };
                assert(texts(was)[x] != texts(was)[y]);
            }
        }
    }
}

/// What the entry of a drive reads: its label, or words for a drive without one, and its letter.
pub open spec fn drive_entry(letter: char, label: Option<Seq<char>>) -> Seq<char> {
    (match label {
        Some(l) => l,
        None => "本地磁盘"@,
    }) + " ("@.push(letter) + ":)"@
}

/// What the entry of a drive reads.
pub fn drive_text(letter: char, label: &Option<String>) -> (r: String)
    ensures
        r@ == drive_entry(letter, opt_text(*label)),
{
    let mut out = match label {
        Some(l) => l.clone(),
        None => owned("本地磁盘"),
    };
    out.append(" (");
    out.push(letter);
    out.append(":)");
    assert(out@ =~= drive_entry(letter, opt_text(*label)));
    out
}

/// The paths to scan: the chosen drives in the order of their letters, then the directories that
/// were added.
pub open spec fn scan_paths(drives: Seq<char>, custom: Seq<Seq<char>>) -> Seq<Seq<char>> {
    drives.map_values(|c: char| drive_root(c)) + custom
}

/// The paths to scan.
pub fn build_scan_paths(picker: &PickerState) -> (r: Vec<String>)
    ensures
        texts(r@) == scan_paths(picker.selected_drives@, texts(picker.custom_paths@)),
{
    let mut out: Vec<String> = Vec::new();
    let ghost roots = picker.selected_drives@.map_values(|c: char| drive_root(c));
    let mut i: usize = 0;
    while i < picker.selected_drives.len()
        invariant
            i <= picker.selected_drives@.len(),
            roots == picker.selected_drives@.map_values(|c: char| drive_root(c)),
            texts(out@) =~= roots.take(i as int),
        decreases picker.selected_drives@.len() - i,
    {
        let root = drive_root_of(picker.selected_drives[i]);
        let ghost before = texts(out@);
        out.push(root);
        assert(texts(out@) =~= before.push(root@));
        i = i + 1;
    }
    let mut k: usize = 0;
    assert(roots.take(i as int) =~= roots);
    while k < picker.custom_paths.len()
        invariant
            k <= picker.custom_paths@.len(),
            texts(out@) =~= roots + texts(picker.custom_paths@).take(k as int),
        decreases picker.custom_paths@.len() - k,
    {
        let path = picker.custom_paths[k].clone();
        let ghost before = texts(out@);
        out.push(path);
        assert(texts(out@) =~= before.push(path@));
        k = k + 1;
    }
    assert(texts(picker.custom_paths@).take(k as int) =~= texts(picker.custom_paths@));
    out
}

/// No path is scanned twice because a drive was chosen twice: different drives have different roots.
pub proof fn law_chosen_drives_are_scanned_once(drives: Seq<char>, a: int, b: int)
    requires
        go_up(drives),
        0 <= a < b < drives.len(),
    ensures
        scan_paths(drives, Seq::empty())[a] != scan_paths(drives, Seq::empty())[b],
{
    assert(drive_root(drives[a])[0] == drives[a]);
    assert(drive_root(drives[b])[0] == drives[b]);
}

proof fn lemma_push_contains(s: Seq<char>, x: char)
    ensures
        forall|c: char| #[trigger] s.push(x).contains(c) <==> s.contains(c) || c == x,
{
    assert forall|c: char| #[trigger] s.push(x).contains(c) <==> s.contains(c) || c == x by {
        if s.contains(c) {
            let k = choose|k: int| 0 <= k < s.len() && s[k] == c;
            assert(s.push(x)[k] == c);
        }
        if c == x {
            assert(s.push(x)[s.len() as int] == x);
        }
    }
}

} // verus!
