//! From the records of a volume to its tree.
//!
//! The tree is built with a stack of its own, so its depth is no concern. A directory that leads
//! back to itself would never end: it is noticed, because a way down that meets no directory twice
//! is no longer than the number of listings.
use vstd::prelude::*;
use std::collections::HashSet;

use crate::mft_scan::{
    FileRecordBase, FileRecordName, NtfsContext, FILE_ATTRIBUTE_DIRECTORY, NTFS_RESERVED_MAX,
};
#[allow(unused_imports)]
use crate::mft_scan::{listing, unknown_file, Listed, Volume};
use crate::model::{totals_fit, Node};
#[allow(unused_imports)]
use crate::mft_record::gathered;
#[allow(unused_imports)]
use crate::model::{
    adds_up, at_path, file_of, folder_of, is_rearrangement, law_new_folder_adds_up,
    law_new_folder_puts_larger_children_first, physical_total, sums_fit, trees, NodeKind, Tree,
};
#[allow(unused_imports)]
use crate::palette::{file_color, folder_color};
#[allow(unused_imports)]
use crate::palette::{file_color_of, folder_color_at};

verus! {

broadcast use vstd::std_specs::hash::group_hash_axioms;

/// Why a tree could not be built.
#[derive(Clone, Copy, PartialEq, Eq, Debug, Structural)]
pub enum TreeError {
    /// A directory leads back to itself.
    EndlessDirectory,
    /// The sizes in a directory add up to more than 64 bits can hold.
    SizesTooLarge,
}

/// What is known of a file of which a directory lists a name.
pub open spec fn known_file(v: Volume, record: u64) -> FileRecordBase {
    if v.files.contains_key(record) {
        v.files[record]
    } else {
        unknown_file()
    }
}

/// The names listed in a directory.
pub open spec fn names_in(v: Volume, record: u64) -> Seq<Listed> {
    if v.listings.contains_key(record) {
        v.listings[record]
    } else {
        Seq::empty()
    }
}

/// Whether a file is a directory.
pub open spec fn is_directory(b: FileRecordBase) -> bool {
    b.attributes & FILE_ATTRIBUTE_DIRECTORY != 0
}

/// The file that `e` names. The room of a file with several names counts where it is met first.
pub open spec fn listed_file(v: Volume, e: Listed, counted: Set<u64>) -> Tree {
    let b = known_file(v, e.base_record);
    file_of(
        e.name,
        b.logical_size,
        if counted.contains(e.base_record) {
            0
        } else {
            b.physical_size
        },
        file_color_of(),
        b.last_modified_ft,
        b.created_ft,
        b.accessed_ft,
        b.attributes,
        b.reparse_tag,
        e.base_record < NTFS_RESERVED_MAX,
        Seq::empty(),
    )
}

/// The folder that directory `record` makes of `ch`.
pub open spec fn directory_of(b: FileRecordBase, record: u64, name: Seq<char>, depth: nat, ch: Seq<Tree>) -> Tree {
    folder_of(
        name,
        folder_color_at(depth),
        ch,
        b.last_modified_ft,
        b.created_ft,
        b.accessed_ft,
        b.attributes,
        b.reparse_tag,
        record < NTFS_RESERVED_MAX,
        Seq::empty(),
    )
}

/// The tree of directory `record`, and the files whose room is then counted. `fuel` bounds how many
/// directories may follow on the way down.
pub open spec fn tree_of(
    v: Volume,
    b: FileRecordBase,
    record: u64,
    name: Seq<char>,
    depth: nat,
    counted: Set<u64>,
    fuel: nat,
) -> Result<(Tree, Set<u64>), TreeError>
    decreases fuel, names_in(v, record).len() + 1,
{
    match trees_of(v, names_in(v, record), 0, Seq::empty(), depth, counted, fuel) {
        Ok((ch, after)) => if sums_fit(ch) {
            Ok((directory_of(b, record, name, depth, ch), after))
        } else {
            Err(TreeError::SizesTooLarge)
        },
        Err(e) => Err(e),
    }
}

/// The trees of the names from `k` on, behind those in `done`, and the files whose room is then
/// counted.
pub open spec fn trees_of(
    v: Volume,
    names: Seq<Listed>,
    k: nat,
    done: Seq<Tree>,
    depth: nat,
    counted: Set<u64>,
    fuel: nat,
) -> Result<(Seq<Tree>, Set<u64>), TreeError>
    decreases fuel, names.len() - k,
{
    if k >= names.len() {
        Ok((done, counted))
    } else {
        let e = names[k as int];
        if is_directory(known_file(v, e.base_record)) {
            if fuel == 0 {
                Err(TreeError::EndlessDirectory)
            } else {
                match tree_of(
                    v,
                    known_file(v, e.base_record),
                    e.base_record,
                    e.name,
                    depth + 1,
                    counted,
                    (fuel - 1) as nat,
                ) {
                    Ok((t, after)) => trees_of(v, names, k + 1, done.push(t), depth, after, fuel),
                    Err(e) => Err(e),
                }
            }
        } else {
            trees_of(
                v,
                names,
                k + 1,
                done.push(listed_file(v, e, counted)),
                depth,
                counted.insert(e.base_record),
                fuel,
            )
        }
    }
}

/// What is known of the top of the tree; a record that was never seen is taken to be a directory.
pub open spec fn known_top(v: Volume, record: u64) -> FileRecordBase {
    if v.files.contains_key(record) {
        v.files[record]
    } else {
        FileRecordBase { attributes: FILE_ATTRIBUTE_DIRECTORY, ..unknown_file() }
    }
}

/// The tree below `record`, under the name `name`.
pub open spec fn volume_tree(v: Volume, record: u64, name: Seq<char>) -> Result<Tree, TreeError> {
    let b = known_top(v, record);
    if is_directory(b) {
        match tree_of(v, b, record, name, 0, Set::empty(), v.listings.dom().len()) {
            Ok((t, after)) => Ok(t),
            Err(e) => Err(e),
        }
    } else {
        Ok(listed_file_as(b, record, name))
    }
}

/// A file as the top of a tree.
pub open spec fn listed_file_as(b: FileRecordBase, record: u64, name: Seq<char>) -> Tree {
    file_of(
        name,
        b.logical_size,
        b.physical_size,
        file_color_of(),
        b.last_modified_ft,
        b.created_ft,
        b.accessed_ft,
        b.attributes,
        b.reparse_tag,
        record < NTFS_RESERVED_MAX,
        Seq::empty(),
    )
}

/// A directory whose children are being collected.
struct Frame {
    base: FileRecordBase,
    record: u64,
    name: String,
    next: usize,
    children: Vec<Node>,
}

ghost struct FrameModel {
    base: FileRecordBase,
    record: u64,
    name: Seq<char>,
    next: nat,
    children: Seq<Tree>,
}

impl View for Frame {
    type V = FrameModel;

    closed spec fn view(&self) -> FrameModel {
        FrameModel {
            base: self.base,
            record: self.record,
            name: self.name@,
            next: self.next as nat,
            children: trees(self.children@),
        }
    }
}

spec fn models(frames: Seq<Frame>) -> Seq<FrameModel> {
    Seq::new(frames.len(), |i: int| frames[i]@)
}

/// What comes of the frames: the last one is finished, handed to the one before it, and so on.
spec fn outcome(v: Volume, frames: Seq<FrameModel>, counted: Set<u64>, fuel: nat) -> Result<Tree, TreeError>
    decreases frames.len(),
{
    if frames.len() == 0 {
        arbitrary()
    } else {
        let f = frames.last();
        let depth = (frames.len() - 1) as nat;
        match trees_of(v, names_in(v, f.record), f.next, f.children, depth, counted, (fuel - depth) as nat) {
            Ok((ch, after)) => if sums_fit(ch) {
                let t = directory_of(f.base, f.record, f.name, depth, ch);
                if frames.len() == 1 {
                    Ok(t)
                } else {
                    outcome(v, handed_up(frames.drop_last(), t), after, fuel)
                }
            } else {
                Err(TreeError::SizesTooLarge)
            },
            Err(e) => Err(e),
        }
    }
}

/// The frames with `t` given to the last one.
spec fn handed_up(frames: Seq<FrameModel>, t: Tree) -> Seq<FrameModel> {
    let f = frames.last();
    frames.update(frames.len() - 1, FrameModel { children: f.children.push(t), ..f })
}

/// How much is to be done for the names from `k` on.
spec fn work(v: Volume, names: Seq<Listed>, k: nat, fuel: nat) -> nat
    decreases fuel, names.len() - k,
{
    if k >= names.len() {
        0
    } else {
        let e = names[k as int];
        (if is_directory(known_file(v, e.base_record)) && fuel > 0 {
            2 + work(v, names_in(v, e.base_record), 0, (fuel - 1) as nat)
        } else {
            1
        }) + work(v, names, k + 1, fuel)
    }
}

/// How much is to be done for the frames.
spec fn work_left(v: Volume, frames: Seq<FrameModel>, fuel: nat) -> nat
    decreases frames.len(),
{
    if frames.len() == 0 {
        0
    } else {
        let f = frames.last();
        1 + work(v, names_in(v, f.record), f.next, (fuel - (frames.len() - 1)) as nat) + work_left(
            v,
            frames.drop_last(),
            fuel,
        )
    }
}

fn file_known(ctx: &NtfsContext, record: u64) -> (b: FileRecordBase)
    ensures
        b == known_file(ctx@, record),
{
    match ctx.base_file_records.get(&record) {
        Some(b) => *b,
        None => FileRecordBase::default(),
    }
}

/// The name at position `k` in the listing of a directory.
fn name_at(ctx: &NtfsContext, record: u64, k: usize) -> (res: Option<(String, u64)>)
    ensures
        match res {
            Some((name, base)) => k < usize::MAX && k < names_in(ctx@, record).len() && names_in(ctx@, record)[k as int] == (
            Listed { name: name@, base_record: base }),
            None => k >= names_in(ctx@, record).len(),
        },
{
    match ctx.parent_to_children.get(&record) {
        Some(names) => {
            assert(names_in(ctx@, record) =~= listing(names@));
            if k < names.len() {
                let e: &FileRecordName = &names[k];
                Some((e.name.clone(), e.base_record))
            } else {
                None
            }
        },
        None => None,
    }
}

/// Builds the tree below `record`, under the name `display_name`.
pub fn build_tree(ctx: &NtfsContext, record: u64, display_name: &str) -> (res: Result<Node, TreeError>)
    ensures
        match res {
            Ok(n) => volume_tree(ctx@, record, display_name@) == Ok::<Tree, TreeError>(n@),
            Err(e) => volume_tree(ctx@, record, display_name@) == Err::<Tree, TreeError>(e),
        },
{
    let top: FileRecordBase = match ctx.base_file_records.get(&record) {
        Some(b) => *b,
        None => FileRecordBase { attributes: FILE_ATTRIBUTE_DIRECTORY, ..FileRecordBase::default() },
    };
    assert(top == known_top(ctx@, record));
    if top.attributes & FILE_ATTRIBUTE_DIRECTORY == 0 {
        return Ok(
            Node::new_file_with_meta(
                display_name.to_owned(),
                top.logical_size,
                top.physical_size,
                file_color(),
                top.last_modified_ft,
                top.created_ft,
                top.accessed_ft,
                top.attributes,
                top.reparse_tag,
                record < NTFS_RESERVED_MAX,
                String::new(),
            ),
        );
    }
    let fuel: usize = ctx.parent_to_children.len();
    let ghost v = ctx@;
    assert(v.listings.dom() =~= ctx.parent_to_children@.dom());
    let mut counted: HashSet<u64> = HashSet::new();
    let mut frames: Vec<Frame> = Vec::new();
    frames.push(Frame { base: top, record, name: display_name.to_owned(), next: 0, children: Vec::new() });
    let ghost goal = volume_tree(v, record, display_name@);
    proof {
        let fs = models(frames@);
        assert(fs.last().children =~= Seq::<Tree>::empty());
        assert(counted@ =~= Set::<u64>::empty());
        assert(outcome(v, fs, counted@, fuel as nat) == goal);
    }
    loop
        invariant
            v == ctx@,
            0 < frames@.len() <= fuel + 1,
            outcome(v, models(frames@), counted@, fuel as nat) == goal,
            goal == volume_tree(v, record, display_name@),
        decreases work_left(v, models(frames@), fuel as nat),
    {
        let ghost before = models(frames@);
        let ghost counted0 = counted@;
        let last: usize = frames.len() - 1;
        let ghost f = before.last();
        let ghost room = (fuel - last) as nat;
        let dir: u64 = frames[last].record;
        let k: usize = frames[last].next;
        match name_at(ctx, dir, k) {
            Some((name, base_record)) => {
                let ghost e = Listed { name: name@, base_record };
                let b: FileRecordBase = file_known(ctx, base_record);
                if b.attributes & FILE_ATTRIBUTE_DIRECTORY != 0 {
                    if last == fuel {
                        return Err(TreeError::EndlessDirectory);
                    }
                    frames[last].next = k + 1;
                    frames.push(Frame { base: b, record: base_record, name, next: 0, children: Vec::new() });
                    proof {
                        let after = models(frames@);
                        let parent = FrameModel { next: f.next + 1, ..f };
                        assert(after.last().children =~= Seq::<Tree>::empty());
                        assert(after.drop_last() =~= before.drop_last().push(parent));
                        lemma_down(v, before, counted0, fuel as nat, after.last());
                        assert(after =~= before.drop_last().push(parent).push(after.last()));
                    }
                } else {
                    let first: bool = counted.insert(base_record);
                    let physical: u64 = if first {
                        b.physical_size
                    } else {
                        0
                    };
                    let file = Node::new_file_with_meta(
                        name,
                        b.logical_size,
                        physical,
                        file_color(),
                        b.last_modified_ft,
                        b.created_ft,
                        b.accessed_ft,
                        b.attributes,
                        b.reparse_tag,
                        base_record < NTFS_RESERVED_MAX,
                        String::new(),
                    );
                    let ghost t = file@;
                    assert(t == listed_file(v, e, counted0));
                    frames[last].next = k + 1;
                    frames[last].children.push(file);
                    proof {
                        let after = models(frames@);
                        let g = FrameModel { next: f.next + 1, children: f.children.push(t), ..f };
                        assert(after.last().children =~= f.children.push(t));
                        assert(after.last() == g);
                        assert(after.drop_last() =~= before.drop_last());
                        let names = names_in(v, f.record);
                        assert(work(v, names, f.next, room) == 1 + work(v, names, f.next + 1, room));
                    }
                }
            },
            None => {
                if !totals_fit(&frames[last].children) {
                    return Err(TreeError::SizesTooLarge);
                }
                match frames.pop() {
                    Some(done) => {
                        let node = Node::new_folder_with_meta(
                            done.name,
                            folder_color(last),
                            done.children,
                            done.base.last_modified_ft,
                            done.base.created_ft,
                            done.base.accessed_ft,
                            done.base.attributes,
                            done.base.reparse_tag,
                            done.record < NTFS_RESERVED_MAX,
                            String::new(),
                        );
                        if last == 0 {
                            return Ok(node);
                        }
                        let ghost t = node@;
                        let ghost rest = models(frames@);
                        assert(rest =~= before.drop_last());
                        let up: usize = last - 1;
                        let ghost had = frames@[up as int].children@;
                        frames[up].children.push(node);
                        proof {
                            assert(trees(had.push(node)) =~= trees(had).push(t));
                            assert(models(frames@) =~= handed_up(rest, t));
                            assert(models(frames@).drop_last() =~= rest.drop_last());
                            assert(work_left(v, models(frames@), fuel as nat) == work_left(v, rest, fuel as nat));
                            assert(work_left(v, before, fuel as nat) == 1 + work_left(v, rest, fuel as nat));
                        }
                    },
                    None => {
                        assert(false);
                    },
                }
            },
        }
    }
}

/// Going down into a directory: what comes of the frames stays the same, and less is left to do.
proof fn lemma_down(v: Volume, before: Seq<FrameModel>, counted: Set<u64>, fuel: nat, new: FrameModel)
    requires
        0 < before.len() <= fuel,
        before.last().next < names_in(v, before.last().record).len(),
        ({
            let e = names_in(v, before.last().record)[before.last().next as int];
            &&& is_directory(known_file(v, e.base_record))
            &&& new == (FrameModel {
                base: known_file(v, e.base_record),
                record: e.base_record,
                name: e.name,
                next: 0,
                children: Seq::empty(),
            })
        }),
    ensures
        ({
            let f = before.last();
            let after = before.drop_last().push(FrameModel { next: f.next + 1, ..f }).push(new);
            &&& outcome(v, after, counted, fuel) == outcome(v, before, counted, fuel)
            &&& work_left(v, after, fuel) < work_left(v, before, fuel)
        }),
{
    let f = before.last();
    let parent = FrameModel { next: f.next + 1, ..f };
    let mid = before.drop_last().push(parent);
    let after = mid.push(new);
    assert(after.drop_last() =~= mid);
    assert(mid.drop_last() =~= before.drop_last());
    let depth = (before.len() - 1) as nat;
    let room = (fuel - depth) as nat;
    let names = names_in(v, f.record);
    let inner = work(v, names_in(v, new.record), 0, (room - 1) as nat);
    assert(work(v, names, f.next, room) == 2 + inner + work(v, names, f.next + 1, room));
    assert(work_left(v, mid, fuel) == 1 + work(v, names, f.next + 1, room) + work_left(
        v,
        before.drop_last(),
        fuel,
    ));
    assert(work_left(v, after, fuel) == 1 + inner + work_left(v, mid, fuel));
    match tree_of(v, new.base, new.record, new.name, depth + 1, counted, (room - 1) as nat) {
        Ok((t, done)) => {
            let up = handed_up(mid, t);
            assert(up.drop_last() =~= before.drop_last());
            assert(up.last() == (FrameModel { next: f.next + 1, children: f.children.push(t), ..f }));
            assert(outcome(v, after, counted, fuel) == outcome(v, up, done, fuel));
        },
        Err(e) => {},
    }
}

// ---------------------------------------------------------------------------------------------
// What holds of every tree built
// ---------------------------------------------------------------------------------------------

/// Whether no listing is longer than a machine can number.
pub open spec fn listings_fit(v: Volume) -> bool {
    forall|d: u64| #[trigger] v.listings.contains_key(d) ==> v.listings[d].len() <= usize::MAX
}

/// The sizes and counts of a tree that was built add up, all the way down.
pub proof fn law_built_tree_adds_up(v: Volume, record: u64, name: Seq<char>)
    requires
        listings_fit(v),
        volume_tree(v, record, name) is Ok,
    ensures
        adds_up(volume_tree(v, record, name)->Ok_0),
{
    let b = known_top(v, record);
    if is_directory(b) {
        lemma_tree_adds_up(v, b, record, name, 0, Set::empty(), v.listings.dom().len());
    }
}

proof fn lemma_tree_adds_up(
    v: Volume,
    b: FileRecordBase,
    record: u64,
    name: Seq<char>,
    depth: nat,
    counted: Set<u64>,
    fuel: nat,
)
    requires
        listings_fit(v),
        tree_of(v, b, record, name, depth, counted, fuel) is Ok,
    ensures
        adds_up(tree_of(v, b, record, name, depth, counted, fuel)->Ok_0.0),
    decreases fuel, names_in(v, record).len() + 1,
{
    let names = names_in(v, record);
    lemma_trees_add_up(v, names, 0, Seq::empty(), depth, counted, fuel);
    let ch = trees_of(v, names, 0, Seq::empty(), depth, counted, fuel)->Ok_0.0;
    law_new_folder_adds_up(
        name,
        folder_color_at(depth),
        ch,
        b.last_modified_ft,
        b.created_ft,
        b.accessed_ft,
        b.attributes,
        b.reparse_tag,
        record < NTFS_RESERVED_MAX,
        Seq::empty(),
    );
}

proof fn lemma_trees_add_up(
    v: Volume,
    names: Seq<Listed>,
    k: nat,
    done: Seq<Tree>,
    depth: nat,
    counted: Set<u64>,
    fuel: nat,
)
    requires
        listings_fit(v),
        k <= names.len(),
        done.len() == k,
        forall|i: int| 0 <= i < done.len() ==> adds_up(#[trigger] done[i]),
        trees_of(v, names, k, done, depth, counted, fuel) is Ok,
    ensures
        ({
            let ch = trees_of(v, names, k, done, depth, counted, fuel)->Ok_0.0;
            &&& ch.len() == names.len()
            &&& forall|i: int| 0 <= i < ch.len() ==> adds_up(#[trigger] ch[i])
        }),
    decreases fuel, names.len() - k,
{
    if k < names.len() {
        let e = names[k as int];
        if is_directory(known_file(v, e.base_record)) {
            lemma_tree_adds_up(
                v,
                known_file(v, e.base_record),
                e.base_record,
                e.name,
                depth + 1,
                counted,
                (fuel - 1) as nat,
            );
            let (t, after) = tree_of(
                v,
                known_file(v, e.base_record),
                e.base_record,
                e.name,
                depth + 1,
                counted,
                (fuel - 1) as nat,
            )->Ok_0;
            lemma_trees_add_up(v, names, k + 1, done.push(t), depth, after, fuel);
        } else {
            let t = listed_file(v, e, counted);
            assert(adds_up(t));
            lemma_trees_add_up(
                v,
                names,
                k + 1,
                done.push(t),
                depth,
                counted.insert(e.base_record),
                fuel,
            );
        }
    }
}

/// The room that the files in `s` take up on disk.
pub open spec fn room_of(v: Volume, s: Set<u64>) -> nat
    decreases s.len(),
{
    if s.finite() && s.len() > 0 {
        let r = s.choose();
        known_file(v, r).physical_size as nat + room_of(v, s.remove(r))
    } else {
        0
    }
}

proof fn lemma_room_of_remove(v: Volume, s: Set<u64>, r: u64)
    requires
        s.finite(),
        s.contains(r),
    ensures
        room_of(v, s) == known_file(v, r).physical_size + room_of(v, s.remove(r)),
    decreases s.len(),
{
    let c = s.choose();
    if c != r {
        lemma_room_of_remove(v, s.remove(c), r);
        lemma_room_of_remove(v, s.remove(r), c);
        assert(s.remove(c).remove(r) =~= s.remove(r).remove(c));
    }
}

proof fn lemma_room_of_insert(v: Volume, s: Set<u64>, r: u64)
    requires
        s.finite(),
    ensures
        s.insert(r).finite(),
        room_of(v, s.insert(r)) == room_of(v, s) + if s.contains(r) {
            0
        } else {
            known_file(v, r).physical_size
        },
{
    if s.contains(r) {
        assert(s.insert(r) =~= s);
    } else {
        lemma_room_of_remove(v, s.insert(r), r);
        assert(s.insert(r).remove(r) =~= s);
    }
}

/// Whether directory `b` is listed in directory `a`.
pub open spec fn leads_to(v: Volume, a: u64, b: u64) -> bool {
    is_directory(known_file(v, b)) && exists|i: int|
        0 <= i < names_in(v, a).len() && (#[trigger] names_in(v, a)[i]).base_record == b
}

/// Whether each directory of `s` is listed in the one before it.
pub open spec fn is_way_down(v: Volume, s: Seq<u64>) -> bool {
    forall|i: int| 0 <= i < s.len() - 1 ==> leads_to(v, #[trigger] s[i], s[i + 1])
}

/// Whether directory `d` is met below directory `record`, or is that directory.
pub open spec fn is_reached(v: Volume, record: u64, d: u64) -> bool {
    exists|s: Seq<u64>| #[trigger] is_way_down(v, s) && s.len() > 0 && s[0] == record && s.last() == d
}

/// Whether `r` is no directory and has a name in directory `d`.
pub open spec fn is_file_in(v: Volume, d: u64, r: u64) -> bool {
    !is_directory(known_file(v, r)) && exists|i: int|
        0 <= i < names_in(v, d).len() && (#[trigger] names_in(v, d)[i]).base_record == r
}

/// Whether `r` is a file that has a name in directory `record` or in one below it.
pub open spec fn is_file_below(v: Volume, record: u64, r: u64) -> bool {
    exists|d: u64| #[trigger] is_reached(v, record, d) && is_file_in(v, d, r)
}

/// Whether file `r` is what `e` names, or is below it.
spec fn is_at_or_below(v: Volume, e: Listed, r: u64) -> bool {
    if is_directory(known_file(v, e.base_record)) {
        is_file_below(v, e.base_record, r)
    } else {
        e.base_record == r
    }
}

/// Whether file `r` comes of one of the names from `k` on.
spec fn is_among(v: Volume, names: Seq<Listed>, k: nat, r: u64) -> bool {
    exists|i: int| k <= i < names.len() && is_at_or_below(v, #[trigger] names[i], r)
}

/// The files in and below a directory are those that come of its names.
proof fn lemma_below_is_among(v: Volume, record: u64, r: u64)
    ensures
        is_file_below(v, record, r) == is_among(v, names_in(v, record), 0, r),
{
    let names = names_in(v, record);
    if is_file_below(v, record, r) {
        let d = choose|d: u64| #[trigger] is_reached(v, record, d) && is_file_in(v, d, r);
        let s = choose|s: Seq<u64>| #[trigger] is_way_down(v, s) && s.len() > 0 && s[0] == record && s.last() == d;
        if s.len() == 1 {
            let i = choose|i: int| 0 <= i < names.len() && (#[trigger] names[i]).base_record == r;
            assert(is_at_or_below(v, names[i], r));
        } else {
            assert(leads_to(v, s[0], s[1]));
            let i = choose|i: int| 0 <= i < names.len() && (#[trigger] names[i]).base_record == s[1];
            let rest = s.skip(1);
            assert forall|j: int| 0 <= j < rest.len() - 1 implies leads_to(v, #[trigger] rest[j], rest[j + 1]) by {
                assert(leads_to(v, s[j + 1], s[j + 2]));
            }
            assert(is_way_down(v, rest));
            assert(is_reached(v, s[1], d));
            assert(is_at_or_below(v, names[i], r));
        }
    }
    if is_among(v, names, 0, r) {
        let i = choose|i: int| 0 <= i < names.len() && is_at_or_below(v, #[trigger] names[i], r);
        let e = names[i];
        if is_directory(known_file(v, e.base_record)) {
            let d = choose|d: u64| #[trigger] is_reached(v, e.base_record, d) && is_file_in(v, d, r);
            let rest = choose|s: Seq<u64>| #[trigger]
                is_way_down(v, s) && s.len() > 0 && s[0] == e.base_record && s.last() == d;
            let s = seq![record] + rest;
            assert(leads_to(v, record, e.base_record));
            assert forall|j: int| 0 <= j < s.len() - 1 implies leads_to(v, #[trigger] s[j], s[j + 1]) by {
                if j > 0 {
                    assert(s[j] == rest[j - 1]);
                    assert(leads_to(v, rest[j - 1], rest[j]));
                }
            }
            assert(is_way_down(v, s));
            assert(s.last() == d);
            assert(is_reached(v, record, d));
        } else {
            let s = seq![record];
            assert(is_way_down(v, s));
            assert(s.last() == record);
            assert(is_reached(v, record, record));
            assert(is_file_in(v, record, r));
        }
    }
}

/// The files counted in a tree are those in and below its directory.
proof fn lemma_tree_files(
    v: Volume,
    b: FileRecordBase,
    record: u64,
    name: Seq<char>,
    depth: nat,
    counted: Set<u64>,
    fuel: nat,
    r: u64,
)
    requires
        tree_of(v, b, record, name, depth, counted, fuel) is Ok,
    ensures
        tree_of(v, b, record, name, depth, counted, fuel)->Ok_0.1.contains(r) == (counted.contains(r)
            || is_file_below(v, record, r)),
    decreases fuel, names_in(v, record).len() + 1,
{
    lemma_trees_files(v, names_in(v, record), 0, Seq::empty(), depth, counted, fuel, r);
    lemma_below_is_among(v, record, r);
}

proof fn lemma_trees_files(
    v: Volume,
    names: Seq<Listed>,
    k: nat,
    done: Seq<Tree>,
    depth: nat,
    counted: Set<u64>,
    fuel: nat,
    r: u64,
)
    requires
        trees_of(v, names, k, done, depth, counted, fuel) is Ok,
    ensures
        trees_of(v, names, k, done, depth, counted, fuel)->Ok_0.1.contains(r) == (counted.contains(r)
            || is_among(v, names, k, r)),
    decreases fuel, names.len() - k,
{
    if k < names.len() {
        let e = names[k as int];
        assert(is_among(v, names, k, r) == (is_at_or_below(v, e, r) || is_among(v, names, k + 1, r))) by {
            if is_among(v, names, k, r) && !is_at_or_below(v, e, r) {
                let i = choose|i: int| k <= i < names.len() && is_at_or_below(v, #[trigger] names[i], r);
                assert(i >= k + 1);
            }
            if is_among(v, names, k + 1, r) {
                let i = choose|i: int| k + 1 <= i < names.len() && is_at_or_below(v, #[trigger] names[i], r);
                assert(is_at_or_below(v, names[i], r));
            }
        }
        if is_directory(known_file(v, e.base_record)) {
            let b = known_file(v, e.base_record);
            lemma_tree_files(v, b, e.base_record, e.name, depth + 1, counted, (fuel - 1) as nat, r);
            let (t, after) = tree_of(v, b, e.base_record, e.name, depth + 1, counted, (fuel - 1) as nat)->Ok_0;
            lemma_trees_files(v, names, k + 1, done.push(t), depth, after, fuel, r);
        } else {
            let t = listed_file(v, e, counted);
            lemma_trees_files(v, names, k + 1, done.push(t), depth, counted.insert(e.base_record), fuel, r);
        }
    }
}

/// Hard links: however many names a file has, the room of a tree counts it once. The physical size
/// of the whole tree is the room of the different files listed in it: those that are no directories
/// and have a name in the top directory or in one that is reached from it.
pub proof fn law_room_counts_each_file_once(v: Volume, record: u64, name: Seq<char>)
    requires
        is_directory(known_top(v, record)),
        volume_tree(v, record, name) is Ok,
    ensures
        ({
            let fuel = v.listings.dom().len();
            let (t, files) = tree_of(v, known_top(v, record), record, name, 0, Set::empty(), fuel)->Ok_0;
            &&& volume_tree(v, record, name) == Ok::<Tree, TreeError>(t)
            &&& files.finite()
            &&& t.physical_size == room_of(v, files)
            &&& forall|r: u64| #[trigger] files.contains(r) <==> is_file_below(v, record, r)
        }),
{
    let b = known_top(v, record);
    let fuel = v.listings.dom().len();
    let files = tree_of(v, b, record, name, 0, Set::empty(), fuel)->Ok_0.1;
    assert forall|r: u64| #[trigger] files.contains(r) <==> is_file_below(v, record, r) by {
        lemma_tree_files(v, b, record, name, 0, Set::empty(), fuel, r);
    }
    lemma_tree_room(v, b, record, name, 0, Set::empty(), fuel);
    assert(room_of(v, Set::empty()) == 0);
}

proof fn lemma_tree_room(
    v: Volume,
    b: FileRecordBase,
    record: u64,
    name: Seq<char>,
    depth: nat,
    counted: Set<u64>,
    fuel: nat,
)
    requires
        counted.finite(),
        tree_of(v, b, record, name, depth, counted, fuel) is Ok,
    ensures
        ({
            let (t, after) = tree_of(v, b, record, name, depth, counted, fuel)->Ok_0;
            &&& after.finite()
            &&& t.physical_size + room_of(v, counted) == room_of(v, after)
        }),
    decreases fuel, names_in(v, record).len() + 1,
{
    lemma_trees_room(v, names_in(v, record), 0, Seq::empty(), depth, counted, fuel);
}

proof fn lemma_trees_room(
    v: Volume,
    names: Seq<Listed>,
    k: nat,
    done: Seq<Tree>,
    depth: nat,
    counted: Set<u64>,
    fuel: nat,
)
    requires
        counted.finite(),
        trees_of(v, names, k, done, depth, counted, fuel) is Ok,
    ensures
        ({
            let (ch, after) = trees_of(v, names, k, done, depth, counted, fuel)->Ok_0;
            &&& after.finite()
            &&& physical_total(ch) + room_of(v, counted) == physical_total(done) + room_of(v, after)
        }),
    decreases fuel, names.len() - k,
{
    if k < names.len() {
        let e = names[k as int];
        if is_directory(known_file(v, e.base_record)) {
            let b = known_file(v, e.base_record);
            lemma_tree_room(v, b, e.base_record, e.name, depth + 1, counted, (fuel - 1) as nat);
            let (t, after) = tree_of(v, b, e.base_record, e.name, depth + 1, counted, (fuel - 1) as nat)->Ok_0;
            assert(done.push(t).drop_last() =~= done);
            lemma_trees_room(v, names, k + 1, done.push(t), depth, after, fuel);
        } else {
            let t = listed_file(v, e, counted);
            assert(done.push(t).drop_last() =~= done);
            lemma_room_of_insert(v, counted, e.base_record);
            lemma_trees_room(v, names, k + 1, done.push(t), depth, counted.insert(e.base_record), fuel);
        }
    }
}

/// A tree is refused as endless only if some way down from its top meets a directory twice.
pub proof fn law_endless_only_if_a_directory_returns(v: Volume, record: u64, name: Seq<char>)
    requires
        v.listings.dom().finite(),
        volume_tree(v, record, name) == Err::<Tree, TreeError>(TreeError::EndlessDirectory),
    ensures
        exists|s: Seq<u64>, i: int, j: int|
            #![trigger s[i], s[j]]
            is_way_down(v, s) && s.len() > 0 && s[0] == record && 0 <= i < j < s.len() && s[i] == s[j],
{
    let fuel = v.listings.dom().len();
    let s = lemma_long_way(v, known_top(v, record), record, name, 0, Set::empty(), fuel);
    // All but the last directory of the way have a listing, and they are more than there are
    // listings.
    let front = s.take(fuel as int + 1);
    assert forall|i: int| 0 <= i < front.len() implies v.listings.dom().contains(#[trigger] front[i]) by {
        assert(leads_to(v, s[i], s[i + 1]));
    }
    if front.no_duplicates() {
        front.unique_seq_to_set();
        assert(front.to_set().subset_of(v.listings.dom()));
        vstd::set_lib::lemma_len_subset(front.to_set(), v.listings.dom());
        assert(false);
    }
    let (i, j) = choose|i: int, j: int|
        0 <= i < front.len() && 0 <= j < front.len() && i != j && front[i] == front[j];
    let lo = if i < j { i } else { j };
    let hi = if i < j { j } else { i };
    assert(s[lo] == s[hi]);
}

/// A tree refused as endless has a way down of `fuel` and one more directories below its top.
proof fn lemma_long_way(
    v: Volume,
    b: FileRecordBase,
    record: u64,
    name: Seq<char>,
    depth: nat,
    counted: Set<u64>,
    fuel: nat,
) -> (s: Seq<u64>)
    requires
        tree_of(v, b, record, name, depth, counted, fuel) == Err::<(Tree, Set<u64>), TreeError>(
            TreeError::EndlessDirectory,
        ),
    ensures
        is_way_down(v, s),
        s.len() == fuel + 2,
        s[0] == record,
    decreases fuel, names_in(v, record).len() + 1,
{
    lemma_long_way_below(v, record, 0, Seq::empty(), depth, counted, fuel)
}

proof fn lemma_long_way_below(
    v: Volume,
    record: u64,
    k: nat,
    done: Seq<Tree>,
    depth: nat,
    counted: Set<u64>,
    fuel: nat,
) -> (s: Seq<u64>)
    requires
        k <= names_in(v, record).len(),
        trees_of(v, names_in(v, record), k, done, depth, counted, fuel) == Err::<
            (Seq<Tree>, Set<u64>),
            TreeError,
        >(TreeError::EndlessDirectory),
    ensures
        is_way_down(v, s),
        s.len() == fuel + 2,
        s[0] == record,
    decreases fuel, names_in(v, record).len() - k,
{
    let names = names_in(v, record);
    let e = names[k as int];
    if is_directory(known_file(v, e.base_record)) {
        assert(leads_to(v, record, e.base_record));
        if fuel == 0 {
            seq![record, e.base_record]
        } else {
            let b = known_file(v, e.base_record);
            match tree_of(v, b, e.base_record, e.name, depth + 1, counted, (fuel - 1) as nat) {
                Ok((t, after)) => lemma_long_way_below(v, record, k + 1, done.push(t), depth, after, fuel),
                Err(err) => {
                    let rest = lemma_long_way(
                        v,
                        b,
                        e.base_record,
                        e.name,
                        depth + 1,
                        counted,
                        (fuel - 1) as nat,
                    );
                    let s = seq![record] + rest;
                    assert forall|i: int| 0 <= i < s.len() - 1 implies leads_to(v, #[trigger] s[i], s[i + 1]) by {
                        if i > 0 {
                            assert(s[i] == rest[i - 1]);
                            assert(leads_to(v, rest[i - 1], rest[i - 1 + 1]));
                        }
                    }
                    s
                },
            }
        }
    } else {
        lemma_long_way_below(
            v,
            record,
            k + 1,
            done.push(listed_file(v, e, counted)),
            depth,
            counted.insert(e.base_record),
            fuel,
        )
    }
}

// ---------------------------------------------------------------------------------------------
// What the nodes of a tree tell
// ---------------------------------------------------------------------------------------------

/// Whether file `number` is marked as a directory on the volume.
pub open spec fn marked_as_directory(v: Volume, number: u64) -> bool {
    gathered(v, number).attributes / 0x10 % 2 == 1
}

/// Whether `n` tells what the volume knows of the file that `e` names: its sizes, its three times, its
/// attributes and its tag. A file that has several names takes up its room under one of them.
pub open spec fn tells_file(v: Volume, e: Listed, n: Tree) -> bool {
    let b = gathered(v, e.base_record);
    &&& n.kind == NodeKind::File
    &&& n.name == e.name
    &&& n.logical_size == b.logical_size
    &&& n.size == b.logical_size
    &&& n.physical_size == b.physical_size || n.physical_size == 0
    &&& n.modified_ft == b.last_modified_ft
    &&& n.created_ft == b.created_ft
    &&& n.accessed_ft == b.accessed_ft
    &&& b.attributes != 0 ==> n.attributes == b.attributes
    &&& b.attributes == 0 ==> n.attributes == 0x80
    &&& n.reparse_tag == b.reparse_tag
    &&& n.is_reserved == (e.base_record < 16)
    &&& n.children.len() == 0
}

/// Whether `n` tells what the volume knows of the directory that `e` names. A directory is modified
/// whenever something in it is.
pub open spec fn tells_directory(v: Volume, e: Listed, n: Tree) -> bool {
    let b = gathered(v, e.base_record);
    &&& n.kind == NodeKind::Folder
    &&& n.name == e.name
    &&& n.modified_ft >= b.last_modified_ft
    &&& n.created_ft == b.created_ft
    &&& n.accessed_ft == b.accessed_ft
    &&& n.attributes == b.attributes
    &&& n.reparse_tag == b.reparse_tag
    &&& n.is_reserved == (e.base_record < 16)
}

/// Whether `n` tells of what `e` names, and of everything below that.
pub open spec fn tells_all_of(v: Volume, e: Listed, n: Tree) -> bool
    decreases n, 1nat,
{
    if marked_as_directory(v, e.base_record) {
        tells_directory(v, e, n) && tells_all_in(v, e.base_record, n)
    } else {
        tells_file(v, e, n)
    }
}

/// The names that the volume lists under directory `record`.
pub open spec fn told_names(v: Volume, record: u64) -> Seq<Listed> {
    match v.listings.get(record) {
        Some(names) => names,
        None => Seq::empty(),
    }
}

/// Whether the children of `t` are the names that directory `record` lists, each of them once, and
/// each child tells of its name and of everything below that.
pub open spec fn tells_all_in(v: Volume, record: u64, t: Tree) -> bool
    decreases t, 0nat,
{
    let names = told_names(v, record);
    exists|o: Seq<usize>| #[trigger]
        is_rearrangement(o, names.len()) && t.children.len() == names.len() && forall|i: int|
            #![trigger t.children[i]]
            0 <= i < t.children.len() ==> tells_all_of(v, names[o[i] as int], t.children[i])
}

proof fn lemma_directory_mark(v: Volume, number: u64)
    ensures
        known_file(v, number) == gathered(v, number),
        is_directory(known_file(v, number)) == marked_as_directory(v, number),
{
    let a = known_file(v, number).attributes;
    assert((a & 0x10 != 0) == (a / 0x10 % 2 == 1)) by (bit_vector);
}

proof fn lemma_tree_tells(
    v: Volume,
    b: FileRecordBase,
    record: u64,
    name: Seq<char>,
    depth: nat,
    counted: Set<u64>,
    fuel: nat,
)
    requires
        listings_fit(v),
        tree_of(v, b, record, name, depth, counted, fuel) is Ok,
    ensures
        tells_all_in(v, record, tree_of(v, b, record, name, depth, counted, fuel)->Ok_0.0),
    decreases fuel, names_in(v, record).len() + 1,
{
    let names = names_in(v, record);
    assert(told_names(v, record) == names);
    lemma_trees_tell(v, names, 0, Seq::empty(), depth, counted, fuel);
    let ch = trees_of(v, names, 0, Seq::empty(), depth, counted, fuel)->Ok_0.0;
    let t = tree_of(v, b, record, name, depth, counted, fuel)->Ok_0.0;
    let o = law_new_folder_puts_larger_children_first(
        name,
        folder_color_at(depth),
        ch,
        b.last_modified_ft,
        b.created_ft,
        b.accessed_ft,
        b.attributes,
        b.reparse_tag,
        record < NTFS_RESERVED_MAX,
        Seq::empty(),
    );
    assert(is_rearrangement(o, names.len()));
    assert forall|i: int| #![trigger t.children[i]] 0 <= i < t.children.len() implies tells_all_of(
        v,
        names[o[i] as int],
        t.children[i],
    ) by {
        assert(tells_all_of(v, names[o[i] as int], ch[o[i] as int]));
    }
}

proof fn lemma_trees_tell(
    v: Volume,
    names: Seq<Listed>,
    k: nat,
    done: Seq<Tree>,
    depth: nat,
    counted: Set<u64>,
    fuel: nat,
)
    requires
        listings_fit(v),
        k <= names.len(),
        done.len() == k,
        forall|i: int| 0 <= i < k ==> tells_all_of(v, names[i], #[trigger] done[i]),
        trees_of(v, names, k, done, depth, counted, fuel) is Ok,
    ensures
        ({
            let ch = trees_of(v, names, k, done, depth, counted, fuel)->Ok_0.0;
            &&& ch.len() == names.len()
            &&& forall|i: int| 0 <= i < names.len() ==> tells_all_of(v, names[i], #[trigger] ch[i])
        }),
    decreases fuel, names.len() - k,
{
    if k < names.len() {
        let e = names[k as int];
        let b = known_file(v, e.base_record);
        lemma_directory_mark(v, e.base_record);
        if is_directory(b) {
            lemma_tree_tells(v, b, e.base_record, e.name, depth + 1, counted, (fuel - 1) as nat);
            let (t, after) = tree_of(v, b, e.base_record, e.name, depth + 1, counted, (fuel - 1) as nat)->Ok_0;
            assert(b.attributes != 0) by {
                assert(0u32 / 0x10 % 2 == 0);
            }
            assert(tells_directory(v, e, t));
            assert(tells_all_of(v, e, t));
            lemma_trees_tell(v, names, k + 1, done.push(t), depth, after, fuel);
        } else {
            let t = listed_file(v, e, counted);
            assert(tells_file(v, e, t));
            assert(tells_all_of(v, e, t));
            lemma_trees_tell(v, names, k + 1, done.push(t), depth, counted.insert(e.base_record), fuel);
        }
    }
}

/// A tree tells the volume: below its top stands one node for each listed name, in the folder of the
/// directory that lists it, and that node has the sizes, the times, the attributes and the tag that
/// the volume knows of the file. The top has the name it is given, and tells of its own record.
pub proof fn law_tree_tells_the_volume(v: Volume, record: u64, name: Seq<char>)
    requires
        listings_fit(v),
        volume_tree(v, record, name) is Ok,
    ensures
        ({
            let t = volume_tree(v, record, name)->Ok_0;
            if v.files.contains_key(record) {
                tells_all_of(v, Listed { name, base_record: record }, t) && (!marked_as_directory(v, record)
                    ==> t.physical_size == v.files[record].physical_size)
            } else {
                &&& t.kind == NodeKind::Folder
                &&& t.name == name
                &&& t.created_ft == 0 && t.accessed_ft == 0 && t.reparse_tag == 0 && t.attributes == 0x10
                &&& tells_all_in(v, record, t)
            }
        }),
{
    let b = known_top(v, record);
    let fuel = v.listings.dom().len();
    lemma_directory_mark(v, record);
    let a = b.attributes;
    assert((a & 0x10 != 0) == (a / 0x10 % 2 == 1)) by (bit_vector);
    assert(0x10u32 & 0x10u32 != 0) by (bit_vector);
    if is_directory(b) {
        lemma_tree_tells(v, b, record, name, 0, Set::empty(), fuel);
    }
}

/// Whether some directory lists a name of which `n` tells.
pub open spec fn tells_a_listed_name(v: Volume, n: Tree) -> bool {
    exists|d: u64, i: int|
        v.listings.contains_key(d) && 0 <= i < v.listings[d].len() && if n.kind == NodeKind::File {
            tells_file(v, #[trigger] v.listings[d][i], n)
        } else {
            tells_directory(v, v.listings[d][i], n)
        }
}

proof fn lemma_below_tells(v: Volume, record: u64, t: Tree, p: Seq<usize>)
    requires
        tells_all_in(v, record, t),
        p.len() > 0,
        at_path(t, p) is Some,
    ensures
        tells_a_listed_name(v, at_path(t, p)->0),
    decreases p.len(),
{
    let names = told_names(v, record);
    let o = choose|o: Seq<usize>| #[trigger]
        is_rearrangement(o, names.len()) && t.children.len() == names.len() && forall|i: int|
            #![trigger t.children[i]]
            0 <= i < t.children.len() ==> tells_all_of(v, names[o[i] as int], t.children[i]);
    let i = p[0] as int;
    let c = t.children[i];
    let e = names[o[i] as int];
    assert(tells_all_of(v, e, c));
    assert(v.listings[record][o[i] as int] == e);
    if p.len() == 1 {
        assert(p.skip(1) =~= Seq::empty());
        reveal_with_fuel(at_path, 2);
        assert(at_path(t, p) == Some(c));
        assert(tells_a_listed_name(v, c));
    } else {
        assert(marked_as_directory(v, e.base_record)) by {
            if c.children.len() == 0 {
                assert(at_path(c, p.skip(1)) is None);
            }
        }
        lemma_below_tells(v, e.base_record, c, p.skip(1));
    }
}

/// Wherever a node stands in a tree below the top, some directory of the volume lists a name with the
/// node's name, and what the node tells, of a file its size, its times, its attributes and its tag,
/// is what the volume knows of the record behind that name.
pub proof fn law_every_node_tells_of_its_record(v: Volume, record: u64, name: Seq<char>, p: Seq<usize>)
    requires
        listings_fit(v),
        volume_tree(v, record, name) is Ok,
        p.len() > 0,
        at_path(volume_tree(v, record, name)->Ok_0, p) is Some,
    ensures
        tells_a_listed_name(v, at_path(volume_tree(v, record, name)->Ok_0, p)->0),
{
    let t = volume_tree(v, record, name)->Ok_0;
    law_tree_tells_the_volume(v, record, name);
    if t.kind == NodeKind::File {
        assert(t.children.len() == 0);
        assert(at_path(t, p) is None);
    } else {
        lemma_below_tells(v, record, t, p);
    }
}


/// Whether every file has the color of files, and every folder that of its depth, `t` being at depth
/// `d`.
pub open spec fn colored_by_depth(t: Tree, d: nat) -> bool
    decreases t,
{
    &&& t.color == if t.kind == NodeKind::Folder {
        folder_color_at(d)
    } else {
        file_color_of()
    }
    &&& forall|i: int| 0 <= i < t.children.len() ==> colored_by_depth(#[trigger] t.children[i], d + 1)
}

proof fn lemma_tree_colors(
    v: Volume,
    b: FileRecordBase,
    record: u64,
    name: Seq<char>,
    depth: nat,
    counted: Set<u64>,
    fuel: nat,
)
    requires
        listings_fit(v),
        tree_of(v, b, record, name, depth, counted, fuel) is Ok,
    ensures
        colored_by_depth(tree_of(v, b, record, name, depth, counted, fuel)->Ok_0.0, depth),
    decreases fuel, names_in(v, record).len() + 1,
{
    let names = names_in(v, record);
    assert(told_names(v, record) == names);
    lemma_trees_colors(v, names, 0, Seq::empty(), depth, counted, fuel);
    lemma_trees_tell(v, names, 0, Seq::empty(), depth, counted, fuel);
    let ch = trees_of(v, names, 0, Seq::empty(), depth, counted, fuel)->Ok_0.0;
    let t = tree_of(v, b, record, name, depth, counted, fuel)->Ok_0.0;
    let o = law_new_folder_puts_larger_children_first(
        name,
        folder_color_at(depth),
        ch,
        b.last_modified_ft,
        b.created_ft,
        b.accessed_ft,
        b.attributes,
        b.reparse_tag,
        record < NTFS_RESERVED_MAX,
        Seq::empty(),
    );
    assert forall|i: int| 0 <= i < t.children.len() implies colored_by_depth(#[trigger] t.children[i], depth + 1) by {
        assert(colored_by_depth(ch[o[i] as int], depth + 1));
    }
}

proof fn lemma_trees_colors(
    v: Volume,
    names: Seq<Listed>,
    k: nat,
    done: Seq<Tree>,
    depth: nat,
    counted: Set<u64>,
    fuel: nat,
)
    requires
        listings_fit(v),
        trees_of(v, names, k, done, depth, counted, fuel) is Ok,
        forall|i: int| 0 <= i < done.len() ==> colored_by_depth(#[trigger] done[i], depth + 1),
    ensures
        ({
            let ch = trees_of(v, names, k, done, depth, counted, fuel)->Ok_0.0;
            forall|i: int| 0 <= i < ch.len() ==> colored_by_depth(#[trigger] ch[i], depth + 1)
        }),
    decreases fuel, names.len() - k,
{
    if k < names.len() {
        let e = names[k as int];
        let b = known_file(v, e.base_record);
        if is_directory(b) {
            lemma_tree_colors(v, b, e.base_record, e.name, depth + 1, counted, (fuel - 1) as nat);
            let (t, after) = tree_of(v, b, e.base_record, e.name, depth + 1, counted, (fuel - 1) as nat)->Ok_0;
            lemma_trees_colors(v, names, k + 1, done.push(t), depth, after, fuel);
        } else {
            let t = listed_file(v, e, counted);
            assert(colored_by_depth(t, depth + 1));
            lemma_trees_colors(v, names, k + 1, done.push(t), depth, counted.insert(e.base_record), fuel);
        }
    }
}

/// Everywhere in a tree files have the color of files, and folders that of their depth.
pub proof fn law_folders_are_colored_by_depth(v: Volume, record: u64, name: Seq<char>)
    requires
        listings_fit(v),
        volume_tree(v, record, name) is Ok,
    ensures
        colored_by_depth(volume_tree(v, record, name)->Ok_0, 0),
{
    let b = known_top(v, record);
    if is_directory(b) {
        lemma_tree_colors(v, b, record, name, 0, Set::empty(), v.listings.dom().len());
    }
}

} // verus!
