//! How a scan is begun, which way it takes, and what it reports in the end.
use vstd::prelude::*;

use crate::bytes::read_u32;
use crate::disk_info::{to_upper, DiskInfo};
use crate::format::FILETIME_UNIX_OFFSET_SECS;
use crate::model::Node;
use crate::scan::{RawDirEntry, ScanMessage};
use crate::text::chars_of;

verus! {

use crate::bytes::le32;
use crate::disk_info::{shown_name, upper};
use crate::model::Tree;
use crate::scan::Entry;

// ---------------------------------------------------------------------------------------------
// What kind of path is to be scanned
// ---------------------------------------------------------------------------------------------

pub open spec fn is_letter(c: char) -> bool {
    'a' <= c <= 'z' || 'A' <= c <= 'Z'
}

/// The drive that a path is on, if it starts with a letter.
pub open spec fn drive_letter(path: Seq<char>) -> Option<char> {
    if path.len() > 0 && is_letter(path[0]) {
        Some(upper(path[0]))
    } else {
        None
    }
}

/// The drive whose root directory a path is, if it is one.
pub open spec fn drive_at_root(path: Seq<char>) -> Option<char> {
    if path.len() == 3 && is_letter(path[0]) && path[1] == ':' && (path[2] == '\\' || path[2] == '/') {
        Some(upper(path[0]))
    } else {
        None
    }
}

fn letter(c: char) -> (r: bool)
    ensures
        r == is_letter(c),
{
    ('a' <= c && c <= 'z') || ('A' <= c && c <= 'Z')
}

/// The drive that a path is on, if it starts with a letter.
pub fn drive_letter_of(path: &str) -> (r: Option<char>)
    ensures
        r == drive_letter(path@),
{
    let v = chars_of(path);
    if v.len() > 0 && letter(v[0]) {
        Some(to_upper(v[0]))
    } else {
        None
    }
}

/// The drive whose root directory a path is, if it is one.
pub fn as_drive_root(path: &str) -> (r: Option<char>)
    ensures
        r == drive_at_root(path@),
{
    let v = chars_of(path);
    if v.len() == 3 && letter(v[0]) && v[1] == ':' && (v[2] == '\\' || v[2] == '/') {
        Some(to_upper(v[0]))
    } else {
        None
    }
}

// ---------------------------------------------------------------------------------------------
// Which way a scan takes
// ---------------------------------------------------------------------------------------------

/// What happened to a scan.
pub enum ScanEvent {
    /// It began; with an administrator's rights or without.
    Started(bool),
    /// Reading the master file table gave a tree.
    TableRead(Node),
    /// The master file table could not be read.
    TableFailed,
    /// Going through the directories gave a tree.
    Walked(Node),
    /// Going through the directories failed, for the reason given.
    WalkFailed(String),
    /// It broke down, with these last words if there were any.
    BrokeDown(Option<String>),
    /// It could not begin, for the reason given.
    NotStarted(String),
}

/// What a scan does next.
pub enum ScanStep {
    /// Read the master file table of a drive.
    ReadTable(char),
    /// Go through the directories.
    Walk,
    /// Report, and be done.
    Report(ScanMessage),
}

/// The step that an event leads to, where the report is given as its tree and disk, or as text.
pub open spec fn leads_to(root: Seq<char>, disk: Option<DiskInfo>, event: ScanEvent, step: ScanStep) -> bool {
    match event {
        ScanEvent::Started(elevated) => if elevated && drive_at_root(root) is Some {
            step == ScanStep::ReadTable(drive_at_root(root)->0)
        } else {
            step == ScanStep::Walk
        },
        ScanEvent::TableRead(n) => reports(step, named_after(n@, disk), disk),
        ScanEvent::TableFailed => step == ScanStep::Walk,
        ScanEvent::Walked(n) => reports(
            step,
            if drive_at_root(root) is Some {
                named_after(n@, disk)
            } else {
                n@
            },
            disk,
        ),
        ScanEvent::WalkFailed(why) => fails(step, "扫描失败: "@ + why@),
        ScanEvent::BrokeDown(words) => fails(
            step,
            "扫描过程中发生内部错误（已记录日志）: "@ + match words {
                Some(w) => w@,
                None => "未知内部错误"@,
            },
        ),
        ScanEvent::NotStarted(why) => fails(step, "无法启动扫描线程: "@ + why@),
    }
}

/// The tree of a whole disk bears the name of the disk, if that is known.
pub open spec fn named_after(t: Tree, disk: Option<DiskInfo>) -> Tree {
    match disk {
        Some(d) => Tree { name: shown_name(d@.drive_letter, d@.volume_label), ..t },
        None => t,
    }
}

/// Whether `step` reports the tree `t` of the disk `disk`.
pub open spec fn reports(step: ScanStep, t: Tree, disk: Option<DiskInfo>) -> bool {
    match step {
        ScanStep::Report(ScanMessage::Done(n, d)) => n@ == t && d == disk,
        _ => false,
    }
}

/// Whether `step` reports that there is no tree, and why.
pub open spec fn fails(step: ScanStep, why: Seq<char>) -> bool {
    match step {
        ScanStep::Report(ScanMessage::Error(s)) => s@ == why,
        _ => false,
    }
}

fn name_after(n: Node, disk: &Option<DiskInfo>) -> (r: Node)
    ensures
        r@ == named_after(n@, *disk),
{
    let mut n = n;
    let ghost t = n@;
    if let Some(d) = disk {
        n.name = d.display_name();
    }
    assert(n@.children =~= t.children);
    n
}

fn failure(what: &str, why: &str) -> (r: ScanStep)
    ensures
        fails(r, what@ + why@),
{
    let mut s = what.to_owned();
    s.append(why);
    ScanStep::Report(ScanMessage::Error(s))
}

/// What a scan of `root` does next, once `event` has happened. With an administrator's rights the
/// master file table of a whole drive is read; where that fails, and everywhere else, the
/// directories are gone through.
pub fn next_step(root: &str, disk: Option<DiskInfo>, event: ScanEvent) -> (step: ScanStep)
    ensures
        leads_to(root@, disk, event, step),
{
    match event {
        ScanEvent::Started(elevated) => match as_drive_root(root) {
            Some(drive) => if elevated {
                ScanStep::ReadTable(drive)
            } else {
                ScanStep::Walk
            },
            None => ScanStep::Walk,
        },
        ScanEvent::TableRead(n) => {
            let n = name_after(n, &disk);
            ScanStep::Report(ScanMessage::Done(Box::new(n), disk))
        },
        ScanEvent::TableFailed => ScanStep::Walk,
        ScanEvent::Walked(n) => {
            let n = match as_drive_root(root) {
                Some(_) => name_after(n, &disk),
                None => n,
            };
            ScanStep::Report(ScanMessage::Done(Box::new(n), disk))
        },
        ScanEvent::WalkFailed(why) => failure("扫描失败: ", why.as_str()),
        ScanEvent::BrokeDown(words) => match &words {
            Some(w) => failure("扫描过程中发生内部错误（已记录日志）: ", w.as_str()),
            None => failure("扫描过程中发生内部错误（已记录日志）: ", "未知内部错误"),
        },
        ScanEvent::NotStarted(why) => failure("无法启动扫描线程: ", why.as_str()),
    }
}

/// However a scan goes, it ends with a report: every event but the beginning and a table that
/// could not be read leads to one, and those two lead to such an event.
pub proof fn law_scan_ends_with_a_report(root: Seq<char>, disk: Option<DiskInfo>, event: ScanEvent, step: ScanStep)
    requires
        leads_to(root, disk, event, step),
    ensures
        step is Report || event is Started || event is TableFailed,
        event is TableFailed ==> step is Walk,
        step is ReadTable ==> event == ScanEvent::Started(true) && drive_at_root(root) is Some,
{
}

/// How many workers go through the directories: two for each of `cores`, and at least two.
pub fn worker_count(cores: usize) -> (r: usize)
    ensures
        r == if cores < 1 {
            2
        } else if 2 * cores <= usize::MAX {
            2 * cores
        } else {
            usize::MAX as int
        },
{
    if cores < 1 {
        2
    } else if cores <= usize::MAX / 2 {
        2 * cores
    } else {
        usize::MAX
    }
}

// ---------------------------------------------------------------------------------------------
// What the system says of a single entry
// ---------------------------------------------------------------------------------------------

/// The file time of a moment given in seconds and nanoseconds since 1970; 0 where there is none.
pub open spec fn filetime_of(t: Option<(u64, u32)>) -> nat {
    match t {
        Some((secs, nanos)) => (secs + FILETIME_UNIX_OFFSET_SECS) as nat * 10_000_000 + nanos as nat / 100,
        None => 0,
    }
}

/// The file time of a moment given in seconds and nanoseconds since 1970; 0 where there is none.
pub fn system_time_to_filetime(t: Option<(u64, u32)>) -> (r: u64)
    requires
        filetime_of(t) <= u64::MAX,
    ensures
        r == filetime_of(t),
{
    match t {
        Some((secs, nanos)) => {
            assert(secs * 10_000_000 + FILETIME_UNIX_OFFSET_SECS * 10_000_000 <= u64::MAX);
            secs * 10_000_000 + (nanos / 100) as u64 + FILETIME_UNIX_OFFSET_SECS * 10_000_000
        },
        None => 0,
    }
}

/// A file time tells the moment that it was made of, to the 100 nanoseconds that it counts in.
pub proof fn law_filetime_tells_the_moment(secs: u64, nanos: u32)
    requires
        nanos < 1_000_000_000,
    ensures
        filetime_of(Some((secs, nanos))) / 10_000_000 == secs + 11_644_473_600,
        filetime_of(Some((secs, nanos))) % 10_000_000 == nanos as nat / 100,
{
}

/// What the system answers when asked for the compressed size of a file.
#[derive(Clone, Copy)]
pub struct CompressedSize {
    pub low: u32,
    pub high: u32,
    /// What the system gave as its last error.
    pub last_error: u32,
}

/// Attributes of files whose room is not that of their length.
pub const FILE_ATTRIBUTE_COMPRESSED: u32 = 0x800;
pub const FILE_ATTRIBUTE_SPARSE_FILE: u32 = 0x200;

/// Whether an answer is a size. The one low half that marks an error is a size too, if there was
/// no error.
pub open spec fn is_size(a: CompressedSize) -> bool {
    a.low != 0xFFFF_FFFF || a.last_error == 0
}

/// Whether a file is to be asked for its compressed size.
pub open spec fn may_be_compressed(attrs: u32) -> bool {
    attrs & (FILE_ATTRIBUTE_COMPRESSED | FILE_ATTRIBUTE_SPARSE_FILE) != 0
}

/// The room of a file: what the system says of a compressed or sparse one, or else its length up
/// to a full cluster.
pub open spec fn room(logical: nat, attrs: u32, cluster: nat, answer: Option<CompressedSize>) -> nat {
    if may_be_compressed(attrs) && answer is Some && is_size(answer->0) {
        answer->0.high as nat * 0x1_0000_0000 + answer->0.low as nat
    } else if logical == 0 {
        0
    } else {
        ((logical + cluster - 1) as nat / cluster) * cluster
    }
}

/// Whether the room of a file is worked out from its length.
pub open spec fn goes_by_clusters(logical: nat, attrs: u32, answer: Option<CompressedSize>) -> bool {
    logical > 0 && !(may_be_compressed(attrs) && answer is Some && is_size(answer->0))
}

/// Whether a file with these attributes is to be asked for its compressed size.
pub fn asks_compressed_size(attrs: u32) -> (r: bool)
    ensures
        r == may_be_compressed(attrs),
{
    attrs & (FILE_ATTRIBUTE_COMPRESSED | FILE_ATTRIBUTE_SPARSE_FILE) != 0
}

/// The room of a file on a disk with the given size of clusters.
pub fn get_physical_size(logical: u64, attrs: u32, cluster: u64, answer: Option<CompressedSize>) -> (r: u64)
    requires
        goes_by_clusters(logical as nat, attrs, answer) ==> cluster > 0 && logical + cluster <= u64::MAX,
    ensures
        r == room(logical as nat, attrs, cluster as nat, answer),
{
    if asks_compressed_size(attrs) {
        if let Some(a) = answer {
            if a.low != 0xFFFF_FFFF || a.last_error == 0 {
                return (a.high as u64) * 0x1_0000_0000 + a.low as u64;
            }
        }
    }
    if logical == 0 {
        0
    } else {
        let clusters: u64 = (logical + cluster - 1) / cluster;
        proof {
            assert(clusters * cluster <= logical + cluster - 1) by (nonlinear_arith)
                requires
                    clusters == (logical + cluster - 1) / cluster as int,
                    cluster > 0,
            ;
        }
        clusters * cluster
    }
}

/// The room of an ordinary file holds it, in whole clusters and none too many.
pub proof fn law_room_is_whole_clusters(logical: nat, attrs: u32, cluster: nat)
    requires
        cluster > 0,
        !may_be_compressed(attrs),
    ensures
        ({
            let r = room(logical, attrs, cluster, None);
            logical <= r < logical + cluster && r % cluster == 0
        }),
{
    let n = (logical + cluster - 1) as nat;
    if logical > 0 {
        assert(logical <= (n / cluster) * cluster <= n) by (nonlinear_arith)
            requires
                n == logical + cluster - 1,
                cluster > 0,
        ;
        vstd::arithmetic::div_mod::lemma_mod_multiples_basic((n / cluster) as int, cluster as int);
    } else {
        assert(0nat % cluster == 0) by (nonlinear_arith)
            requires
                cluster > 0,
        ;
    }
}

/// The size of clusters where it is not known.
pub const FALLBACK_CLUSTER: u64 = 4096;

/// The size of clusters, from how many sectors one has and how many bytes a sector has, if the
/// system said so.
pub fn query_cluster_size(answer: Option<(u32, u32)>) -> (r: u64)
    ensures
        r == match answer {
            Some((sectors, bytes)) => if sectors == 0 || bytes == 0 {
                4096
            } else {
                sectors * bytes
            },
            None => 4096,
        },
        r > 0,
{
    match answer {
        Some((sectors, bytes)) => {
            if sectors == 0 || bytes == 0 {
                return FALLBACK_CLUSTER;
            }
            proof {
                assert(0 < sectors * bytes <= 0xFFFF_FFFF * 0xFFFF_FFFF) by (nonlinear_arith)
                    requires
                        0 < sectors <= 0xFFFF_FFFF,
                        0 < bytes <= 0xFFFF_FFFF,
                ;
            }
            sectors as u64 * bytes as u64
        },
        None => FALLBACK_CLUSTER,
    }
}

/// The tag of a reparse point: the first four bytes of what the system says of it, or 0 where it
/// says less.
pub fn reparse_tag_in(reply: &[u8]) -> (r: u32)
    ensures
        r == if reply@.len() < 4 {
            0
        } else {
            le32(reply@, 0)
        },
{
    if reply.len() < 4 {
        0
    } else {
        read_u32(reply, 0)
    }
}

/// What the system says of an entry that was not listed in bulk.
pub struct EntryMetadata {
    pub name: String,
    pub is_dir: bool,
    pub len: u64,
    pub attrs: u32,
    pub modified: Option<(u64, u32)>,
    pub created: Option<(u64, u32)>,
    pub accessed: Option<(u64, u32)>,
}

/// The entry made of what the system says: a directory takes no room of its own, and which files
/// are the same cannot be told.
pub fn fallback_entry(m: EntryMetadata, cluster: u64, answer: Option<CompressedSize>, reparse_tag: u32) -> (r:
    RawDirEntry)
    requires
        !m.is_dir && goes_by_clusters(m.len as nat, m.attrs, answer) ==> cluster > 0 && m.len + cluster
            <= u64::MAX,
        filetime_of(m.modified) <= u64::MAX,
        filetime_of(m.created) <= u64::MAX,
        filetime_of(m.accessed) <= u64::MAX,
    ensures
        r@ == (Entry {
            name: m.name@,
            is_dir: m.is_dir,
            logical: m.len,
            physical: (if m.is_dir {
                0
            } else {
                room(m.len as nat, m.attrs, cluster as nat, answer)
            }) as u64,
            attrs: m.attrs,
            modified_ft: filetime_of(m.modified) as u64,
            created_ft: filetime_of(m.created) as u64,
            accessed_ft: filetime_of(m.accessed) as u64,
            file_id: 0,
            reparse_tag,
        }),
{
    let physical: u64 = if m.is_dir {
        0
    } else {
        get_physical_size(m.len, m.attrs, cluster, answer)
    };
    RawDirEntry {
        name: m.name,
        is_dir: m.is_dir,
        logical: m.len,
        physical,
        attrs: m.attrs,
        modified_ft: system_time_to_filetime(m.modified),
        created_ft: system_time_to_filetime(m.created),
        accessed_ft: system_time_to_filetime(m.accessed),
        file_id: 0,
        reparse_tag,
    }
}

/// A path is the root directory of a drive exactly if it is a letter, a colon and a slash of either
/// kind; the drive goes by its letter in upper case. Every such path is on that drive.
pub proof fn law_roots_of_drives_are_known(path: Seq<char>)
    ensures
        drive_at_root(path) is Some <==> (exists|c: char|
            ('a' <= c <= 'z' || 'A' <= c <= 'Z') && (path == #[trigger] seq![c, ':', '\\'] || path == seq![c, ':', '/'])),
        drive_at_root(path) is Some ==> drive_at_root(path) == drive_letter(path),
        drive_letter(path) is Some ==> ({
            let d = drive_letter(path)->0;
            'A' <= d <= 'Z' && (path[0] == d || path[0] as int == d as int + ('a' as int - 'A' as int))
        }),
        drive_letter(path) is None <==> path.len() == 0 || !('a' <= path[0] <= 'z' || 'A' <= path[0] <= 'Z'),
{
    if drive_at_root(path) is Some {
        let c = path[0];
        assert(path =~= seq![c, ':', '\\'] || path =~= seq![c, ':', '/']);
        let t = seq![c, ':', '\\'];
        assert(path == t || path == seq![c, ':', '/']);
    }
}

/// What the system says of the room of a compressed or sparse file in two halves is taken as the one
/// number that they make, whatever the length of the file; a file that is neither goes by its length.
pub proof fn law_room_of_compressed_files_is_what_the_system_says(
    n: u64,
    logical: nat,
    attrs: u32,
    cluster: nat,
    last_error: u32,
)
    requires
        n % 0x1_0000_0000 != 0xFFFF_FFFF || last_error == 0,
    ensures
        ({
            let a = CompressedSize { low: (n % 0x1_0000_0000) as u32, high: (n / 0x1_0000_0000) as u32, last_error };
            if attrs / 0x800 % 2 == 1 || attrs / 0x200 % 2 == 1 {
                room(logical, attrs, cluster, Some(a)) == n
            } else {
                room(logical, attrs, cluster, Some(a)) == room(logical, attrs, cluster, None)
            }
        }),
{
    assert((attrs & (0x800u32 | 0x200u32) != 0) == (attrs / 0x800 % 2 == 1 || attrs / 0x200 % 2 == 1)) by (bit_vector);
}

/// An answer that marks an error is no size: the length of the file counts then.
pub proof fn law_errors_are_no_sizes(logical: nat, attrs: u32, cluster: nat, high: u32, last_error: u32)
    requires
        last_error != 0,
    ensures
        room(logical, attrs, cluster, Some(CompressedSize { low: 0xFFFF_FFFF, high, last_error })) == room(
            logical,
            attrs,
            cluster,
            None,
        ),
{
}


/// With an administrator's rights the table of a whole drive is read; without them, and elsewhere,
/// the directories are gone through. What was found is reported as it is, sizes and children and all;
/// only the name may be another, that of the disk, and only where a whole drive was scanned.
pub proof fn law_reports_tell_what_was_found(root: Seq<char>, disk: Option<DiskInfo>, event: ScanEvent, step: ScanStep)
    requires
        leads_to(root, disk, event, step),
    ensures
        event == ScanEvent::Started(true) && drive_at_root(root) is Some ==> step is ReadTable,
        event == ScanEvent::Started(false) ==> step is Walk,
        event is Started && drive_at_root(root) is None ==> step is Walk,
        match event {
            ScanEvent::TableRead(n) => match step {
                ScanStep::Report(ScanMessage::Done(m, d)) => {
                    &&& d == disk
                    &&& m@ == (Tree { name: m@.name, ..n@ })
                    &&& disk is None ==> m@.name == n@.name
                },
                _ => false,
            },
            ScanEvent::Walked(n) => match step {
                ScanStep::Report(ScanMessage::Done(m, d)) => {
                    &&& d == disk
                    &&& m@ == (Tree { name: m@.name, ..n@ })
                    &&& disk is None || drive_at_root(root) is None ==> m@.name == n@.name
                },
                _ => false,
            },
            ScanEvent::WalkFailed(_) | ScanEvent::BrokeDown(_) | ScanEvent::NotStarted(_) => step is Report
                && step->Report_0 is Error,
            _ => true,
        },
{
}

} // verus!
