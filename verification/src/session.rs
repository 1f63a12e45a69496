//! The state of the application, and how it changes: scans that wait for their turn, what they
//! found, the pages that are open, and deleting.
use vstd::prelude::*;
use std::collections::VecDeque;

use crate::categorize::{build_extension_tree, compute_categories};
use crate::dedup::HashPhase;
use crate::disk_info::DiskInfo;
use crate::duplicates::{collect_duplicate_candidates, Candidates, DuplicateMessage};
use crate::model::{CategoryStat, Color, Node, NodePath};
use crate::scan::ScanMessage;
use crate::tabs::{click_tree, is_selected, remove_from_tree, Analysis, Tab};
use crate::text::owned;
use crate::ui::TreeAction;

verus! {

use crate::categorize::{categories_fit, category_color, category_label, category_total, ext_groups_fit, extension_tree};
use crate::disk_info::{texts, Disk};
use crate::duplicates::are_candidates;
use crate::model::{folder_of, trees, Tree};
use crate::tabs::{
    is_duplicates_of,
    is_extensions_of,
    new_page,
    opt_path,
    page_clicked,
    page_without,
    tab_told,
    tree_clicked,
    tree_without,
    Page,
    TabModel,
};
use crate::ui::compact_tree::next_version;
use crate::walk::{files_of, trimmed};

/// Which tree something is to be deleted from.
#[derive(Debug, Clone, Copy, PartialEq, Eq, Structural)]
pub enum DeleteSource {
    Main,
    Tab(usize),
    /// A page that has been closed since.
    Closed,
}

/// Something that is to be deleted.
pub struct PendingDelete {
    pub source: DeleteSource,
    pub abs_path: NodePath,
    pub name: String,
    pub full_path: String,
    pub is_folder: bool,
}

/// What a [`PendingDelete`] says.
pub struct Doomed {
    pub source: DeleteSource,
    pub at: Seq<usize>,
    pub name: Seq<char>,
    pub full_path: Seq<char>,
    pub is_folder: bool,
}

impl View for PendingDelete {
    type V = Doomed;

    open spec fn view(&self) -> Doomed {
        Doomed {
            source: self.source,
            at: self.abs_path@,
            name: self.name@,
            full_path: self.full_path@,
            is_folder: self.is_folder,
        }
    }
}

pub open spec fn opt_doomed(p: Option<PendingDelete>) -> Option<Doomed> {
    match p {
        Some(d) => Some(d@),
        None => None,
    }
}

pub open spec fn opt_str(s: Option<String>) -> Option<Seq<char>> {
    match s {
        Some(t) => Some(t@),
        None => None,
    }
}

pub open spec fn opt_disk(i: Option<DiskInfo>) -> Option<Disk> {
    match i {
        Some(d) => Some(d@),
        None => None,
    }
}

/// The state of the application.
pub struct Session {
    /// What was scanned: the trees, and beside them, in the same order, what is known of their
    /// disks, how much there is of each kind of files, and the paths that were scanned.
    pub partitions: Vec<Node>,
    pub partition_infos: Vec<Option<DiskInfo>>,
    pub partition_categories: Vec<Vec<CategoryStat>>,
    pub partition_root_paths: Vec<String>,
    pub selected: Option<NodePath>,
    pub tabs: Vec<Tab>,
    pub active_tab: usize,
    pub scanning: bool,
    pub scanned_count: u64,
    /// What the user was last told.
    pub scan_error: Option<String>,
    /// What is to be scanned after the present scan.
    pub scan_queue: VecDeque<String>,
    pub current_scan_path: Option<String>,
    pub show_all_details: bool,
    /// Changes whenever the main list may.
    pub expand_version: u64,
    /// What the user has yet to confirm deleting.
    pub pending_delete: Option<PendingDelete>,
    /// What is being deleted.
    pub deleting: Option<PendingDelete>,
}

/// What a [`Session`] holds.
#[verifier::ext_equal]
pub struct State {
    pub partitions: Seq<Tree>,
    pub infos: Seq<Option<Disk>>,
    pub categories: Seq<Seq<CategoryStat>>,
    pub root_paths: Seq<Seq<char>>,
    pub selected: Option<Seq<usize>>,
    pub tabs: Seq<TabModel>,
    pub active: int,
    pub scanning: bool,
    pub scanned: u64,
    pub message: Option<Seq<char>>,
    pub queue: Seq<Seq<char>>,
    pub current: Option<Seq<char>>,
    pub show_all: bool,
    pub version: u64,
    pub pending: Option<Doomed>,
    pub deleting: Option<Doomed>,
}

pub open spec fn tab_models(v: Seq<Tab>) -> Seq<TabModel> {
    v.map_values(|t: Tab| t@)
}

pub open spec fn disks(v: Seq<Option<DiskInfo>>) -> Seq<Option<Disk>> {
    v.map_values(|i: Option<DiskInfo>| opt_disk(i))
}

pub open spec fn stats(v: Seq<Vec<CategoryStat>>) -> Seq<Seq<CategoryStat>> {
    v.map_values(|c: Vec<CategoryStat>| c@)
}

impl View for Session {
    type V = State;

    open spec fn view(&self) -> State {
        State {
            partitions: trees(self.partitions@),
            infos: disks(self.partition_infos@),
            categories: stats(self.partition_categories@),
            root_paths: texts(self.partition_root_paths@),
            selected: opt_path(self.selected),
            tabs: tab_models(self.tabs@),
            active: self.active_tab as int,
            scanning: self.scanning,
            scanned: self.scanned_count,
            message: opt_str(self.scan_error),
            queue: texts(self.scan_queue@),
            current: opt_str(self.current_scan_path),
            show_all: self.show_all_details,
            version: self.expand_version,
            pending: opt_doomed(self.pending_delete),
            deleting: opt_doomed(self.deleting),
        }
    }
}

/// Whether something is to be deleted from a tree that is there: the main list, or a page that is
/// open; or from a page that is known to be closed.
pub open spec fn has_its_page(d: Option<Doomed>, pages: nat) -> bool {
    match d {
        Some(x) => match x.source {
            DeleteSource::Tab(j) => 1 <= j < pages,
            _ => true,
        },
        None => true,
    }
}

/// What holds of every state: the lists about what was scanned have one entry for each tree; the
/// main list is the first page and the only one of its kind; one of the pages is in front; no
/// analysis is open twice; nothing waits to be scanned while no scan runs; and what is to be deleted
/// belongs to a page that is open, unless it is known that its page was closed.
pub open spec fn sound(s: State) -> bool {
    &&& s.infos.len() == s.partitions.len()
    &&& s.categories.len() == s.partitions.len()
    &&& s.root_paths.len() == s.partitions.len()
    &&& s.tabs.len() > 0
    &&& s.tabs[0] is Main
    &&& forall|i: int| 1 <= i < s.tabs.len() ==> !((#[trigger] s.tabs[i]) is Main)
    &&& 0 <= s.active < s.tabs.len()
    &&& forall|i: int, j: int|
        0 <= i < j < s.tabs.len() ==> !same_analysis(#[trigger] s.tabs[i], #[trigger] s.tabs[j])
    &&& s.queue.len() > 0 ==> s.scanning
    &&& has_its_page(s.pending, s.tabs.len())
    &&& has_its_page(s.deleting, s.tabs.len())
}

/// Whether two pages are the same analysis of the same disk.
pub open spec fn same_analysis(a: TabModel, b: TabModel) -> bool {
    match (a, b) {
        (TabModel::Extensions(p), TabModel::Extensions(q)) => p.partition == q.partition,
        (TabModel::Duplicates(p, _), TabModel::Duplicates(q, _)) => p.partition == q.partition,
        _ => false,
    }
}

impl Session {
    pub open spec fn well_formed(&self) -> bool {
        &&& sound(self@)
        &&& forall|i: int| 0 <= i < self.tabs@.len() ==> (#[trigger] self.tabs@[i]).well_formed()
    }

    /// Nothing is scanned yet.
    pub fn new() -> (s: Self)
        ensures
            s.well_formed(),
            s@ == (State {
                partitions: Seq::empty(),
                infos: Seq::empty(),
                categories: Seq::empty(),
                root_paths: Seq::empty(),
                selected: None,
                tabs: seq![TabModel::Main],
                active: 0,
                scanning: false,
                scanned: 0,
                message: None,
                queue: Seq::empty(),
                current: None,
                show_all: true,
                version: 0,
                pending: None,
                deleting: None,
            }),
    {
        let mut tabs: Vec<Tab> = Vec::new();
        tabs.push(Tab::Main);
        let s = Session {
            partitions: Vec::new(),
            partition_infos: Vec::new(),
            partition_categories: Vec::new(),
            partition_root_paths: Vec::new(),
            selected: None,
            tabs,
            active_tab: 0,
            scanning: false,
            scanned_count: 0,
            scan_error: None,
            scan_queue: VecDeque::new(),
            current_scan_path: None,
            show_all_details: true,
            expand_version: 0,
            pending_delete: None,
            deleting: None,
        };
        proof {
            assert(trees(s.partitions@) =~= Seq::empty());
            assert(disks(s.partition_infos@) =~= Seq::empty());
            assert(stats(s.partition_categories@) =~= Seq::empty());
            assert(texts(s.partition_root_paths@) =~= Seq::empty());
            assert(texts(s.scan_queue@) =~= Seq::empty());
            assert(tab_models(s.tabs@) =~= seq![TabModel::Main]);
        }
        s
    }
}

// ---------------------------------------------------------------------------------------------
// Scans
// ---------------------------------------------------------------------------------------------

/// The state once the next scan has begun, if one waits.
pub open spec fn next_begun(s: State) -> State {
    if s.queue.len() == 0 {
        s
    } else {
        State {
            queue: s.queue.skip(1),
            current: Some(s.queue[0]),
            scanning: true,
            scanned: 0,
            message: None,
            ..s
        }
    }
}

/// The state once more paths are to be scanned.
pub open spec fn batch_added(s: State, paths: Seq<Seq<char>>) -> State {
    let waiting = State { queue: s.queue + paths, ..s };
    if s.scanning {
        waiting
    } else {
        next_begun(waiting)
    }
}

/// The state once a scan has ended: the next one begins.
pub open spec fn scan_over(s: State) -> State {
    next_begun(State { scanning: false, ..s })
}

/// How much there is of each kind of files in a tree.
pub open spec fn has_stats(v: Seq<CategoryStat>, t: Tree) -> bool {
    v.len() == 6 && forall|c: int|
        0 <= c < 6 ==> (#[trigger] v[c]).label@ == category_label(c) && v[c].color == category_color(c) && v[c].size
            == category_total(t, c)
}

/// Whether `e` is the state `s` after a message of the running scan.
pub open spec fn scan_told(s: State, msg: ScanMessage, e: State) -> bool {
    match msg {
        ScanMessage::Progress(n) => e == (State { scanned: n, ..s }),
        ScanMessage::Done(node, info) => {
            &&& e.categories.len() > 0
            &&& has_stats(e.categories.last(), node@)
            &&& e == (State {
                partitions: s.partitions.push(node@),
                infos: s.infos.push(opt_disk(info)),
                categories: s.categories.push(e.categories.last()),
                root_paths: s.root_paths.push(
                    match s.current {
                        Some(p) => p,
                        None => Seq::empty(),
                    },
                ),
                selected: None,
                current: None,
                version: next_version(s.version),
                ..s
            })
        },
        ScanMessage::Error(why) => e == (State { message: Some(why@), current: None, ..s }),
    }
}

impl Session {
    /// Begins the next scan if one waits, and returns its path.
    fn dequeue_next_scan(&mut self) -> (path: Option<String>)
        requires
            forall|i: int| 0 <= i < old(self).tabs@.len() ==> (#[trigger] old(self).tabs@[i]).well_formed(),
        ensures
            final(self)@ == next_begun(old(self)@),
            final(self).tabs == old(self).tabs,
            match path {
                Some(p) => old(self)@.queue.len() > 0 && p@ == old(self)@.queue[0],
                None => old(self)@.queue.len() == 0,
            },
    {
        let ghost before = *self;
        match self.scan_queue.pop_front() {
            Some(path) => {
                self.current_scan_path = Some(path.clone());
                self.scanning = true;
                self.scanned_count = 0;
                self.scan_error = None;
                proof {
                    assert(texts(self.scan_queue@) =~= texts(before.scan_queue@).skip(1));
                    assert(self@ =~= next_begun(before@));
                }
                Some(path)
            },
            None => {
                proof {
                    assert(self@ =~= before@);
                }
                None
            },
        }
    }

    /// Takes in paths to scan. Returns the path to begin with, if no scan is running; otherwise the
    /// paths wait for their turn.
    pub fn start_scan_batch(&mut self, paths: Vec<String>) -> (path: Option<String>)
        requires
            old(self).well_formed(),
        ensures
            final(self).well_formed(),
            final(self)@ == batch_added(old(self)@, texts(paths@)),
            match path {
                Some(p) => !old(self)@.scanning && final(self)@.current == Some(p@),
                None => old(self)@.scanning || paths@.len() == 0,
            },
    {
        let ghost before = self@;
        let ghost all = paths@;
        for p in it: paths
            invariant
                it.seq() == all,
                self@ == (State { queue: before.queue + texts(all).take(it.index() as int), ..before }),
                before == old(self)@,
                self.tabs == old(self).tabs,
                self.scanning == old(self).scanning,
        {
            let ghost queue = self.scan_queue@;
            self.scan_queue.push_back(p);
            proof {
                assert(texts(self.scan_queue@) =~= texts(queue).push(p@));
                assert(before.queue + texts(all).take(it.index() + 1) =~= (before.queue + texts(all).take(
                    it.index() as int,
                )).push(p@));
            }
        }
        assert(texts(all).take(all.len() as int) =~= texts(all));
        if self.scanning {
            None
        } else {
            self.dequeue_next_scan()
        }
    }
}

impl Session {
    /// Takes in a message of the running scan. Returns whether that was its last.
    pub fn scan_message(&mut self, msg: ScanMessage) -> (finished: bool)
        requires
            old(self).well_formed(),
            match msg {
                ScanMessage::Done(node, _) => categories_fit(node@),
                _ => true,
            },
        ensures
            final(self).well_formed(),
            scan_told(old(self)@, msg, final(self)@),
            finished == !(msg is Progress),
    {
        let ghost before = *self;
        match msg {
            ScanMessage::Progress(n) => {
                self.scanned_count = n;
                assert(self@ =~= (State { scanned: n, ..before@ }));
                false
            },
            ScanMessage::Done(node, info) => {
                let node: Node = *node;
                let path = match self.current_scan_path.take() {
                    Some(p) => p,
                    None => String::new(),
                };
                let categories = match compute_categories(&node) {
                    Ok(c) => c,
                    Err(_) => Vec::new(),
                };
                self.partitions.push(node);
                self.partition_infos.push(info);
                self.partition_categories.push(categories);
                self.partition_root_paths.push(path);
                self.selected = None;
                self.bump();
                proof {
                    assert(trees(self.partitions@) =~= before@.partitions.push(node@));
                    assert(disks(self.partition_infos@) =~= before@.infos.push(opt_disk(info)));
                    assert(stats(self.partition_categories@) =~= before@.categories.push(categories@));
                    assert(texts(self.partition_root_paths@) =~= before@.root_paths.push(path@));
                    assert(has_stats(categories@, node@));
                }
                true
            },
            ScanMessage::Error(why) => {
                self.scan_error = Some(why);
                self.current_scan_path = None;
                true
            },
        }
    }

    /// Notes that the main list may have changed.
    fn bump(&mut self)
        ensures
            *final(self) == (Session { expand_version: next_version(old(self).expand_version), ..*old(self) }),
    {
        if self.expand_version < u64::MAX {
            self.expand_version = self.expand_version + 1;
        }
    }

    /// Ends the present scan, and begins the next one if one waits. Returns its path.
    pub fn scan_finished(&mut self) -> (path: Option<String>)
        requires
            old(self).well_formed(),
        ensures
            final(self).well_formed(),
            final(self)@ == scan_over(old(self)@),
            match path {
                Some(p) => final(self)@.current == Some(p@) && old(self)@.queue.len() > 0,
                None => old(self)@.queue.len() == 0,
            },
    {
        self.scanning = false;
        self.dequeue_next_scan()
    }

    /// Which disk the user is looking at: that of the selection, or else the first.
    pub fn focused(&self) -> (r: Option<usize>)
        ensures
            r == match self@.selected {
                Some(p) => if p.len() > 0 {
                    Some(p[0])
                } else if self@.partitions.len() > 0 {
                    Some(0usize)
                } else {
                    None
                },
                None => if self@.partitions.len() > 0 {
                    Some(0usize)
                } else {
                    None
                },
            },
    {
        if let Some(p) = &self.selected {
            if p.len() > 0 {
                return Some(p[0]);
            }
        }
        if self.partitions.len() > 0 {
            Some(0)
        } else {
            None
        }
    }

    /// Whether the choice of what to scan can be left without choosing: there is something to go
    /// back to.
    pub fn can_leave_picker(&self) -> (r: bool)
        ensures
            r == (self@.partitions.len() > 0 || self@.scanning || self@.queue.len() > 0),
    {
        self.partitions.len() > 0 || self.scanning || self.scan_queue.len() > 0
    }

    /// Shows everything, or only what matters.
    pub fn toggle_show_all(&mut self)
        requires
            old(self).well_formed(),
        ensures
            final(self).well_formed(),
            final(self)@ == (State { show_all: !old(self)@.show_all, ..old(self)@ }),
    {
        self.show_all_details = !self.show_all_details;
    }
}

// ---------------------------------------------------------------------------------------------
// Pages
// ---------------------------------------------------------------------------------------------

/// What came of opening an analysis of a disk.
pub enum TabOutcome {
    /// It was open, and is in front now.
    Switched,
    /// It is open now, and in front.
    Opened,
    /// There is no such disk.
    NoPartition,
    /// Its sizes cannot be counted.
    TooLarge,
}

/// What came of opening a search for duplicates on a disk.
pub enum SearchOutcome {
    /// It was open, and is in front now.
    Switched,
    /// It is open now, and in front. These files are to be looked at.
    Started(Candidates),
    /// There is no such disk.
    NoPartition,
}

/// The path that a disk was scanned from.
pub open spec fn path_of(s: State, pi: int) -> Seq<char> {
    if 0 <= pi < s.root_paths.len() {
        s.root_paths[pi]
    } else {
        Seq::empty()
    }
}

/// Whether the extensions on a disk are shown on some page.
pub open spec fn shows_extensions(s: State, pi: usize) -> bool {
    exists|i: int| 0 <= i < s.tabs.len() && is_extensions_of(#[trigger] s.tabs[i], pi)
}

/// Whether the duplicates on a disk are shown on some page.
pub open spec fn shows_duplicates(s: State, pi: usize) -> bool {
    exists|i: int| 0 <= i < s.tabs.len() && is_duplicates_of(#[trigger] s.tabs[i], pi)
}

/// The state with a new page in front.
pub open spec fn with_page(s: State, t: TabModel) -> State {
    State { tabs: s.tabs.push(t), active: s.tabs.len() as int, ..s }
}

/// The page of the extensions on a disk.
pub open spec fn extensions_page(s: State, pi: usize) -> TabModel {
    let t = s.partitions[pi as int];
    TabModel::Extensions(
        new_page(pi, t.name, extension_tree(files_of(t, trimmed(path_of(s, pi as int))))),
    )
}

/// The page of a search that was just begun: its tree is empty.
pub open spec fn search_page(s: State, pi: usize) -> TabModel {
    TabModel::Duplicates(
        new_page(
            pi,
            s.partitions[pi as int].name,
            folder_of(
                Seq::empty(),
                Color { r: 0xFF, g: 0xFF, b: 0xFF },
                Seq::empty(),
                0,
                0,
                0,
                0x10,
                0,
                false,
                Seq::empty(),
            ),
        ),
        Some((HashPhase::Prefilter, 0, 0)),
    )
}

/// Which tree something is to be deleted from, once page `i` was closed and those behind it have
/// moved up.
pub open spec fn source_after_close(source: DeleteSource, i: int) -> DeleteSource {
    match source {
        DeleteSource::Main => DeleteSource::Main,
        DeleteSource::Closed => DeleteSource::Closed,
        DeleteSource::Tab(j) => if j < i {
            source
        } else if j == i {
            DeleteSource::Closed
        } else {
            DeleteSource::Tab((j - 1) as usize)
        },
    }
}

/// What is to be deleted, once page `i` was closed: the same, from the same tree.
pub open spec fn doomed_after_close(d: Option<Doomed>, i: int) -> Option<Doomed> {
    match d {
        Some(x) => Some(Doomed { source: source_after_close(x.source, i), ..x }),
        None => None,
    }
}

/// The state once page `i` was closed: the page that is in front stays in front, unless it is the
/// one that was closed; and what is to be deleted from a page stays with that page.
pub open spec fn tab_closed(s: State, i: int) -> State {
    let tabs = s.tabs.remove(i);
    State {
        tabs,
        active: if s.active >= tabs.len() {
            tabs.len() - 1
        } else if s.active > i {
            s.active - 1
        } else {
            s.active
        },
        pending: doomed_after_close(s.pending, i),
        deleting: doomed_after_close(s.deleting, i),
        ..s
    }
}

/// Keeps what is to be deleted with its page when page `i` is closed.
fn follow_close(d: &mut Option<PendingDelete>, i: usize)
    ensures
        opt_doomed(*final(d)) == doomed_after_close(opt_doomed(*old(d)), i as int),
{
    match d.take() {
        Some(x) => {
            let source = match x.source {
                DeleteSource::Main => DeleteSource::Main,
                DeleteSource::Closed => DeleteSource::Closed,
                DeleteSource::Tab(j) => if j < i {
                    DeleteSource::Tab(j)
                } else if j == i {
                    DeleteSource::Closed
                } else {
                    DeleteSource::Tab(j - 1)
                },
            };
            *d = Some(PendingDelete { source, ..x });
        },
        None => {},
    }
}

impl Session {
    fn find_tab(&self, pi: usize, duplicates: bool) -> (r: Option<usize>)
        ensures
            match r {
                Some(i) => i < self@.tabs.len() && is_wanted(self@.tabs[i as int], pi, duplicates),
                None => forall|i: int| 0 <= i < self@.tabs.len() ==> !is_wanted(#[trigger] self@.tabs[i], pi, duplicates),
            },
    {
        let mut i: usize = 0;
        while i < self.tabs.len()
            invariant
                i <= self.tabs@.len(),
                forall|k: int| 0 <= k < i ==> !is_wanted(#[trigger] self@.tabs[k], pi, duplicates),
            decreases self.tabs@.len() - i,
        {
            let hit = match &self.tabs[i] {
                Tab::Main => false,
                Tab::Extensions(a) => !duplicates && a.partition_idx == pi,
                Tab::Duplicates(a, _) => duplicates && a.partition_idx == pi,
            };
            assert(self@.tabs[i as int] == self.tabs@[i as int]@);
            if hit {
                return Some(i);
            }
            i = i + 1;
        }
        None
    }

    fn root_path_of(&self, pi: usize) -> (r: String)
        ensures
            r@ == path_of(self@, pi as int),
    {
        if pi < self.partition_root_paths.len() {
            self.partition_root_paths[pi].clone()
        } else {
            String::new()
        }
    }

    /// Puts a new page in front.
    fn push_tab(&mut self, tab: Tab)
        requires
            old(self).well_formed(),
            tab.well_formed(),
            !(tab@ is Main),
            forall|i: int| 0 <= i < old(self)@.tabs.len() ==> !same_analysis(#[trigger] old(self)@.tabs[i], tab@),
        ensures
            final(self).well_formed(),
            final(self)@ == with_page(old(self)@, tab@),
    {
        let ghost before = *self;
        self.tabs.push(tab);
        self.active_tab = self.tabs.len() - 1;
        proof {
            assert(tab_models(self.tabs@) =~= before@.tabs.push(tab@));
            assert(self@ =~= with_page(before@, tab@));
        }
    }

    /// Shows the files of a disk by extension: on the page that does so, or on a new one.
    pub fn open_extension_tab(&mut self, pi: usize) -> (r: TabOutcome)
        requires
            old(self).well_formed(),
        ensures
            final(self).well_formed(),
            match r {
                TabOutcome::Switched => exists|i: int|
                    0 <= i < old(self)@.tabs.len() && is_extensions_of(#[trigger] old(self)@.tabs[i], pi)
                        && final(self)@ == (State { active: i, ..old(self)@ }),
                TabOutcome::Opened => {
                    &&& !shows_extensions(old(self)@, pi)
                    &&& pi < old(self)@.partitions.len()
                    &&& ext_groups_fit(
                        files_of(old(self)@.partitions[pi as int], trimmed(path_of(old(self)@, pi as int))),
                    )
                    &&& final(self)@ == with_page(old(self)@, extensions_page(old(self)@, pi))
                },
                TabOutcome::NoPartition => {
                    &&& !shows_extensions(old(self)@, pi)
                    &&& pi >= old(self)@.partitions.len()
                    &&& final(self)@ == old(self)@
                },
                TabOutcome::TooLarge => {
                    &&& !shows_extensions(old(self)@, pi)
                    &&& pi < old(self)@.partitions.len()
                    &&& !ext_groups_fit(
                        files_of(old(self)@.partitions[pi as int], trimmed(path_of(old(self)@, pi as int))),
                    )
                    &&& final(self)@ == old(self)@
                },
            },
    {
        let ghost before = self@;
        match self.find_tab(pi, false) {
            Some(i) => {
                self.active_tab = i;
                assert(is_extensions_of(before.tabs[i as int], pi));
                assert(self@ =~= (State { active: i as int, ..before }));
                return TabOutcome::Switched;
            },
            None => {
                assert forall|i: int| 0 <= i < before.tabs.len() implies !is_extensions_of(
                    #[trigger] before.tabs[i],
                    pi,
                ) by {
                    assert(!is_wanted(before.tabs[i], pi, false));
                }
            },
        }
        if pi >= self.partitions.len() {
            return TabOutcome::NoPartition;
        }
        let path = self.root_path_of(pi);
        let title = self.partitions[pi].name.clone();
        match build_extension_tree(&self.partitions[pi], path.as_str()) {
            Ok(root) => {
                let tab = Tab::Extensions(Analysis::new(pi, title, root));
                assert(tab@ == extensions_page(before, pi));
                self.push_tab(tab);
                TabOutcome::Opened
            },
            Err(_) => TabOutcome::TooLarge,
        }
    }

    /// Shows the duplicates on a disk: on the page that does so, or on a new one, for which a search
    /// has to be made.
    pub fn open_duplicate_tab(&mut self, pi: usize) -> (r: SearchOutcome)
        requires
            old(self).well_formed(),
        ensures
            final(self).well_formed(),
            match r {
                SearchOutcome::Switched => exists|i: int|
                    0 <= i < old(self)@.tabs.len() && is_duplicates_of(#[trigger] old(self)@.tabs[i], pi)
                        && final(self)@ == (State { active: i, ..old(self)@ }),
                SearchOutcome::Started(c) => {
                    &&& !shows_duplicates(old(self)@, pi)
                    &&& pi < old(self)@.partitions.len()
                    &&& are_candidates(c, old(self)@.partitions[pi as int], path_of(old(self)@, pi as int))
                    &&& final(self)@ == with_page(old(self)@, search_page(old(self)@, pi))
                },
                SearchOutcome::NoPartition => {
                    &&& !shows_duplicates(old(self)@, pi)
                    &&& pi >= old(self)@.partitions.len()
                    &&& final(self)@ == old(self)@
                },
            },
    {
        let ghost before = self@;
        match self.find_tab(pi, true) {
            Some(i) => {
                self.active_tab = i;
                assert(is_duplicates_of(before.tabs[i as int], pi));
                assert(self@ =~= (State { active: i as int, ..before }));
                return SearchOutcome::Switched;
            },
            None => {
                assert forall|i: int| 0 <= i < before.tabs.len() implies !is_duplicates_of(
                    #[trigger] before.tabs[i],
                    pi,
                ) by {
                    assert(!is_wanted(before.tabs[i], pi, true));
                }
            },
        }
        if pi >= self.partitions.len() {
            return SearchOutcome::NoPartition;
        }
        let path = self.root_path_of(pi);
        let title = self.partitions[pi].name.clone();
        let candidates = collect_duplicate_candidates(&self.partitions[pi], path.as_str());
        let none: Vec<Node> = Vec::new();
        proof {
            reveal_with_fuel(crate::order::total, 1);
            assert(trees(none@) =~= Seq::empty());
        }
        let root = Node::new_folder(String::new(), Color { r: 0xFF, g: 0xFF, b: 0xFF }, none);
        let tab = Tab::Duplicates(Analysis::new(pi, title, root), Some((HashPhase::Prefilter, 0, 0)));
        assert(tab@ == search_page(before, pi));
        self.push_tab(tab);
        SearchOutcome::Started(candidates)
    }

    /// Takes in a message of a search on disk `pi`. If no page shows the duplicates on that disk,
    /// nothing changes.
    pub fn duplicate_message(&mut self, pi: usize, msg: DuplicateMessage)
        requires
            old(self).well_formed(),
        ensures
            final(self).well_formed(),
            !shows_duplicates(old(self)@, pi) ==> final(self)@ == old(self)@,
            forall|i: int|
                0 <= i < old(self)@.tabs.len() && is_duplicates_of(#[trigger] old(self)@.tabs[i], pi)
                    ==> final(self)@ == (State {
                    tabs: old(self)@.tabs.update(i, tab_told(old(self)@.tabs[i], msg)),
                    ..old(self)@
                }),
    {
        let ghost before = *self;
        match self.find_tab(pi, true) {
            Some(i) => {
                assert(before.tabs@[i as int].well_formed());
                self.tabs[i].tell(msg);
                proof {
                    let t = self.tabs@[i as int];
                    assert(self.tabs@ =~= before.tabs@.update(i as int, t));
                    assert(tab_models(self.tabs@) =~= before@.tabs.update(i as int, t@));
                    assert(is_duplicates_of(before@.tabs[i as int], pi));
                    assert forall|j: int| 0 <= j < before@.tabs.len() && is_duplicates_of(#[trigger] before@.tabs[j], pi) implies j
                        == i by {
                        if j < i {
                            assert(same_analysis(before@.tabs[j], before@.tabs[i as int]));
                        } else if i < j {
                            assert(same_analysis(before@.tabs[i as int], before@.tabs[j]));
                        }
                    }
                    assert forall|a: int, b: int| 0 <= a < b < self@.tabs.len() implies !same_analysis(
                        #[trigger] self@.tabs[a],
                        #[trigger] self@.tabs[b],
                    ) by {
                        assert(!same_analysis(before@.tabs[a], before@.tabs[b]));
                    }
                    assert(self@ =~= (State { tabs: before@.tabs.update(i as int, t@), ..before@ }));
                }
            },
            None => {
                assert forall|i: int| 0 <= i < before@.tabs.len() implies !is_duplicates_of(
                    #[trigger] before@.tabs[i],
                    pi,
                ) by {
                    assert(!is_wanted(before@.tabs[i], pi, true));
                }
            },
        }
    }

    /// Brings a page to the front.
    pub fn select_tab(&mut self, i: usize)
        requires
            old(self).well_formed(),
            i < old(self)@.tabs.len(),
        ensures
            final(self).well_formed(),
            final(self)@ == (State { active: i as int, ..old(self)@ }),
    {
        self.active_tab = i;
    }

    /// Closes an analysis. What is to be deleted from a page stays with that page.
    pub fn close_tab(&mut self, i: usize)
        requires
            old(self).well_formed(),
            1 <= i < old(self)@.tabs.len(),
        ensures
            final(self).well_formed(),
            final(self)@ == tab_closed(old(self)@, i as int),
    {
        let ghost before = *self;
        let _ = self.tabs.remove(i);
        if self.active_tab >= self.tabs.len() {
            self.active_tab = self.tabs.len() - 1;
        } else if self.active_tab > i {
            self.active_tab = self.active_tab - 1;
        }
        follow_close(&mut self.pending_delete, i);
        follow_close(&mut self.deleting, i);
        proof {
            assert(tab_models(self.tabs@) =~= before@.tabs.remove(i as int));
            assert(self@ =~= tab_closed(before@, i as int));
            assert forall|a: int, b: int| 0 <= a < b < self@.tabs.len() implies !same_analysis(
                #[trigger] self@.tabs[a],
                #[trigger] self@.tabs[b],
            ) by {
                let x = if a < i { a } else { a + 1 };
                let y = if b < i { b } else { b + 1 };
                assert(!same_analysis(before@.tabs[x], before@.tabs[y]));
            }
            assert forall|a: int| 1 <= a < self@.tabs.len() implies !((#[trigger] self@.tabs[a]) is Main) by {
                let x = if a < i { a } else { a + 1 };
                assert(!(before@.tabs[x] is Main));
            }
        }
    }
}

/// Whether a tab shows the duplicates, or the extensions, on disk `pi`.
spec fn is_wanted(t: TabModel, pi: usize, duplicates: bool) -> bool {
    if duplicates {
        is_duplicates_of(t, pi)
    } else {
        is_extensions_of(t, pi)
    }
}

/// Closing a page leaves the one in front where it is, unless that is the one that is closed.
pub proof fn law_closing_keeps_the_page_in_front(s: State, i: int)
    requires
        sound(s),
        1 <= i < s.tabs.len(),
    ensures
        sound(tab_closed(s, i)),
        s.active != i ==> tab_closed(s, i).tabs[tab_closed(s, i).active] == s.tabs[s.active],
{
    let e = tab_closed(s, i);
    assert forall|a: int, b: int| 0 <= a < b < e.tabs.len() implies !same_analysis(
        #[trigger] e.tabs[a],
        #[trigger] e.tabs[b],
    ) by {
        let x = if a < i { a } else { a + 1 };
        let y = if b < i { b } else { b + 1 };
        assert(!same_analysis(s.tabs[x], s.tabs[y]));
    }
    assert forall|a: int| 1 <= a < e.tabs.len() implies !((#[trigger] e.tabs[a]) is Main) by {
        let x = if a < i { a } else { a + 1 };
        assert(!(s.tabs[x] is Main));
    }
}

// ---------------------------------------------------------------------------------------------
// What the user does in a tree
// ---------------------------------------------------------------------------------------------

/// A question who keeps something open.
pub struct LockQuestion {
    pub name: String,
    pub full_path: String,
    pub is_folder: bool,
}

/// A page with another selection.
pub open spec fn tab_selecting(t: TabModel, at: Seq<usize>) -> TabModel {
    match t {
        TabModel::Main => t,
        TabModel::Extensions(p) => TabModel::Extensions(Page { selected: Some(at), ..p }),
        TabModel::Duplicates(p, l) => TabModel::Duplicates(Page { selected: Some(at), ..p }, l),
    }
}

/// A page after a click on the node at `at`.
pub open spec fn tab_clicked(t: TabModel, at: Seq<usize>) -> TabModel {
    match t {
        TabModel::Main => t,
        TabModel::Extensions(p) => TabModel::Extensions(page_clicked(p, at)),
        TabModel::Duplicates(p, l) => TabModel::Duplicates(page_clicked(p, at), l),
    }
}

/// The state with the page in front replaced.
pub open spec fn with_front(s: State, t: TabModel) -> State {
    State { tabs: s.tabs.update(s.active, t), ..s }
}

/// The state once the node at `at` is selected, in the list or on the page in front.
pub open spec fn node_selected(s: State, at: Seq<usize>) -> State {
    if s.tabs[s.active] is Main {
        State { selected: Some(at), ..s }
    } else {
        with_front(s, tab_selecting(s.tabs[s.active], at))
    }
}

/// The state once the node at `at` was opened or closed, in the list or on the page in front.
pub open spec fn node_clicked(s: State, at: Seq<usize>) -> State {
    if s.tabs[s.active] is Main {
        State {
            partitions: if at.len() > 0 && at[0] < s.partitions.len() {
                s.partitions.update(at[0] as int, tree_clicked(s.partitions[at[0] as int], at))
            } else {
                s.partitions
            },
            version: next_version(s.version),
            selected: Some(at),
            ..s
        }
    } else {
        with_front(s, tab_clicked(s.tabs[s.active], at))
    }
}

/// The state after what the user did in the tree in front.
pub open spec fn acted(s: State, action: TreeAction) -> State {
    match action {
        TreeAction::Nothing => s,
        TreeAction::Select(p) => node_selected(s, p@),
        TreeAction::EnterNode(p) => node_selected(s, p@),
        TreeAction::ToggleExpand(p) => node_clicked(s, p@),
        TreeAction::RequestDelete { abs_path, name, full_path, is_folder } => State {
            pending: Some(
                Doomed {
                    source: if s.tabs[s.active] is Main {
                        DeleteSource::Main
                    } else {
                        DeleteSource::Tab(s.active as usize)
                    },
                    at: abs_path@,
                    name: name@,
                    full_path: full_path@,
                    is_folder,
                },
            ),
            ..s
        },
        TreeAction::RequestCheckLock { abs_path, name, full_path, is_folder } => s,
    }
}

/// A change of the page in front, to the same analysis, keeps what holds of every state.
proof fn lemma_front_sound(s: State, t: TabModel)
    requires
        sound(s),
        !(s.tabs[s.active] is Main),
        !(t is Main),
        t is Extensions == s.tabs[s.active] is Extensions,
        forall|pi: usize| is_extensions_of(t, pi) == is_extensions_of(s.tabs[s.active], pi),
        forall|pi: usize| is_duplicates_of(t, pi) == is_duplicates_of(s.tabs[s.active], pi),
    ensures
        sound(with_front(s, t)),
{
    let e = with_front(s, t);
    assert forall|a: int, b: int| 0 <= a < b < e.tabs.len() implies !same_analysis(
        #[trigger] e.tabs[a],
        #[trigger] e.tabs[b],
    ) by {
        assert(!same_analysis(s.tabs[a], s.tabs[b]));
        if a == s.active {
            match s.tabs[b] {
                TabModel::Extensions(q) => {
                    assert(is_extensions_of(t, q.partition) == is_extensions_of(s.tabs[a], q.partition));
                },
                TabModel::Duplicates(q, _) => {
                    assert(is_duplicates_of(t, q.partition) == is_duplicates_of(s.tabs[a], q.partition));
                },
                TabModel::Main => {},
            }
        } else if b == s.active {
            match s.tabs[a] {
                TabModel::Extensions(q) => {
                    assert(is_extensions_of(t, q.partition) == is_extensions_of(s.tabs[b], q.partition));
                },
                TabModel::Duplicates(q, _) => {
                    assert(is_duplicates_of(t, q.partition) == is_duplicates_of(s.tabs[b], q.partition));
                },
                TabModel::Main => {},
            }
        }
    }
}

impl Session {
    fn front_is_main(&self) -> (r: bool)
        requires
            self.well_formed(),
        ensures
            r == self@.tabs[self@.active] is Main,
    {
        match &self.tabs[self.active_tab] {
            Tab::Main => true,
            _ => false,
        }
    }

    fn select_node(&mut self, at: NodePath)
        requires
            old(self).well_formed(),
        ensures
            final(self).well_formed(),
            final(self)@ == node_selected(old(self)@, at@),
    {
        let ghost before = *self;
        let k: usize = self.active_tab;
        assert(before.tabs@[k as int].well_formed());
        if self.front_is_main() {
            self.selected = Some(at);
            assert(self@ =~= node_selected(before@, at@));
            return;
        }
        match &mut self.tabs[k] {
            Tab::Main => {},
            Tab::Extensions(a) => {
                a.selected = Some(at);
            },
            Tab::Duplicates(a, _) => {
                a.selected = Some(at);
            },
        }
        proof {
            let t = self.tabs@[k as int];
            assert(self.tabs@ =~= before.tabs@.update(k as int, t));
            assert(t@ == tab_selecting(before@.tabs[k as int], at@));
            assert(tab_models(self.tabs@) =~= before@.tabs.update(k as int, t@));
            assert(self@ =~= node_selected(before@, at@));
            lemma_front_sound(before@, t@);
        }
    }

    fn click_node(&mut self, at: NodePath)
        requires
            old(self).well_formed(),
            !(old(self)@.tabs[old(self)@.active] is Main) ==> at@.len() >= 1,
        ensures
            final(self).well_formed(),
            final(self)@ == node_clicked(old(self)@, at@),
    {
        let ghost before = *self;
        let k: usize = self.active_tab;
        assert(before.tabs@[k as int].well_formed());
        if self.front_is_main() {
            if at.len() > 0 && at[0] < self.partitions.len() {
                let pi: usize = at[0];
                click_tree(&mut self.partitions[pi], &at);
                proof {
                    let t = self.partitions@[pi as int];
                    assert(self.partitions@ =~= before.partitions@.update(pi as int, t));
                    assert(trees(self.partitions@) =~= before@.partitions.update(pi as int, t@));
                }
            }
            self.bump();
            self.selected = Some(at);
            assert(self@ =~= node_clicked(before@, at@));
            return;
        }
        let ghost way = at@;
        match &mut self.tabs[k] {
            Tab::Main => {},
            Tab::Extensions(a) => {
                a.click(at);
            },
            Tab::Duplicates(a, _) => {
                a.click(at);
            },
        }
        proof {
            let t = self.tabs@[k as int];
            assert(self.tabs@ =~= before.tabs@.update(k as int, t));
            assert(t@ == tab_clicked(before@.tabs[k as int], way));
            assert(tab_models(self.tabs@) =~= before@.tabs.update(k as int, t@));
            assert(self@ =~= node_clicked(before@, way));
            lemma_front_sound(before@, t@);
        }
    }

    /// Does what the user asked for in the tree in front: the list of disks or an analysis, each of
    /// which has its own selection. Deleting only comes up for confirmation. A question who keeps
    /// something open is handed back.
    pub fn apply_tree_action(&mut self, action: TreeAction) -> (question: Option<LockQuestion>)
        requires
            old(self).well_formed(),
            match action {
                TreeAction::ToggleExpand(p) => !(old(self)@.tabs[old(self)@.active] is Main) ==> p@.len() >= 1,
                _ => true,
            },
        ensures
            final(self).well_formed(),
            final(self)@ == acted(old(self)@, action),
            match action {
                TreeAction::RequestCheckLock { abs_path, name, full_path, is_folder } => {
                    &&& question is Some
                    &&& question->0.name == name
                    &&& question->0.full_path == full_path
                    &&& question->0.is_folder == is_folder
                },
                _ => question is None,
            },
    {
        match action {
            TreeAction::Nothing => None,
            TreeAction::Select(p) => {
                self.select_node(p);
                None
            },
            TreeAction::EnterNode(p) => {
                self.select_node(p);
                None
            },
            TreeAction::ToggleExpand(p) => {
                self.click_node(p);
                None
            },
            TreeAction::RequestDelete { abs_path, name, full_path, is_folder } => {
                let source = if self.front_is_main() {
                    DeleteSource::Main
                } else {
                    DeleteSource::Tab(self.active_tab)
                };
                self.pending_delete = Some(PendingDelete { source, abs_path, name, full_path, is_folder });
                None
            },
            TreeAction::RequestCheckLock { abs_path, name, full_path, is_folder } => Some(
                LockQuestion { name, full_path, is_folder },
            ),
        }
    }
}

// ---------------------------------------------------------------------------------------------
// Deleting
// ---------------------------------------------------------------------------------------------

/// A page after the node at `at` was deleted.
pub open spec fn tab_without(t: TabModel, at: Seq<usize>) -> TabModel {
    match t {
        TabModel::Main => t,
        TabModel::Extensions(p) => TabModel::Extensions(page_without(p, at)),
        TabModel::Duplicates(p, l) => TabModel::Duplicates(page_without(p, at), l),
    }
}

/// The state once `d` is deleted. It is taken out of the tree that it was to be deleted from, and
/// no other; if that was closed meanwhile, there is nothing to change.
pub open spec fn after_delete(s: State, d: Doomed) -> State {
    let told = Some("已删除到回收站: "@ + d.name);
    match d.source {
        DeleteSource::Main => State {
            partitions: if d.at.len() >= 2 && d.at[0] < s.partitions.len() {
                s.partitions.update(d.at[0] as int, tree_without(s.partitions[d.at[0] as int], d.at))
            } else {
                s.partitions
            },
            selected: if s.selected == Some(d.at) {
                None
            } else {
                s.selected
            },
            version: next_version(s.version),
            message: told,
            deleting: None,
            ..s
        },
        DeleteSource::Closed => State { deleting: None, ..s },
        DeleteSource::Tab(i) => if i >= s.tabs.len() || s.tabs[i as int] is Main {
            State { deleting: None, ..s }
        } else {
            State {
                tabs: s.tabs.update(i as int, tab_without(s.tabs[i as int], d.at)),
                message: told,
                deleting: None,
                ..s
            }
        },
    }
}

/// The state once the user has confirmed: what was up for confirmation is being deleted. While
/// something else is, it has to wait.
pub open spec fn delete_begun(s: State) -> State {
    if s.deleting is None && s.pending is Some {
        State { pending: None, deleting: s.pending, ..s }
    } else {
        s
    }
}

/// The state once deleting has ended, with an error or without; without a word the attempt itself
/// broke down.
pub open spec fn delete_over(s: State, result: Option<Result<(), String>>) -> State {
    match s.deleting {
        None => s,
        Some(d) => match result {
            Some(Ok(_)) => after_delete(s, d),
            Some(Err(e)) => State {
                message: Some("删除失败 ("@ + d.name + "): "@ + e@),
                deleting: None,
                ..s
            },
            None => State {
                message: Some("删除失败 ("@ + d.name + "): "@ + "删除线程异常退出"@),
                deleting: None,
                ..s
            },
        },
    }
}

impl Session {
    /// What was to be deleted is kept.
    pub fn cancel_delete(&mut self)
        requires
            old(self).well_formed(),
        ensures
            final(self).well_formed(),
            final(self)@ == (State { pending: None, ..old(self)@ }),
    {
        self.pending_delete = None;
    }

    /// The user has confirmed. Returns the path to delete, unless nothing is up for confirmation or
    /// something is being deleted already: only one thing is at a time.
    pub fn execute_pending_delete(&mut self) -> (path: Option<String>)
        requires
            old(self).well_formed(),
        ensures
            final(self).well_formed(),
            final(self)@ == delete_begun(old(self)@),
            match path {
                Some(p) => {
                    &&& old(self)@.deleting is None
                    &&& old(self)@.pending is Some
                    &&& p@ == old(self)@.pending->0.full_path
                },
                None => old(self)@.deleting is Some || old(self)@.pending is None,
            },
    {
        if self.deleting.is_some() {
            return None;
        }
        match self.pending_delete.take() {
            Some(d) => {
                let path = d.full_path.clone();
                self.deleting = Some(d);
                Some(path)
            },
            None => None,
        }
    }

    /// Deleting has ended: what is gone from the disk is taken out of the tree that it was deleted
    /// from, and the user is told. `result` is missing where the attempt broke down.
    pub fn delete_finished(&mut self, result: Option<Result<(), String>>)
        requires
            old(self).well_formed(),
        ensures
            final(self).well_formed(),
            final(self)@ == delete_over(old(self)@, result),
    {
        let ghost before = *self;
        let d = match self.deleting.take() {
            Some(d) => d,
            None => {
                assert(self@ =~= before@);
                return;
            },
        };
        let error: Option<String> = match result {
            Some(Ok(_)) => None,
            Some(Err(e)) => Some(e),
            None => Some(owned("删除线程异常退出")),
        };
        if let Some(e) = error {
            let mut s = owned("删除失败 (");
            s.append(d.name.as_str());
            s.append("): ");
            s.append(e.as_str());
            self.scan_error = Some(s);
            proof {
                assert(self@ =~= delete_over(before@, result));
            }
            return;
        }
        let mut told = owned("已删除到回收站: ");
        told.append(d.name.as_str());
        match d.source {
            DeleteSource::Main => {
                if d.abs_path.len() >= 2 && d.abs_path[0] < self.partitions.len() {
                    let pi: usize = d.abs_path[0];
                    remove_from_tree(&mut self.partitions[pi], &d.abs_path);
                    proof {
                        let t = self.partitions@[pi as int];
                        assert(self.partitions@ =~= before.partitions@.update(pi as int, t));
                        assert(trees(self.partitions@) =~= before@.partitions.update(pi as int, t@));
                    }
                }
                if is_selected(&self.selected, &d.abs_path) {
                    self.selected = None;
                }
                self.bump();
                self.scan_error = Some(told);
                assert(self@ =~= after_delete(before@, d@));
            },
            DeleteSource::Closed => {
                assert(self@ =~= after_delete(before@, d@));
            },
            DeleteSource::Tab(i) => {
                if i >= self.tabs.len() {
                    assert(self@ =~= after_delete(before@, d@));
                    return;
                }
                assert(before.tabs@[i as int].well_formed());
                assert(before@.tabs[i as int] == before.tabs@[i as int]@);
                match &mut self.tabs[i] {
                    Tab::Main => {
                        assert(self@ =~= after_delete(before@, d@));
                        return;
                    },
                    Tab::Extensions(a) => {
                        a.remove(&d.abs_path);
                    },
                    Tab::Duplicates(a, _) => {
                        a.remove(&d.abs_path);
                    },
                }
                self.scan_error = Some(told);
                proof {
                    let t = self.tabs@[i as int];
                    assert(self.tabs@ =~= before.tabs@.update(i as int, t));
                    assert(t@ == tab_without(before@.tabs[i as int], d@.at));
                    assert(tab_models(self.tabs@) =~= before@.tabs.update(i as int, t@));
                    assert(self@ =~= after_delete(before@, d@));
                    lemma_front_sound(State { active: i as int, ..before@ }, t@);
                    let e = with_front(State { active: i as int, ..before@ }, t@);
                    assert(self@.tabs =~= e.tabs);
                }
            },
        }
    }
}

/// Whether `a` and `b` are the same thing to delete, though the pages may have moved.
pub open spec fn same_target(a: Option<Doomed>, b: Option<Doomed>) -> bool {
    match (a, b) {
        (Some(x), Some(y)) => x.at == y.at && x.name == y.name && x.full_path == y.full_path && x.is_folder
            == y.is_folder,
        (None, None) => true,
        _ => false,
    }
}

/// Nothing is deleted that the user has not confirmed: a confirmation begins to delete what was up
/// for it, and only if nothing else is being deleted. No other change of the state begins to delete
/// anything: not what the user does in a tree, not a page that is opened or closed, not a scan, and
/// not the end of a deletion. And only a request of the user puts something up for confirmation.
pub proof fn law_only_the_confirmed_is_deleted(
    s: State,
    action: TreeAction,
    page: TabModel,
    i: int,
    paths: Seq<Seq<char>>,
    msg: ScanMessage,
    told: State,
    result: Option<Result<(), String>>,
)
    requires
        sound(s),
    ensures
        delete_begun(s).deleting == if s.deleting is Some {
            s.deleting
        } else {
            s.pending
        },
        acted(s, action).deleting == s.deleting,
        !(action is RequestDelete) ==> acted(s, action).pending == s.pending,
        action is RequestDelete ==> acted(s, action) == (State { pending: acted(s, action).pending, ..s }),
        with_page(s, page).deleting == s.deleting && with_page(s, page).pending == s.pending,
        same_target(tab_closed(s, i).deleting, s.deleting) && same_target(tab_closed(s, i).pending, s.pending),
        batch_added(s, paths).deleting == s.deleting && batch_added(s, paths).pending == s.pending,
        scan_over(s).deleting == s.deleting && scan_over(s).pending == s.pending,
        scan_told(s, msg, told) ==> told.deleting == s.deleting && told.pending == s.pending,
        delete_over(s, result).deleting is None && delete_over(s, result).pending == s.pending,
{
}

/// One thing is deleted at a time: while something is, no confirmation changes anything.
pub proof fn law_one_thing_is_deleted_at_a_time(s: State)
    requires
        s.deleting is Some,
    ensures
        delete_begun(s) == s,
{
}

/// Whether something is to be deleted from page `k`.
pub open spec fn is_from_page(d: Doomed, k: int) -> bool {
    match d.source {
        DeleteSource::Tab(j) => j == k,
        _ => false,
    }
}

/// Whether a deletion ended well.
pub open spec fn succeeded(result: Option<Result<(), String>>) -> bool {
    match result {
        Some(Ok(_)) => true,
        _ => false,
    }
}

/// A finished deletion changes no tree but the one that it was asked for in: not one of the other
/// disks, and not one of the other pages; nor any at all if it failed, or if its page was closed.
pub proof fn law_a_deletion_changes_its_own_tree_only(s: State, result: Option<Result<(), String>>)
    requires
        sound(s),
        s.deleting is Some,
    ensures
        ({
            let d = s.deleting->0;
            let e = delete_over(s, result);
            &&& sound(e)
            &&& e.deleting is None
            &&& e.tabs.len() == s.tabs.len()
            &&& e.partitions.len() == s.partitions.len()
            &&& forall|k: int|
                0 <= k < s.tabs.len() && !is_from_page(d, k) ==> e.tabs[k] == #[trigger] s.tabs[k]
            &&& forall|p: int|
                0 <= p < s.partitions.len() && !(d.source is Main && d.at.len() >= 2 && d.at[0] == p)
                    ==> e.partitions[p] == #[trigger] s.partitions[p]
            &&& d.source is Closed && succeeded(result) ==> e == (State { deleting: None, ..s })
            &&& !succeeded(result) ==> e.tabs == s.tabs && e.partitions == s.partitions
        }),
{
    let d = s.deleting->0;
    if succeeded(result) {
        if let DeleteSource::Tab(j) = d.source {
            let t = tab_without(s.tabs[j as int], d.at);
            lemma_front_sound(State { active: j as int, ..s }, t);
            assert(delete_over(s, result).tabs =~= with_front(State { active: j as int, ..s }, t).tabs);
        }
    }
}

/// Closing a page does not lead a deletion astray. One that was asked for on another page goes on in
/// that page, wherever it stands now; one that was asked for on the page that is closed changes
/// nothing when it is done; and either way all other pages are as they were.
pub proof fn law_closing_keeps_deletions_on_their_page(s: State, i: int)
    requires
        sound(s),
        1 <= i < s.tabs.len(),
        s.deleting is Some,
    ensures
        ({
            let d = s.deleting->0;
            let c = tab_closed(s, i);
            let e = delete_over(c, Some(Ok::<(), String>(())));
            let moved = |k: int| if k < i { k } else { k - 1 };
            &&& same_target(c.deleting, s.deleting)
            &&& is_from_page(d, i) ==> e == (State { deleting: None, ..c })
            &&& d.source is Main ==> e.tabs == c.tabs
            &&& forall|k: int|
                0 <= k < s.tabs.len() && k != i ==> e.tabs[moved(k)] == if is_from_page(d, k) {
                    tab_without(#[trigger] s.tabs[k], d.at)
                } else {
                    s.tabs[k]
                }
        }),
{
    let d = s.deleting->0;
    let c = tab_closed(s, i);
    let e = delete_over(c, Some(Ok::<(), String>(())));
    let moved = |k: int| if k < i { k } else { k - 1 };
    law_closing_keeps_the_page_in_front(s, i);
    law_a_deletion_changes_its_own_tree_only(c, Some(Ok::<(), String>(())));
    assert forall|k: int| 0 <= k < s.tabs.len() && k != i implies e.tabs[moved(k)] == if is_from_page(
        d,
        k,
    ) {
        tab_without(#[trigger] s.tabs[k], d.at)
    } else {
        s.tabs[k]
    } by {
        assert(c.tabs[moved(k)] == s.tabs[k]);
    }
}

/// Whatever happens to what was scanned, the lists about it keep one entry for each tree.
pub proof fn law_lists_stay_side_by_side(s: State, msg: ScanMessage, e: State)
    requires
        sound(s),
        scan_told(s, msg, e),
    ensures
        e.infos.len() == e.partitions.len(),
        e.categories.len() == e.partitions.len(),
        e.root_paths.len() == e.partitions.len(),
        sound(e),
{
}

/// Scans are made one after the other, in the order in which they were asked for, until none waits.
pub proof fn law_scans_take_turns(s: State, paths: Seq<Seq<char>>)
    requires
        sound(s),
    ensures
        sound(batch_added(s, paths)),
        sound(scan_over(s)),
        s.scanning ==> batch_added(s, paths).queue == s.queue + paths && batch_added(s, paths).current == s.current,
        !s.scanning && paths.len() > 0 ==> batch_added(s, paths).current == Some(paths[0]) && batch_added(
            s,
            paths,
        ).queue == paths.skip(1),
        s.queue.len() > 0 ==> scan_over(s).scanning && scan_over(s).current == Some(s.queue[0]) && scan_over(s).queue
            == s.queue.skip(1),
        s.queue.len() == 0 ==> !scan_over(s).scanning,
{
    if !s.scanning {
        assert(s.queue + paths =~= paths);
    }
}


/// A click in the list changes the disk that it falls on and no other, selects what was clicked, and
/// leaves all pages as they are. A click on a page leaves the list as it is, and every other page.
pub proof fn law_clicks_change_one_tree(s: State, at: Seq<usize>, k: int)
    requires
        sound(s),
        at.len() > 0,
    ensures
        ({
            let e = node_clicked(s, at);
            &&& e.partitions.len() == s.partitions.len()
            &&& e.tabs.len() == s.tabs.len()
            &&& s.tabs[s.active] is Main ==> {
                &&& e.selected == Some(at)
                &&& e.tabs == s.tabs
                &&& 0 <= k < s.partitions.len() && k != at[0] ==> e.partitions[k] == s.partitions[k]
                &&& at.len() == 1 && at[0] < s.partitions.len() ==> {
                    &&& e.partitions[at[0] as int].expanded != s.partitions[at[0] as int].expanded
                    &&& e.partitions[at[0] as int].children == s.partitions[at[0] as int].children
                }
                &&& s.version < u64::MAX ==> e.version > s.version
            }
            &&& !(s.tabs[s.active] is Main) ==> {
                &&& e.partitions == s.partitions
                &&& e.selected == s.selected
                &&& 0 <= k < s.tabs.len() && k != s.active ==> e.tabs[k] == s.tabs[k]
                &&& selected_on(e.tabs[s.active]) == Some(at)
            }
        }),
{
}

/// What is selected on a page.
pub open spec fn selected_on(t: TabModel) -> Option<Seq<usize>> {
    match t {
        TabModel::Main => None,
        TabModel::Extensions(p) => p.selected,
        TabModel::Duplicates(p, _) => p.selected,
    }
}

/// Selecting something changes no tree: neither the list nor what any page shows.
pub proof fn law_selecting_changes_no_tree(s: State, at: Seq<usize>, k: int)
    requires
        sound(s),
        0 <= k < s.tabs.len(),
    ensures
        ({
            let e = node_selected(s, at);
            &&& e.partitions == s.partitions
            &&& e.version == s.version
            &&& e.tabs.len() == s.tabs.len()
            &&& same_analysis_tree(e.tabs[k], s.tabs[k])
            &&& s.tabs[s.active] is Main ==> e.selected == Some(at) && e.tabs == s.tabs
            &&& !(s.tabs[s.active] is Main) ==> e.selected == s.selected && selected_on(e.tabs[s.active]) == Some(at)
        }),
{
}

/// Whether two pages show the same tree.
pub open spec fn same_analysis_tree(a: TabModel, b: TabModel) -> bool {
    match (a, b) {
        (TabModel::Main, TabModel::Main) => true,
        (TabModel::Extensions(p), TabModel::Extensions(q)) => p.root == q.root && p.title == q.title,
        (TabModel::Duplicates(p, l), TabModel::Duplicates(q, m)) => p.root == q.root && p.title == q.title && l == m,
        _ => false,
    }
}

/// A scan that ended well adds its disk behind those that are there, with what the system says of it
/// and the path that was scanned; the disks before it stay. A scan that failed adds nothing, and its
/// reason is told.
pub proof fn law_finished_scans_are_kept(s: State, msg: ScanMessage, e: State, k: int)
    requires
        sound(s),
        scan_told(s, msg, e),
        0 <= k < s.partitions.len(),
    ensures
        e.partitions[k] == s.partitions[k] && e.infos[k] == s.infos[k] && e.root_paths[k] == s.root_paths[k],
        match msg {
            ScanMessage::Progress(n) => e.scanned == n && e.partitions == s.partitions,
            ScanMessage::Done(node, info) => {
                let new = s.partitions.len() as int;
                &&& e.partitions.len() == new + 1 && e.partitions[new] == node@
                &&& e.infos[new] == opt_disk(info)
                &&& s.current is Some ==> e.root_paths[new] == s.current->0
                &&& e.selected is None
            },
            ScanMessage::Error(why) => e.partitions == s.partitions && e.message == Some(why@),
        },
{
}

/// What was deleted is not selected any more; any other selection stays.
pub proof fn law_the_deleted_is_not_selected(s: State, d: Doomed)
    ensures
        d.source is Main ==> {
            &&& after_delete(s, d).selected != Some(d.at)
            &&& s.selected != Some(d.at) ==> after_delete(s, d).selected == s.selected
        },
        match d.source {
            DeleteSource::Tab(i) => i < s.tabs.len() && !(s.tabs[i as int] is Main) ==> {
                let now = selected_on(after_delete(s, d).tabs[i as int]);
                let was = selected_on(s.tabs[i as int]);
                &&& now != Some(d.at)
                &&& was != Some(d.at) ==> now == was
            },
            _ => true,
        },
        after_delete(s, d).deleting is None,
{
}

/// A new page comes in front, behind all others, which stay as they are.
pub proof fn law_new_pages_come_in_front(s: State, t: TabModel, k: int)
    requires
        0 <= k < s.tabs.len(),
    ensures
        ({
            let e = with_page(s, t);
            &&& e.tabs.len() == s.tabs.len() + 1
            &&& e.tabs[e.active] == t
            &&& e.tabs[k] == s.tabs[k]
            &&& e.partitions == s.partitions
        }),
{
}

} // verus!
