//! The tree of files and folders.
//!
//! Every node keeps a logical and a physical size. A folder's sizes and counts are sums over its
//! children, worked out once, when the folder is made.
use vstd::prelude::*;

use crate::order::{stable_order, take_all, Ranking};
#[allow(unused_imports)]
use crate::order::{
    is_preorder, lemma_order_is_permutation, lemma_sorted, lemma_total_rearranged, order_of, precedes,
    sorted, taken_from, total,
};

verus! {

#[derive(Clone, Copy, PartialEq, Eq, Debug, Structural)]
pub enum NodeKind {
    File,
    Folder,
}

/// A color, by its red, green and blue parts.
#[derive(Clone, Copy, PartialEq, Eq, Debug, Structural)]
pub struct Color {
    pub r: u8,
    pub g: u8,
    pub b: u8,
}

/// Where a node stands in its tree: the child indices on the way down from the root.
pub type NodePath = Vec<usize>;

/// What a list can be sorted by.
#[derive(Clone, Copy, PartialEq, Eq, Debug, Structural)]
pub enum SortKey {
    Name,
    LogicalSize,
    PhysicalSize,
    Modified,
    Created,
    Accessed,
    Attributes,
    Owner,
    /// Of use only where nodes carry a path of their own.
    Path,
}

/// By what a list is sorted, and which way. Without a key it stays as it was built.
#[derive(Clone, Copy, PartialEq, Debug, Structural)]
pub struct SortState {
    pub key: Option<SortKey>,
    pub ascending: bool,
}

impl Default for SortState {
    fn default() -> (s: Self)
        ensures
            s.key is None,
            !s.ascending,
    {
        SortState { key: None, ascending: false }
    }
}

/// How much there is of one kind of files.
#[derive(Debug, Clone, Copy)]
pub struct CategoryStat {
    pub label: &'static str,
    pub size: u64,
    pub color: Color,
}

/// A file or a folder.
pub struct Node {
    pub name: String,
    /// The logical size once more.
    pub size: u64,
    /// The length of the content.
    pub logical_size: u64,
    /// The room taken up on disk.
    pub physical_size: u64,
    pub kind: NodeKind,
    pub color: Color,
    pub children: Vec<Node>,
    pub expanded: bool,
    /// How many files there are below.
    pub file_count: u64,
    /// How many folders there are below.
    pub folder_count: u64,
    /// FILETIME; 0 if unknown.
    pub modified_ft: u64,
    /// FILETIME; 0 if unknown.
    pub created_ft: u64,
    /// FILETIME; 0 if unknown.
    pub accessed_ft: u64,
    pub attributes: u32,
    /// 0 for anything that is not a reparse point.
    pub reparse_tag: u32,
    /// One of the files that NTFS keeps for itself.
    pub is_reserved: bool,
    pub owner: String,
    /// The true path of a node that does not stand where the disk has it.
    pub full_path_override: Option<String>,
}

/// The mathematical content of a [`Node`].
#[verifier::ext_equal]
pub struct Tree {
    pub name: Seq<char>,
    pub size: u64,
    pub logical_size: u64,
    pub physical_size: u64,
    pub kind: NodeKind,
    pub color: Color,
    pub children: Seq<Tree>,
    pub expanded: bool,
    pub file_count: u64,
    pub folder_count: u64,
    pub modified_ft: u64,
    pub created_ft: u64,
    pub accessed_ft: u64,
    pub attributes: u32,
    pub reparse_tag: u32,
    pub is_reserved: bool,
    pub owner: Seq<char>,
    pub full_path: Option<Seq<char>>,
}

/// The text inside, if there is some.
pub open spec fn opt_text(s: Option<String>) -> Option<Seq<char>> {
    match s {
        Some(p) => Some(p@),
        None => None,
    }
}

impl Node {
    pub open spec fn tree(&self) -> Tree
        decreases self,
    {
        Tree {
            name: self.name@,
            size: self.size,
            logical_size: self.logical_size,
            physical_size: self.physical_size,
            kind: self.kind,
            color: self.color,
            children: Seq::new(
                self.children@.len(),
                |i: int|
                    if 0 <= i < self.children@.len() {
                        self.children@[i].tree()
                    } else {
                        arbitrary()
                    },
            ),
            expanded: self.expanded,
            file_count: self.file_count,
            folder_count: self.folder_count,
            modified_ft: self.modified_ft,
            created_ft: self.created_ft,
            accessed_ft: self.accessed_ft,
            attributes: self.attributes,
            reparse_tag: self.reparse_tag,
            is_reserved: self.is_reserved,
            owner: self.owner@,
            full_path: opt_text(self.full_path_override),
        }
    }
}

impl View for Node {
    type V = Tree;

    open spec fn view(&self) -> Tree {
        self.tree()
    }
}

/// The contents of some nodes, in order.
pub open spec fn trees(nodes: Seq<Node>) -> Seq<Tree> {
    Seq::new(nodes.len(), |i: int| nodes[i]@)
}

// ---------------------------------------------------------------------------------------------
// Sums over children
// ---------------------------------------------------------------------------------------------

pub open spec fn logical_total(ch: Seq<Tree>) -> nat {
    total(ch, |c: Tree| c.logical_size as nat)
}

pub open spec fn physical_total(ch: Seq<Tree>) -> nat {
    total(ch, |c: Tree| c.physical_size as nat)
}

/// The files among `ch` and below them.
pub open spec fn files_total(ch: Seq<Tree>) -> nat {
    total(ch, |c: Tree| c.file_count as nat + if c.kind == NodeKind::File { 1nat } else { 0nat })
}

/// The folders among `ch` and below them.
pub open spec fn folders_total(ch: Seq<Tree>) -> nat {
    total(ch, |c: Tree| c.folder_count as nat + if c.kind == NodeKind::Folder { 1nat } else { 0nat })
}

/// The latest modification among `ch`; 0 if there is none.
pub open spec fn latest(ch: Seq<Tree>) -> u64
    decreases ch.len(),
{
    if ch.len() == 0 {
        0
    } else {
        let before = latest(ch.drop_last());
        if ch.last().modified_ft > before {
            ch.last().modified_ft
        } else {
            before
        }
    }
}

/// Whether the sums over `ch` can be kept in 64 bits.
pub open spec fn sums_fit(ch: Seq<Tree>) -> bool {
    &&& logical_total(ch) <= u64::MAX
    &&& physical_total(ch) <= u64::MAX
    &&& files_total(ch) <= u64::MAX
    &&& folders_total(ch) <= u64::MAX
}

/// How the children of a folder stand: larger ones first, and folders before files of the same
/// size.
pub open spec fn bigger_first(a: Tree, b: Tree) -> bool {
    a.logical_size > b.logical_size || (a.logical_size == b.logical_size && (a.kind == NodeKind::Folder
        || b.kind != NodeKind::Folder))
}

pub open spec fn by_size() -> spec_fn(Tree, Tree) -> bool {
    |a: Tree, b: Tree| bigger_first(a, b)
}

/// The folder made of `ch`.
pub open spec fn folder_of(
    name: Seq<char>,
    color: Color,
    ch: Seq<Tree>,
    modified_ft: u64,
    created_ft: u64,
    accessed_ft: u64,
    attributes: u32,
    reparse_tag: u32,
    is_reserved: bool,
    owner: Seq<char>,
) -> Tree {
    Tree {
        name,
        size: logical_total(ch) as u64,
        logical_size: logical_total(ch) as u64,
        physical_size: physical_total(ch) as u64,
        kind: NodeKind::Folder,
        color,
        children: sorted(ch, by_size()),
        expanded: false,
        file_count: files_total(ch) as u64,
        folder_count: folders_total(ch) as u64,
        modified_ft: if latest(ch) > modified_ft {
            latest(ch)
        } else {
            modified_ft
        },
        created_ft,
        accessed_ft,
        attributes: if attributes == 0 {
            0x10
        } else {
            attributes
        },
        reparse_tag,
        is_reserved,
        owner,
        full_path: None,
    }
}

/// The folder made of `ch`, which stay in the order in which they are given.
pub open spec fn folder_in_order(name: Seq<char>, color: Color, ch: Seq<Tree>) -> Tree {
    Tree { children: ch, ..folder_of(name, color, ch, 0, 0, 0, 0x10, 0, false, Seq::empty()) }
}

/// The file with these properties.
pub open spec fn file_of(
    name: Seq<char>,
    logical_size: u64,
    physical_size: u64,
    color: Color,
    modified_ft: u64,
    created_ft: u64,
    accessed_ft: u64,
    attributes: u32,
    reparse_tag: u32,
    is_reserved: bool,
    owner: Seq<char>,
) -> Tree {
    Tree {
        name,
        size: logical_size,
        logical_size,
        physical_size,
        kind: NodeKind::File,
        color,
        children: Seq::empty(),
        expanded: false,
        file_count: 0,
        folder_count: 0,
        modified_ft,
        created_ft,
        accessed_ft,
        attributes: if attributes == 0 {
            0x80
        } else {
            attributes
        },
        reparse_tag,
        is_reserved,
        owner,
        full_path: None,
    }
}

/// Whether the sizes and counts of a tree add up: a file has nothing below it, and a folder's
/// numbers are the sums over its children, all the way down.
pub open spec fn adds_up(t: Tree) -> bool
    decreases t,
{
    &&& t.size == t.logical_size
    &&& match t.kind {
        NodeKind::File => t.children.len() == 0 && t.file_count == 0 && t.folder_count == 0,
        NodeKind::Folder => {
            &&& t.logical_size == logical_total(t.children)
            &&& t.physical_size == physical_total(t.children)
            &&& t.file_count == files_total(t.children)
            &&& t.folder_count == folders_total(t.children)
            &&& forall|i: int| 0 <= i < t.children.len() ==> adds_up(#[trigger] t.children[i])
        },
    }
}

struct SizeRank<'a> {
    nodes: &'a Vec<Node>,
}

impl<'a> Ranking<Tree> for SizeRank<'a> {
    closed spec fn items(&self) -> Seq<Tree> {
        trees(self.nodes@)
    }

    closed spec fn le(&self) -> spec_fn(Tree, Tree) -> bool {
        by_size()
    }

    proof fn is_lawful(&self) {
    }

    fn may_precede(&self, i: usize, j: usize) -> (r: bool) {
        let a = &self.nodes[i];
        let b = &self.nodes[j];
        a.logical_size > b.logical_size || (a.logical_size == b.logical_size && (a.is_folder()
            || !b.is_folder()))
    }
}

pub proof fn lemma_by_size_is_preorder()
    ensures
        is_preorder(by_size()),
{
}

/// Whether the sums over `children` can be kept in 64 bits.
pub fn totals_fit(children: &Vec<Node>) -> (r: bool)
    ensures
        r == sums_fit(trees(children@)),
{
    let mut logical: u64 = 0;
    let mut physical: u64 = 0;
    let mut files: u64 = 0;
    let mut folders: u64 = 0;
    let ghost ch = trees(children@);
    let mut i: usize = 0;
    assert(ch.take(0) =~= Seq::<Tree>::empty());
    while i < children.len()
        invariant
            i <= children@.len(),
            ch == trees(children@),
            logical == logical_total(ch.take(i as int)),
            physical == physical_total(ch.take(i as int)),
            files == files_total(ch.take(i as int)),
            folders == folders_total(ch.take(i as int)),
        decreases children@.len() - i,
    {
        let c = &children[i];
        let one_file: u64 = if c.is_file() { 1 } else { 0 };
        let one_folder: u64 = if c.is_folder() { 1 } else { 0 };
        proof {
            assert(ch.take(i + 1).drop_last() =~= ch.take(i as int));
            assert(ch.take(i + 1).last() == c@);
            lemma_total_grows(ch, |c: Tree| c.logical_size as nat, i + 1);
            lemma_total_grows(ch, |c: Tree| c.physical_size as nat, i + 1);
            lemma_total_grows(
                ch,
                |c: Tree| c.file_count as nat + if c.kind == NodeKind::File { 1nat } else { 0nat },
                i + 1,
            );
            lemma_total_grows(
                ch,
                |c: Tree| c.folder_count as nat + if c.kind == NodeKind::Folder { 1nat } else { 0nat },
                i + 1,
            );
        }
        match (logical.checked_add(c.logical_size), physical.checked_add(c.physical_size)) {
            (Some(l), Some(p)) => {
                logical = l;
                physical = p;
            },
            _ => {
                return false;
            },
        }
        if c.file_count > u64::MAX - one_file || files > u64::MAX - (c.file_count + one_file) {
            return false;
        }
        files = files + (c.file_count + one_file);
        if c.folder_count > u64::MAX - one_folder || folders > u64::MAX - (c.folder_count + one_folder) {
            return false;
        }
        folders = folders + (c.folder_count + one_folder);
        i = i + 1;
    }
    assert(ch.take(ch.len() as int) =~= ch);
    true
}

/// A sum only grows with further items.
pub proof fn lemma_total_grows<T>(s: Seq<T>, f: spec_fn(T) -> nat, k: int)
    requires
        0 <= k <= s.len(),
    ensures
        total(s.take(k), f) <= total(s, f),
    decreases s.len(),
{
    if k == s.len() {
        assert(s.take(k) =~= s);
    } else {
        lemma_total_grows(s.drop_last(), f, k);
        assert(s.drop_last().take(k) =~= s.take(k));
    }
}

/// The sums over the children of a folder, and when one of them last changed.
struct Sums {
    logical_size: u64,
    physical_size: u64,
    file_count: u64,
    folder_count: u64,
    newest: u64,
}

fn sums_of(children: &Vec<Node>) -> (r: Sums)
    requires
        sums_fit(trees(children@)),
    ensures
        r.logical_size == logical_total(trees(children@)),
        r.physical_size == physical_total(trees(children@)),
        r.file_count == files_total(trees(children@)),
        r.folder_count == folders_total(trees(children@)),
        r.newest == latest(trees(children@)),
{
    let mut logical_size: u64 = 0;
    let mut physical_size: u64 = 0;
    let mut file_count: u64 = 0;
    let mut folder_count: u64 = 0;
    let mut newest: u64 = 0;
    let ghost ch = trees(children@);
    let mut i: usize = 0;
    assert(ch.take(0) =~= Seq::<Tree>::empty());
    while i < children.len()
        invariant
            i <= children@.len(),
            ch == trees(children@),
            sums_fit(ch),
            logical_size == logical_total(ch.take(i as int)),
            physical_size == physical_total(ch.take(i as int)),
            file_count == files_total(ch.take(i as int)),
            folder_count == folders_total(ch.take(i as int)),
            newest == latest(ch.take(i as int)),
        decreases children@.len() - i,
    {
        let c = &children[i];
        proof {
            assert(ch.take(i + 1).drop_last() =~= ch.take(i as int));
            assert(ch.take(i + 1).last() == c@);
            lemma_total_grows(ch, |c: Tree| c.logical_size as nat, i + 1);
            lemma_total_grows(ch, |c: Tree| c.physical_size as nat, i + 1);
            lemma_total_grows(
                ch,
                |c: Tree| c.file_count as nat + if c.kind == NodeKind::File { 1nat } else { 0nat },
                i + 1,
            );
            lemma_total_grows(
                ch,
                |c: Tree| c.folder_count as nat + if c.kind == NodeKind::Folder { 1nat } else { 0nat },
                i + 1,
            );
        }
        logical_size = logical_size + c.logical_size;
        physical_size = physical_size + c.physical_size;
        let one_file: u64 = if c.is_file() { 1 } else { 0 };
        let one_folder: u64 = if c.is_folder() { 1 } else { 0 };
        file_count = file_count + (c.file_count + one_file);
        folder_count = folder_count + (c.folder_count + one_folder);
        if c.modified_ft > newest {
            newest = c.modified_ft;
        }
        i = i + 1;
    }
    assert(ch.take(ch.len() as int) =~= ch);
    Sums { logical_size, physical_size, file_count, folder_count, newest }
}

impl Node {
    /// The node with its true path noted.
    pub fn with_full_path(self, path: String) -> (res: Node)
        ensures
            res@ == (Tree { full_path: Some(path@), ..self@ }),
    {
        let mut res = self;
        res.full_path_override = Some(path);
        res
    }

    /// A folder about which nothing but its children is known.
    pub fn new_folder(name: String, color: Color, children: Vec<Node>) -> (res: Node)
        requires
            sums_fit(trees(children@)),
        ensures
            res@ == folder_of(name@, color, trees(children@), 0, 0, 0, 0x10, 0, false, Seq::empty()),
    {
        Self::new_folder_with_meta(name, color, children, 0, 0, 0, 0x10, 0, false, String::new())
    }

    /// A folder: its children are put in order, and its sizes and counts are worked out from them.
    #[allow(clippy::too_many_arguments)]
    pub fn new_folder_with_meta(
        name: String,
        color: Color,
        children: Vec<Node>,
        modified_ft: u64,
        created_ft: u64,
        accessed_ft: u64,
        attributes: u32,
        reparse_tag: u32,
        is_reserved: bool,
        owner: String,
    ) -> (res: Node)
        requires
            sums_fit(trees(children@)),
        ensures
            res@ == folder_of(
                name@,
                color,
                trees(children@),
                modified_ft,
                created_ft,
                accessed_ft,
                attributes,
                reparse_tag,
                is_reserved,
                owner@,
            ),
    {
        let ghost ch = trees(children@);
        let sums = sums_of(&children);
        let rank = SizeRank { nodes: &children };
        let order = stable_order(&rank, children.len());
        proof {
            lemma_by_size_is_preorder();
            lemma_order_is_permutation(ch, by_size(), order@, 0, ch.len() as int);
        }
        let ghost unsorted = children@;
        let in_order = take_all(children, &order);
        let res = Node {
            name,
            size: sums.logical_size,
            logical_size: sums.logical_size,
            physical_size: sums.physical_size,
            kind: NodeKind::Folder,
            color,
            children: in_order,
            expanded: false,
            file_count: sums.file_count,
            folder_count: sums.folder_count,
            modified_ft: if sums.newest > modified_ft {
                sums.newest
            } else {
                modified_ft
            },
            created_ft,
            accessed_ft,
            attributes: if attributes == 0 {
                0x10
            } else {
                attributes
            },
            reparse_tag,
            is_reserved,
            owner,
            full_path_override: None,
        };
        assert(res@.children =~= taken_from(ch, order@));
        res
    }

    /// A folder about which nothing but its children is known, and whose children stay in the order
    /// in which they are given.
    pub(crate) fn new_folder_in_order(name: String, color: Color, children: Vec<Node>) -> (res: Node)
        requires
            sums_fit(trees(children@)),
        ensures
            res@ == folder_in_order(name@, color, trees(children@)),
    {
        let sums = sums_of(&children);
        let res = Node {
            name,
            size: sums.logical_size,
            logical_size: sums.logical_size,
            physical_size: sums.physical_size,
            kind: NodeKind::Folder,
            color,
            children,
            expanded: false,
            file_count: sums.file_count,
            folder_count: sums.folder_count,
            modified_ft: sums.newest,
            created_ft: 0,
            accessed_ft: 0,
            attributes: 0x10,
            reparse_tag: 0,
            is_reserved: false,
            owner: String::new(),
            full_path_override: None,
        };
        assert(res@.children =~= trees(children@));
        assert(res@.owner =~= Seq::<char>::empty());
        res
    }

    /// A file about which nothing but its length is known.
    pub fn new_file(name: String, logical: u64, color: Color) -> (res: Node)
        ensures
            res@ == file_of(name@, logical, logical, color, 0, 0, 0, 0x80, 0, false, Seq::empty()),
    {
        Self::new_file_with_meta(name, logical, logical, color, 0, 0, 0, 0x80, 0, false, String::new())
    }

    /// A file.
    #[allow(clippy::too_many_arguments)]
    pub fn new_file_with_meta(
        name: String,
        logical_size: u64,
        physical_size: u64,
        color: Color,
        modified_ft: u64,
        created_ft: u64,
        accessed_ft: u64,
        attributes: u32,
        reparse_tag: u32,
        is_reserved: bool,
        owner: String,
    ) -> (res: Node)
        ensures
            res@ == file_of(
                name@,
                logical_size,
                physical_size,
                color,
                modified_ft,
                created_ft,
                accessed_ft,
                attributes,
                reparse_tag,
                is_reserved,
                owner@,
            ),
    {
        let res = Node {
            name,
            size: logical_size,
            logical_size,
            physical_size,
            kind: NodeKind::File,
            color,
            children: Vec::new(),
            expanded: false,
            file_count: 0,
            folder_count: 0,
            modified_ft,
            created_ft,
            accessed_ft,
            attributes: if attributes == 0 {
                0x80
            } else {
                attributes
            },
            reparse_tag,
            is_reserved,
            owner,
            full_path_override: None,
        };
        assert(res@.children =~= Seq::<Tree>::empty());
        res
    }

    pub fn is_folder(&self) -> (r: bool)
        ensures
            r == (self.kind == NodeKind::Folder),
    {
        match self.kind {
            NodeKind::Folder => true,
            NodeKind::File => false,
        }
    }

    pub fn is_file(&self) -> (r: bool)
        ensures
            r == (self.kind == NodeKind::File),
    {
        match self.kind {
            NodeKind::File => true,
            NodeKind::Folder => false,
        }
    }

    /// Whether the node is marked hidden (0x02) or system (0x04).
    pub fn is_hidden_or_system(&self) -> (r: bool)
        ensures
            r == (self.attributes & 0x06 != 0),
    {
        self.attributes & 0x06 != 0
    }
}

/// A node made by [`Node::new_folder_with_meta`] adds up if its children do, and holds the same
/// children as were given, each of them once.
pub proof fn law_new_folder_adds_up(
    name: Seq<char>,
    color: Color,
    ch: Seq<Tree>,
    modified_ft: u64,
    created_ft: u64,
    accessed_ft: u64,
    attributes: u32,
    reparse_tag: u32,
    is_reserved: bool,
    owner: Seq<char>,
)
    requires
        sums_fit(ch),
        ch.len() <= usize::MAX,
        forall|i: int| 0 <= i < ch.len() ==> adds_up(#[trigger] ch[i]),
    ensures
        ({
            let t = folder_of(
                name,
                color,
                ch,
                modified_ft,
                created_ft,
                accessed_ft,
                attributes,
                reparse_tag,
                is_reserved,
                owner,
            );
            &&& adds_up(t)
            &&& t.children.len() == ch.len()
            &&& order_of(ch, by_size()).no_duplicates()
        }),
{
    lemma_by_size_is_preorder();
    lemma_sorted(ch, by_size());
    let o = order_of(ch, by_size());
    lemma_total_rearranged(ch, |c: Tree| c.logical_size as nat, o);
    lemma_total_rearranged(ch, |c: Tree| c.physical_size as nat, o);
    lemma_total_rearranged(
        ch,
        |c: Tree| c.file_count as nat + if c.kind == NodeKind::File { 1nat } else { 0nat },
        o,
    );
    lemma_total_rearranged(
        ch,
        |c: Tree| c.folder_count as nat + if c.kind == NodeKind::Folder { 1nat } else { 0nat },
        o,
    );
}

/// Where each of `n` things stands once they are put in another order: every place is named once.
pub open spec fn is_rearrangement(o: Seq<usize>, n: nat) -> bool {
    &&& o.len() == n
    &&& o.no_duplicates()
    &&& forall|k: int| 0 <= k < o.len() ==> #[trigger] o[k] < n
}

/// The children of a new folder are those that it was given, in another order: larger ones stand
/// before smaller ones, folders before files of the same size, and what is alike in both stands as
/// it stood.
pub proof fn law_new_folder_puts_larger_children_first(
    name: Seq<char>,
    color: Color,
    ch: Seq<Tree>,
    modified_ft: u64,
    created_ft: u64,
    accessed_ft: u64,
    attributes: u32,
    reparse_tag: u32,
    is_reserved: bool,
    owner: Seq<char>,
) -> (o: Seq<usize>)
    requires
        ch.len() <= usize::MAX,
    ensures
        ({
            let t = folder_of(
                name,
                color,
                ch,
                modified_ft,
                created_ft,
                accessed_ft,
                attributes,
                reparse_tag,
                is_reserved,
                owner,
            );
            &&& is_rearrangement(o, ch.len())
            &&& t.children.len() == ch.len()
            &&& forall|k: int| 0 <= k < ch.len() ==> #[trigger] t.children[k] == ch[o[k] as int]
            &&& forall|i: int, j: int|
                0 <= i < j < ch.len() ==> {
                    let a = #[trigger] t.children[i];
                    let b = #[trigger] t.children[j];
                    &&& a.logical_size >= b.logical_size
                    &&& a.logical_size == b.logical_size && b.kind == NodeKind::Folder ==> a.kind
                        == NodeKind::Folder
                    &&& a.logical_size == b.logical_size && a.kind == b.kind ==> o[i] < o[j]
                }
        }),
{
    lemma_by_size_is_preorder();
    lemma_sorted(ch, by_size());
    let o = order_of(ch, by_size());
    let t = sorted(ch, by_size());
    assert forall|i: int, j: int| 0 <= i < j < ch.len() implies {
        let a = #[trigger] t[i];
        let b = #[trigger] t[j];
        &&& a.logical_size >= b.logical_size
        &&& a.logical_size == b.logical_size && b.kind == NodeKind::Folder ==> a.kind == NodeKind::Folder
        &&& a.logical_size == b.logical_size && a.kind == b.kind ==> o[i] < o[j]
    } by {
        assert(precedes(ch, by_size(), o[i] as int, o[j] as int));
        let a = ch[o[i] as int];
        let b = ch[o[j] as int];
        assert((by_size())(a, b) == bigger_first(a, b));
        assert((by_size())(b, a) == bigger_first(b, a));
    }
    o
}

proof fn lemma_latest(ch: Seq<Tree>)
    ensures
        forall|i: int| 0 <= i < ch.len() ==> (#[trigger] ch[i]).modified_ft <= latest(ch),
        latest(ch) > 0 ==> exists|i: int| 0 <= i < ch.len() && (#[trigger] ch[i]).modified_ft == latest(ch),
    decreases ch.len(),
{
    if ch.len() > 0 {
        let front = ch.drop_last();
        lemma_latest(front);
        assert forall|i: int| 0 <= i < ch.len() implies (#[trigger] ch[i]).modified_ft <= latest(ch) by {
            if i < front.len() {
                assert(front[i] == ch[i]);
            }
        }
        if latest(ch) > 0 {
            if ch.last().modified_ft > latest(front) {
                assert(ch[ch.len() - 1].modified_ft == latest(ch));
            } else {
                let i = choose|i: int| 0 <= i < front.len() && (#[trigger] front[i]).modified_ft == latest(front);
                assert(ch[i].modified_ft == latest(ch));
            }
        }
    }
}

/// A new folder tells what it was given of itself: its name, its times, its tag, its owner, and its
/// attributes, which are those of a folder where none are given. It counts as modified when it or
/// one of its children was last modified. It starts closed, and has no path but its own.
pub proof fn law_new_folder_keeps_what_it_is_given(
    name: Seq<char>,
    color: Color,
    ch: Seq<Tree>,
    modified_ft: u64,
    created_ft: u64,
    accessed_ft: u64,
    attributes: u32,
    reparse_tag: u32,
    is_reserved: bool,
    owner: Seq<char>,
)
    ensures
        ({
            let t = folder_of(
                name,
                color,
                ch,
                modified_ft,
                created_ft,
                accessed_ft,
                attributes,
                reparse_tag,
                is_reserved,
                owner,
            );
            &&& t.kind == NodeKind::Folder
            &&& t.name == name && t.color == color && t.owner == owner
            &&& t.created_ft == created_ft && t.accessed_ft == accessed_ft
            &&& t.reparse_tag == reparse_tag && t.is_reserved == is_reserved
            &&& attributes != 0 ==> t.attributes == attributes
            &&& attributes == 0 ==> t.attributes == 0x10
            &&& t.modified_ft >= modified_ft
            &&& forall|i: int| 0 <= i < ch.len() ==> t.modified_ft >= (#[trigger] ch[i]).modified_ft
            &&& t.modified_ft == modified_ft || exists|i: int|
                0 <= i < ch.len() && (#[trigger] ch[i]).modified_ft == t.modified_ft
            &&& !t.expanded && t.full_path is None
        }),
{
    lemma_latest(ch);
}

/// A new file tells what it was given of itself, field by field; without attributes it has those of a
/// normal file. It has nothing below it.
pub proof fn law_new_file_keeps_what_it_is_given(
    name: Seq<char>,
    logical_size: u64,
    physical_size: u64,
    color: Color,
    modified_ft: u64,
    created_ft: u64,
    accessed_ft: u64,
    attributes: u32,
    reparse_tag: u32,
    is_reserved: bool,
    owner: Seq<char>,
)
    ensures
        ({
            let t = file_of(
                name,
                logical_size,
                physical_size,
                color,
                modified_ft,
                created_ft,
                accessed_ft,
                attributes,
                reparse_tag,
                is_reserved,
                owner,
            );
            &&& t.kind == NodeKind::File
            &&& t.name == name && t.color == color && t.owner == owner
            &&& t.size == logical_size && t.logical_size == logical_size && t.physical_size == physical_size
            &&& t.modified_ft == modified_ft && t.created_ft == created_ft && t.accessed_ft == accessed_ft
            &&& t.reparse_tag == reparse_tag && t.is_reserved == is_reserved
            &&& attributes != 0 ==> t.attributes == attributes
            &&& attributes == 0 ==> t.attributes == 0x80
            &&& t.children.len() == 0 && t.file_count == 0 && t.folder_count == 0
            &&& !t.expanded && t.full_path is None
        }),
{
}

/// The sum of `f` over a tree, its root included.
pub open spec fn sum_over(t: Tree, f: spec_fn(Tree) -> nat) -> nat
    decreases t,
{
    f(t) + sum_over_all(t.children, f)
}

/// The sum of `f` over some trees.
pub open spec fn sum_over_all(ch: Seq<Tree>, f: spec_fn(Tree) -> nat) -> nat
    decreases ch,
{
    if ch.len() == 0 {
        0
    } else {
        sum_over_all(ch.drop_last(), f) + sum_over(ch.last(), f)
    }
}

pub open spec fn file_bytes() -> spec_fn(Tree) -> nat {
    |t: Tree| if t.kind == NodeKind::File { t.logical_size as nat } else { 0 }
}

pub open spec fn file_room() -> spec_fn(Tree) -> nat {
    |t: Tree| if t.kind == NodeKind::File { t.physical_size as nat } else { 0 }
}

pub open spec fn one_per_file() -> spec_fn(Tree) -> nat {
    |t: Tree| if t.kind == NodeKind::File { 1 } else { 0 }
}

pub open spec fn one_per_folder() -> spec_fn(Tree) -> nat {
    |t: Tree| if t.kind == NodeKind::Folder { 1 } else { 0 }
}

/// In a tree that adds up, the numbers of a node speak of everything below it: its sizes are those
/// of all the files there, and its counts are how many files and folders there are.
pub proof fn law_numbers_speak_of_everything_below(t: Tree)
    requires
        adds_up(t),
    ensures
        t.logical_size == sum_over(t, file_bytes()),
        t.physical_size == sum_over(t, file_room()),
        t.file_count == sum_over_all(t.children, one_per_file()),
        t.folder_count == sum_over_all(t.children, one_per_folder()),
    decreases t, 1nat,
{
    if t.kind == NodeKind::Folder {
        lemma_sums_below(t.children);
    }
}

proof fn lemma_sums_below(ch: Seq<Tree>)
    requires
        forall|i: int| 0 <= i < ch.len() ==> adds_up(#[trigger] ch[i]),
    ensures
        logical_total(ch) == sum_over_all(ch, file_bytes()),
        physical_total(ch) == sum_over_all(ch, file_room()),
        files_total(ch) == sum_over_all(ch, one_per_file()),
        folders_total(ch) == sum_over_all(ch, one_per_folder()),
    decreases ch, 0nat,
{
    if ch.len() > 0 {
        assert forall|i: int| 0 <= i < ch.drop_last().len() implies adds_up(#[trigger] ch.drop_last()[i]) by {
            assert(adds_up(ch[i]));
        }
        lemma_sums_below(ch.drop_last());
        assert(adds_up(ch[ch.len() - 1]));
        let last = ch.last();
        law_numbers_speak_of_everything_below(last);
        assert(sum_over(last, one_per_file()) == (one_per_file())(last) + sum_over_all(
            last.children,
            one_per_file(),
        ));
        assert(sum_over(last, one_per_folder()) == (one_per_folder())(last) + sum_over_all(
            last.children,
            one_per_folder(),
        ));
    }
}

// ---------------------------------------------------------------------------------------------
// Places in a tree
// ---------------------------------------------------------------------------------------------

/// The node at the end of `path`, if the path leads anywhere.
pub open spec fn at_path(t: Tree, path: Seq<usize>) -> Option<Tree>
    decreases path.len(),
{
    if path.len() == 0 {
        Some(t)
    } else if path[0] < t.children.len() {
        at_path(t.children[path[0] as int], path.skip(1))
    } else {
        None
    }
}

/// The tree with `new` put at the end of `path`.
pub open spec fn with_at(t: Tree, path: Seq<usize>, new: Tree) -> Tree
    decreases path.len(),
{
    if path.len() == 0 {
        new
    } else if path[0] < t.children.len() {
        Tree {
            children: t.children.update(
                path[0] as int,
                with_at(t.children[path[0] as int], path.skip(1), new),
            ),
            ..t
        }
    } else {
        t
    }
}

/// One step further along a path.
pub proof fn lemma_at_push(t: Tree, p: Seq<usize>, i: usize)
    ensures
        at_path(t, p.push(i)) == (match at_path(t, p) {
            Some(c) => if i < c.children.len() {
                Some(c.children[i as int])
            } else {
                None
            },
            None => None,
        }),
    decreases p.len(),
{
    if p.len() == 0 {
        reveal_with_fuel(at_path, 2);
        reveal_with_fuel(with_at, 2);
        assert(p.push(i).skip(1) =~= Seq::<usize>::empty());
    } else {
        assert(p.push(i).skip(1) =~= p.skip(1).push(i));
        if p[0] < t.children.len() {
            lemma_at_push(t.children[p[0] as int], p.skip(1), i);
        }
    }
}

/// Putting a node at the end of a path is putting its parent, changed, one step before.
pub proof fn lemma_with_push(t: Tree, p: Seq<usize>, i: usize, x: Tree)
    requires
        at_path(t, p) is Some,
        i < at_path(t, p)->0.children.len(),
    ensures
        with_at(t, p.push(i), x) == with_at(
            t,
            p,
            (Tree { children: at_path(t, p)->0.children.update(i as int, x), ..at_path(t, p)->0 }),
        ),
    decreases p.len(),
{
    if p.len() == 0 {
        reveal_with_fuel(at_path, 2);
        reveal_with_fuel(with_at, 2);
        assert(p.push(i).skip(1) =~= Seq::<usize>::empty());
    } else {
        assert(p.push(i).skip(1) =~= p.skip(1).push(i));
        lemma_with_push(t.children[p[0] as int], p.skip(1), i, x);
    }
}

/// Putting back what is there changes nothing.
pub proof fn lemma_with_same(t: Tree, p: Seq<usize>)
    requires
        at_path(t, p) is Some,
    ensures
        with_at(t, p, at_path(t, p)->0) == t,
    decreases p.len(),
{
    if p.len() > 0 {
        lemma_with_same(t.children[p[0] as int], p.skip(1));
        assert(t.children.update(p[0] as int, t.children[p[0] as int]) =~= t.children);
    }
}

impl Node {
    /// The node at the end of `path`, if the path leads anywhere.
    pub fn navigate(&self, path: &[usize]) -> (res: Option<&Node>)
        ensures
            match res {
                Some(n) => at_path(self@, path@) == Some(n@),
                None => at_path(self@, path@) is None,
            },
    {
        let mut cur = self;
        let mut k: usize = 0;
        assert(path@.skip(0) =~= path@);
        while k < path.len()
            invariant
                k <= path@.len(),
                at_path(self@, path@) == at_path(cur@, path@.skip(k as int)),
            decreases path@.len() - k,
        {
            let i: usize = path[k];
            assert(path@.skip(k as int).skip(1) =~= path@.skip(k + 1));
            if i >= cur.children.len() {
                return None;
            }
            cur = &cur.children[i];
            k = k + 1;
        }
        Some(cur)
    }

    /// The node at the end of `path`, to be changed in place.
    pub fn navigate_mut(&mut self, path: &[usize]) -> (res: Option<&mut Node>)
        ensures
            match res {
                Some(n) => at_path(old(self)@, path@) == Some(n@) && final(self)@ == with_at(
                    old(self)@,
                    path@,
                    final(n)@,
                ),
                None => at_path(old(self)@, path@) is None && final(self)@ == old(self)@,
            },
    {
        let mut cur = self;
        let mut k: usize = 0;
        let ghost start = old(self)@;
        assert(path@.skip(0) =~= path@);
        while k < path.len()
            invariant
                k <= path@.len(),
                start == old(self)@,
                at_path(start, path@.take(k as int)) == Some(cur@),
                at_path(start, path@) == at_path(cur@, path@.skip(k as int)),
                final(self)@ == with_at(start, path@.take(k as int), final(cur)@),
            decreases path@.len() - k,
        {
            let i: usize = path[k];
            assert(path@.skip(k as int).skip(1) =~= path@.skip(k + 1));
            assert(path@.take(k as int).push(i) =~= path@.take(k + 1));
            if i >= cur.children.len() {
                proof {
                    lemma_with_same(start, path@.take(k as int));
                }
                return None;
            }
            proof {
                lemma_at_push(start, path@.take(k as int), i);
            }
            let ghost here = cur@;
            let ghost fin = *final(cur);
            cur = &mut cur.children[i];
            proof {
                assert(fin@.children =~= here.children.update(i as int, final(cur)@));
                assert(fin@ == (Tree { children: here.children.update(i as int, final(cur)@), ..here }));
                lemma_with_push(start, path@.take(k as int), i, final(cur)@);
                assert(final(self)@ == with_at(start, path@.take(k + 1), final(cur)@));
            }
            k = k + 1;
        }
        assert(path@.take(path@.len() as int) =~= path@);
        Some(cur)
    }
}



/// An empty folder holds nothing. With one more child a folder holds what that child holds more: its
/// bytes, the room that it takes, and the files and folders in it, itself one of them.
pub proof fn law_one_more_child_adds_what_it_holds(
    name: Seq<char>,
    color: Color,
    ch: Seq<Tree>,
    c: Tree,
    modified_ft: u64,
    attributes: u32,
)
    requires
        sums_fit(ch.push(c)),
    ensures
        ({
            let none = folder_of(name, color, Seq::empty(), modified_ft, 0, 0, attributes, 0, false, Seq::empty());
            let before = folder_of(name, color, ch, modified_ft, 0, 0, attributes, 0, false, Seq::empty());
            let now = folder_of(name, color, ch.push(c), modified_ft, 0, 0, attributes, 0, false, Seq::empty());
            let (a_file, a_folder) = match c.kind {
                NodeKind::File => (1int, 0int),
                NodeKind::Folder => (0int, 1int),
            };
            &&& none.logical_size == 0 && none.physical_size == 0 && none.file_count == 0 && none.folder_count == 0
            &&& now.logical_size == before.logical_size + c.logical_size
            &&& now.size == now.logical_size
            &&& now.physical_size == before.physical_size + c.physical_size
            &&& now.file_count == before.file_count + c.file_count + a_file
            &&& now.folder_count == before.folder_count + c.folder_count + a_folder
        }),
{
    assert(ch.push(c).drop_last() =~= ch);
    assert(ch.push(c).last() == c);
}

} // verus!
