//! Who owns the files that are shown.
use vstd::prelude::*;

use crate::model::Node;
use crate::walk::{Walker, WalkRule};
use crate::wide::from_wide;

verus! {

use crate::model::{adds_up, at_path, NodeKind, Tree};
use crate::order::lemma_total_update;
use crate::text::utf16_lossy;
use crate::edit::machine_sized;
use crate::walk::{
    is_on_walk, law_walk_comes_by_everything_shown, law_walk_comes_by_nothing_else, steps, Step,
};
use crate::wide::{encoded, law_wide_text_reads_back};
use crate::worklist::{change_at, lemma_at_with};

/// The name of an account and the domain that it belongs to, as the system writes them.
pub struct AccountNames {
    pub name: Vec<u16>,
    pub domain: Vec<u16>,
}

/// The owner as shown: the account with its domain, if it has one; nothing where the account is
/// not known.
pub open spec fn owner_text(account: Option<AccountNames>) -> Seq<char> {
    match account {
        Some(a) => if a.name@.len() == 0 {
            Seq::empty()
        } else if a.domain@.len() == 0 {
            utf16_lossy(a.name@)
        } else {
            utf16_lossy(a.domain@).push('\\') + utf16_lossy(a.name@)
        },
        None => Seq::empty(),
    }
}

/// The owner as shown. `account` is what the system answered when asked for the owner of a path,
/// or nothing where it did not.
pub fn get_owner(account: Option<AccountNames>) -> (r: String)
    ensures
        r@ == owner_text(account),
{
    match &account {
        Some(a) => {
            if a.name.len() == 0 {
                return String::new();
            }
            let name = from_wide(a.name.as_slice());
            if a.domain.len() == 0 {
                return name;
            }
            let mut out = from_wide(a.domain.as_slice());
            out.push('\\');
            out.append(name.as_str());
            out
        },
        None => String::new(),
    }
}

/// A node whose owner is asked for: where it stands in the tree, and its path.
pub struct OwnerQuery {
    pub at: Vec<usize>,
    pub path: String,
}

/// The walk to what is in sight: the children of the top and of expanded folders.
pub open spec fn walk_in_sight() -> WalkRule {
    WalkRule { open_only: true, with_reserved: true }
}

/// The nodes whose owner is worth asking for: those in sight below `root`, which is at `path`.
pub fn owner_queries(root: &Node, path: &str) -> (r: Vec<OwnerQuery>)
    ensures
        ({
            let sts = steps(walk_in_sight(), root@, path@);
            &&& r@.len() == sts.len()
            &&& forall|i: int|
                0 <= i < sts.len() ==> (#[trigger] r@[i]).at@ == sts[i].at && r@[i].path@ == sts[i].path
        }),
{
    let ghost sts = steps(walk_in_sight(), root@, path@);
    let mut out: Vec<OwnerQuery> = Vec::new();
    let mut walker = Walker::new(WalkRule { open_only: true, with_reserved: true }, root, path);
    assert(sts.skip(0) =~= sts);
    loop
        invariant
            out@.len() <= sts.len(),
            walker.left() == sts.skip(out@.len() as int),
            forall|i: int|
                0 <= i < out@.len() ==> (#[trigger] out@[i]).at@ == sts[i].at && out@[i].path@ == sts[i].path,
        ensures
            out@.len() == sts.len(),
        decreases walker.left().len(),
    {
        match walker.next() {
            Some(v) => {
                assert(v.step() == sts[out@.len() as int]);
                out.push(OwnerQuery { at: v.at, path: v.path });
                assert(walker.left() =~= sts.skip(out@.len() as int));
            },
            None => {
                break;
            },
        }
    }
    out
}

/// The node with its owner set.
pub open spec fn owned_by(owner: Seq<char>) -> spec_fn(Tree) -> Tree {
    |t: Tree| Tree { owner, ..t }
}

/// The tree with the first `n` of the asked nodes given their owners.
pub open spec fn with_owners(t: Tree, queries: Seq<OwnerQuery>, owners: Seq<String>, n: int) -> Tree
    decreases n,
{
    if n <= 0 {
        t
    } else {
        change_at(with_owners(t, queries, owners, n - 1), queries[n - 1].at@, owned_by(owners[n - 1]@))
    }
}

/// Gives each of the asked nodes the owner that was found for it, in order, as far as there are
/// answers.
pub fn populate_owners(root: &mut Node, queries: &Vec<OwnerQuery>, owners: &Vec<String>)
    ensures
        final(root)@ == with_owners(
            old(root)@,
            queries@,
            owners@,
            if queries@.len() <= owners@.len() {
                queries@.len() as int
            } else {
                owners@.len() as int
            },
        ),
{
    let mut i: usize = 0;
    while i < queries.len() && i < owners.len()
        invariant
            i <= queries@.len(),
            i <= owners@.len(),
            root@ == with_owners(old(root)@, queries@, owners@, i as int),
        decreases queries@.len() - i,
    {
        let ghost before = root@;
        match root.navigate_mut(queries[i].at.as_slice()) {
            Some(n) => {
                let ghost was = n@;
                n.owner = owners[i].clone();
                assert(n@.children =~= was.children);
                assert(n@ == (Tree { owner: owners@[i as int]@, ..was }));
            },
            None => {},
        }
        i = i + 1;
        assert(root@ == change_at(before, queries@[i - 1].at@, owned_by(owners@[i - 1]@)));
    }
}

proof fn lemma_owner_keeps_sums(t: Tree, p: Seq<usize>, owner: Seq<char>)
    requires
        adds_up(t),
    ensures
        adds_up(change_at(t, p, owned_by(owner))),
        ({
            let u = change_at(t, p, owned_by(owner));
            &&& u.kind == t.kind
            &&& u.logical_size == t.logical_size
            &&& u.physical_size == t.physical_size
            &&& u.file_count == t.file_count
            &&& u.folder_count == t.folder_count
        }),
    decreases p.len(),
{
    if at_path(t, p) is Some && p.len() > 0 {
        let i = p[0] as int;
        let c = t.children[i];
        assert(adds_up(c));
        lemma_owner_keeps_sums(c, p.skip(1), owner);
        let d = change_at(c, p.skip(1), owned_by(owner));
        let u = change_at(t, p, owned_by(owner));
        assert(u == (Tree { children: t.children.update(i, d), ..t }));
        lemma_total_update(t.children, |c: Tree| c.logical_size as nat, i, d);
        lemma_total_update(t.children, |c: Tree| c.physical_size as nat, i, d);
        lemma_total_update(
            t.children,
            |c: Tree| c.file_count as nat + if c.kind == NodeKind::File { 1nat } else { 0nat },
            i,
            d,
        );
        lemma_total_update(
            t.children,
            |c: Tree| c.folder_count as nat + if c.kind == NodeKind::Folder { 1nat } else { 0nat },
            i,
            d,
        );
        assert forall|j: int| 0 <= j < u.children.len() implies adds_up(#[trigger] u.children[j]) by {
            assert(adds_up(t.children[j]));
        }
    }
}

/// Owners change no number: a tree that adds up still does, with the same sizes and counts.
pub proof fn law_owners_keep_sums(t: Tree, queries: Seq<OwnerQuery>, owners: Seq<String>, n: int)
    requires
        adds_up(t),
    ensures
        ({
            let u = with_owners(t, queries, owners, n);
            &&& adds_up(u)
            &&& u.logical_size == t.logical_size
            &&& u.physical_size == t.physical_size
            &&& u.file_count == t.file_count
            &&& u.folder_count == t.folder_count
        }),
    decreases n,
{
    if n > 0 {
        law_owners_keep_sums(t, queries, owners, n - 1);
        lemma_owner_keeps_sums(
            with_owners(t, queries, owners, n - 1),
            queries[n - 1].at@,
            owners[n - 1]@,
        );
    }
}

/// The owner of a file is shown as the account, behind the domain and a backslash where it belongs to
/// one; nothing is shown where the account is not known.
pub proof fn law_owners_are_shown_with_their_domain(name: Seq<char>, domain: Seq<char>, a: AccountNames)
    requires
        name.len() > 0,
        a.name@ == encoded(name),
        a.domain@ == encoded(domain),
    ensures
        domain.len() > 0 ==> owner_text(Some(a)) == domain + seq!['\\'] + name,
        domain.len() == 0 ==> owner_text(Some(a)) == name,
        owner_text(None).len() == 0,
{
    law_wide_text_reads_back(name);
    law_wide_text_reads_back(domain);
    if encoded(name).len() == 0 {
        assert(encoded(name) =~= Seq::empty());
        assert(false);
    }
    if domain.len() > 0 {
        if encoded(domain).len() == 0 {
            assert(encoded(domain) =~= Seq::empty());
            assert(false);
        }
        assert(owner_text(Some(a)) =~= domain + seq!['\\'] + name);
    }
}

/// The last owner that was found is noted at the node that it was asked for, and nothing else of that
/// node changes.
pub proof fn law_found_owners_are_noted(t: Tree, queries: Seq<OwnerQuery>, owners: Seq<String>, n: int)
    requires
        0 < n <= queries.len(),
        n <= owners.len(),
        at_path(with_owners(t, queries, owners, n - 1), queries[n - 1].at@) is Some,
    ensures
        ({
            let before = at_path(with_owners(t, queries, owners, n - 1), queries[n - 1].at@);
            let after = at_path(with_owners(t, queries, owners, n), queries[n - 1].at@);
            after == Some(Tree { owner: owners[n - 1]@, ..before->0 })
        }),
{
    let u = with_owners(t, queries, owners, n - 1);
    let p = queries[n - 1].at@;
    let new = Tree { owner: owners[n - 1]@, ..at_path(u, p)->0 };
    lemma_at_with(u, p, new);
}


/// Whether someone asks for the owner of the node at `p`.
pub open spec fn is_asked(sts: Seq<Step>, p: Seq<usize>) -> bool {
    exists|k: int| 0 <= k < sts.len() && (#[trigger] sts[k]).at == p
}

/// The owner is asked for of exactly those nodes that are in sight: all children of the top, and of
/// each folder in sight that is expanded, those that the file system keeps for itself among them.
pub proof fn law_owners_are_asked_of_what_is_in_sight(root: Tree, path: Seq<char>, p: Seq<usize>)
    requires
        machine_sized(root),
    ensures
        is_asked(steps(walk_in_sight(), root, path), p) == is_on_walk(
            WalkRule { open_only: true, with_reserved: true },
            root,
            p,
        ),
{
    let rule = WalkRule { open_only: true, with_reserved: true };
    let sts = steps(walk_in_sight(), root, path);
    law_walk_comes_by_nothing_else(rule, root, path);
    if is_on_walk(rule, root, p) {
        law_walk_comes_by_everything_shown(rule, root, path, p);
        let k = choose|k: int| 0 <= k < sts.len() && (#[trigger] sts[k]).at == p;
        assert(sts[k].at == p);
    }
}

} // verus!
