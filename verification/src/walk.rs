//! Going through a tree, one node after the other, without recursion.
use vstd::prelude::*;

use crate::edit::copy_path;
use crate::model::{Node, NodeKind};
use crate::text::{chars_of, string_of};

verus! {

use crate::edit::machine_sized;
use crate::model::{at_path, lemma_at_push, Tree};
use crate::worklist::{node_count, nodes_among};

// ---------------------------------------------------------------------------------------------
// From the top down, each folder before what is in it
// ---------------------------------------------------------------------------------------------

/// Which nodes a walk comes by.
#[derive(Clone, Copy)]
pub struct WalkRule {
    /// Go into expanded folders only.
    pub open_only: bool,
    /// Come by the files that NTFS keeps for itself.
    pub with_reserved: bool,
}

/// The path of what is called `name` in the folder at `parent`.
pub open spec fn joined(parent: Seq<char>, name: Seq<char>) -> Seq<char> {
    if parent.len() > 0 && parent.last() == '\\' {
        parent + name
    } else {
        parent.push('\\') + name
    }
}

/// The path of what is called `name` in the folder at `parent`.
pub fn join_path(parent: &str, name: &str) -> (r: String)
    ensures
        r@ == joined(parent@, name@),
{
    let v = chars_of(parent);
    let mut out = parent.to_owned();
    if !(v.len() > 0 && v[v.len() - 1] == '\\') {
        out.push('\\');
    }
    out.append(name);
    out
}

/// What a walk finds at one place.
pub struct Step {
    pub node: Tree,
    /// The way there from the top.
    pub at: Seq<usize>,
    pub path: Seq<char>,
    /// How many folders it is in, the top not counted.
    pub depth: nat,
    /// The logical size of the folder that it is in.
    pub parent_logical: u64,
}

pub open spec fn shows(rule: WalkRule, t: Tree) -> bool {
    rule.with_reserved || !t.is_reserved
}

pub open spec fn enters(rule: WalkRule, t: Tree) -> bool {
    t.kind == NodeKind::Folder && (t.expanded || !rule.open_only)
}

/// What a walk comes by below `parent`, from its child number `from` on.
pub open spec fn steps_from(
    rule: WalkRule,
    parent: Tree,
    from: int,
    at: Seq<usize>,
    path: Seq<char>,
    depth: nat,
) -> Seq<Step>
    decreases parent, parent.children.len() - from,
{
    if from < 0 || from >= parent.children.len() {
        Seq::empty()
    } else {
        let c = parent.children[from];
        let rest = steps_from(rule, parent, from + 1, at, path, depth);
        if shows(rule, c) {
            let way = at.push(from as usize);
            let name = joined(path, c.name);
            let here = Step {
                node: c,
                at: way,
                path: name,
                depth,
                parent_logical: parent.logical_size,
            };
            let inside = if enters(rule, c) {
                steps_from(rule, c, 0, way, name, depth + 1)
            } else {
                Seq::empty()
            };
            seq![here] + inside + rest
        } else {
            rest
        }
    }
}

/// What a walk comes by below `top`, the node at `path`.
pub open spec fn steps(rule: WalkRule, top: Tree, path: Seq<char>) -> Seq<Step> {
    steps_from(rule, top, 0, Seq::empty(), path, 0)
}

/// A folder that a walk is in.
pub struct Frame<'a> {
    pub node: &'a Node,
    /// The child that comes next.
    pub next: usize,
    pub at: Vec<usize>,
    pub path: String,
}

/// What a walk found at one place.
pub struct Visit<'a> {
    pub node: &'a Node,
    pub at: Vec<usize>,
    pub path: String,
    pub depth: usize,
    pub parent_logical: u64,
}

impl<'a> Visit<'a> {
    pub open spec fn step(self) -> Step {
        Step {
            node: self.node@,
            at: self.at@,
            path: self.path@,
            depth: self.depth as nat,
            parent_logical: self.parent_logical,
        }
    }
}

/// A walk under way.
pub struct Walker<'a> {
    pub rule: WalkRule,
    /// The folders that it is in, the outermost first.
    pub stack: Vec<Frame<'a>>,
}

/// What is left of a walk that is in the folders of `stack`.
pub open spec fn steps_left(rule: WalkRule, stack: Seq<Frame>) -> Seq<Step>
    decreases stack.len(),
{
    if stack.len() == 0 {
        Seq::empty()
    } else {
        let f = stack.last();
        steps_from(rule, f.node@, f.next as int, f.at@, f.path@, (stack.len() - 1) as nat) + steps_left(
            rule,
            stack.drop_last(),
        )
    }
}

/// How often a walk can go on without coming by anything.
spec fn idle(stack: Seq<Frame>) -> nat
    decreases stack.len(),
{
    if stack.len() == 0 {
        0
    } else {
        let f = stack.last();
        idle(stack.drop_last()) + 1 + if f.next <= f.node@.children.len() {
            (f.node@.children.len() - f.next) as nat
        } else {
            0
        }
    }
}

impl<'a> Walker<'a> {
    /// What the walk has yet to come by.
    pub open spec fn left(&self) -> Seq<Step> {
        steps_left(self.rule, self.stack@)
    }

    /// A walk through what is below `top`, the node at `path`.
    pub fn new(rule: WalkRule, top: &'a Node, path: &str) -> (w: Self)
        ensures
            w.left() == steps(rule, top@, path@),
            w.rule == rule,
    {
        let mut stack: Vec<Frame<'a>> = Vec::new();
        stack.push(Frame { node: top, next: 0, at: Vec::new(), path: path.to_owned() });
        proof {
            reveal_with_fuel(steps_left, 2);
            assert(stack@.drop_last() =~= Seq::empty());
            assert(stack@.last().at@ =~= Seq::empty());
        }
        let w = Walker { rule, stack };
        assert(w.left() =~= steps(rule, top@, path@));
        w
    }

    /// Goes on to the next place, if there is one.
    pub fn next(&mut self) -> (v: Option<Visit<'a>>)
        ensures
            final(self).rule == old(self).rule,
            match v {
                Some(x) => {
                    &&& old(self).left().len() > 0
                    &&& x.step() == old(self).left()[0]
                    &&& final(self).left() == old(self).left().skip(1)
                },
                None => old(self).left().len() == 0 && final(self).left() == old(self).left(),
            },
    {
        while self.stack.len() > 0
            invariant
                self.rule == old(self).rule,
                self.left() == old(self).left(),
            decreases idle(self.stack@),
        {
            let k: usize = self.stack.len() - 1;
            let ghost before = self.stack@;
            let node: &'a Node = self.stack[k].node;
            let i: usize = self.stack[k].next;
            if i >= node.children.len() {
                let _ = self.stack.pop();
                assert(self.left() =~= old(self).left());
                continue;
            }
            let child: &'a Node = &node.children[i];
            assert(node@.children[i as int] == child@);
            self.stack[k].next = i + 1;
            let ghost mid = self.stack@;
            proof {
                assert(mid.drop_last() =~= before.drop_last());
                assert(mid.last().node == before.last().node);
            }
            if !self.rule.with_reserved && child.is_reserved {
                assert(self.left() =~= old(self).left());
                continue;
            }
            let mut at = copy_path(&self.stack[k].at);
            at.push(i);
            let path = join_path(self.stack[k].path.as_str(), child.name.as_str());
            let folder = match child.kind {
                NodeKind::Folder => true,
                NodeKind::File => false,
            };
            if folder && (child.expanded || !self.rule.open_only) {
                let frame = Frame { node: child, next: 0, at: copy_path(&at), path: path.clone() };
                self.stack.push(frame);
                assert(self.stack@.drop_last() =~= mid);
                assert(self.stack@.last().at@ == at@);
            }
            let v = Visit { node: child, at, path, depth: k, parent_logical: node.logical_size };
            proof {
                let f = before.last();
                let here = v.step();
                let rest = steps_from(self.rule, f.node@, i + 1, f.at@, f.path@, k as nat);
                let inside = if enters(self.rule, child@) {
                    steps_from(self.rule, child@, 0, at@, path@, (k + 1) as nat)
                } else {
                    Seq::empty()
                };
                assert(steps_from(self.rule, f.node@, i as int, f.at@, f.path@, k as nat) == seq![here]
                    + inside + rest);
                let under = steps_left(self.rule, before.drop_last());
                assert(steps_left(self.rule, mid) == rest + under);
                assert(self.left() =~= inside + (rest + under));
                assert(old(self).left() =~= seq![here] + (inside + (rest + under)));
                assert(old(self).left().skip(1) =~= self.left());
            }
            return Some(v);
        }
        None
    }
}

proof fn lemma_steps_lead(
    rule: WalkRule,
    top: Tree,
    parent: Tree,
    from: int,
    at: Seq<usize>,
    path: Seq<char>,
    depth: nat,
)
    requires
        machine_sized(parent),
        at_path(top, at) == Some(parent),
        0 <= from,
    ensures
        forall|k: int|
            0 <= k < steps_from(rule, parent, from, at, path, depth).len() ==> leads_right(
                top,
                #[trigger] steps_from(rule, parent, from, at, path, depth)[k],
            ),
    decreases parent, parent.children.len() - from,
{
    if from < parent.children.len() {
        let c = parent.children[from];
        lemma_steps_lead(rule, top, parent, from + 1, at, path, depth);
        let rest = steps_from(rule, parent, from + 1, at, path, depth);
        let all = steps_from(rule, parent, from, at, path, depth);
        if shows(rule, c) {
            let way = at.push(from as usize);
            let name = joined(path, c.name);
            let here = Step { node: c, at: way, path: name, depth, parent_logical: parent.logical_size };
            lemma_at_push(top, at, from as usize);
            assert(at_path(top, way) == Some(c));
            let inside = if enters(rule, c) {
                steps_from(rule, c, 0, way, name, depth + 1)
            } else {
                Seq::empty()
            };
            if enters(rule, c) {
                assert(machine_sized(c));
                lemma_steps_lead(rule, top, c, 0, way, name, depth + 1);
            }
            assert(all == seq![here] + inside + rest);
            assert forall|k: int| 0 <= k < all.len() implies leads_right(top, #[trigger] all[k]) by {
                if k == 0 {
                    assert(all[k] == here);
                } else if k < 1 + inside.len() {
                    assert(all[k] == inside[k - 1]);
                } else {
                    assert(all[k] == rest[k - 1 - inside.len()]);
                }
            }
        }
    }
}

/// Whether the way of a step leads from `top` to its node.
pub open spec fn leads_right(top: Tree, s: Step) -> bool {
    at_path(top, s.at) == Some(s.node)
}

/// Whatever a walk comes by stands where it says.
pub proof fn law_every_step_leads_to_its_node(rule: WalkRule, top: Tree, path: Seq<char>)
    requires
        machine_sized(top),
    ensures
        forall|k: int| 0 <= k < steps(rule, top, path).len() ==> leads_right(top, #[trigger] steps(rule, top, path)[k]),
{
    lemma_steps_lead(rule, top, top, 0, Seq::empty(), path, 0);
}

/// Whether `way` leads from `top` to or through a node that NTFS keeps for itself, after its first
/// `n` turns.
pub open spec fn meets_reserved(top: Tree, way: Seq<usize>, n: nat) -> bool {
    exists|m: int|
        n < m <= way.len() && (at_path(top, #[trigger] way.take(m)) matches Some(t) && t.is_reserved)
}

#[verifier::spinoff_prover]
#[verifier::rlimit(60)]
proof fn lemma_hiding(
    open_only: bool,
    top: Tree,
    parent: Tree,
    from: int,
    at: Seq<usize>,
    path: Seq<char>,
    depth: nat,
)
    requires
        machine_sized(parent),
        at_path(top, at) == Some(parent),
        0 <= from,
    ensures
        ({
            let all = steps_from(WalkRule { open_only, with_reserved: true }, parent, from, at, path, depth);
            let some = steps_from(WalkRule { open_only, with_reserved: false }, parent, from, at, path, depth);
            &&& forall|k: int| 0 <= k < some.len() ==> !(#[trigger] some[k]).node.is_reserved && all.contains(some[k])
            &&& forall|k: int|
                0 <= k < all.len() ==> {
                    &&& (#[trigger] all[k]).at.len() > at.len()
                    &&& all[k].at.take(at.len() as int) == at
                    &&& some.contains(all[k]) || meets_reserved(top, all[k].at, at.len())
                }
        }),
    decreases parent, parent.children.len() - from,
{
    if from < parent.children.len() {
        let with = WalkRule { open_only, with_reserved: true };
        let without = WalkRule { open_only, with_reserved: false };
        let c = parent.children[from];
        let way = at.push(from as usize);
        let name = joined(path, c.name);
        let here = Step { node: c, at: way, path: name, depth, parent_logical: parent.logical_size };
        lemma_hiding(open_only, top, parent, from + 1, at, path, depth);
        lemma_at_push(top, at, from as usize);
        assert(at_path(top, way) == Some(c));
        let all = steps_from(with, parent, from, at, path, depth);
        let some = steps_from(without, parent, from, at, path, depth);
        let rest_all = steps_from(with, parent, from + 1, at, path, depth);
        let rest_some = steps_from(without, parent, from + 1, at, path, depth);
        let in_all = if enters(with, c) {
            steps_from(with, c, 0, way, name, depth + 1)
        } else {
            Seq::empty()
        };
        let in_some = if enters(without, c) {
            steps_from(without, c, 0, way, name, depth + 1)
        } else {
            Seq::empty()
        };
        if enters(with, c) {
            assert(machine_sized(c));
            lemma_hiding(open_only, top, c, 0, way, name, depth + 1);
        }
        assert(all == seq![here] + in_all + rest_all);
        assert(way.take(at.len() as int) =~= at);
        assert(way.take(way.len() as int) =~= way);
        // What is before, inside and behind in one walk is there in the other.
        assert forall|k: int| 0 <= k < some.len() implies !(#[trigger] some[k]).node.is_reserved && all.contains(
            some[k],
        ) by {
            if c.is_reserved {
                assert(some[k] == rest_some[k]);
                let j = choose|j: int| 0 <= j < rest_all.len() && rest_all[j] == some[k];
                assert(all[1 + in_all.len() + j] == some[k]);
            } else {
                assert(some == seq![here] + in_some + rest_some);
                if k == 0 {
                    assert(all[0] == some[0]);
                } else if k < 1 + in_some.len() {
                    assert(some[k] == in_some[k - 1]);
                    let j = choose|j: int| 0 <= j < in_all.len() && in_all[j] == some[k];
                    assert(all[1 + j] == some[k]);
                } else {
                    assert(some[k] == rest_some[k - 1 - in_some.len()]);
                    let j = choose|j: int| 0 <= j < rest_all.len() && rest_all[j] == some[k];
                    assert(all[1 + in_all.len() + j] == some[k]);
                }
            }
        }
        assert forall|k: int| 0 <= k < all.len() implies {
            &&& (#[trigger] all[k]).at.len() > at.len()
            &&& all[k].at.take(at.len() as int) == at
            &&& some.contains(all[k]) || meets_reserved(top, all[k].at, at.len())
        } by {
            if 1 <= k < 1 + in_all.len() {
                let s = in_all[k - 1];
                assert(all[k] == s);
                assert(s.at.take(at.len() as int) =~= s.at.take(way.len() as int).take(at.len() as int));
                if c.is_reserved {
                    assert(s.at.take(way.len() as int) == way);
                    assert(meets_reserved(top, s.at, at.len()));
                } else if in_some.contains(s) {
                    let j = choose|j: int| 0 <= j < in_some.len() && in_some[j] == s;
                    assert(some[1 + j] == s);
                } else {
                    let m = choose|m: int|
                        way.len() < m <= s.at.len() && (at_path(top, #[trigger] s.at.take(m)) matches Some(t)
                            && t.is_reserved);
                    assert(at.len() < m <= s.at.len());
                    assert(meets_reserved(top, s.at, at.len()));
                }
            } else if k == 0 {
                assert(all[k] == here);
                if c.is_reserved {
                    assert(at_path(top, here.at.take(way.len() as int)) == Some(c));
                    assert(meets_reserved(top, here.at, at.len()));
                } else {
                    assert(some[0] == here);
                }
            } else {
                let s = rest_all[k - 1 - in_all.len()];
                assert(all[k] == s);
                if rest_some.contains(s) {
                    let j = choose|j: int| 0 <= j < rest_some.len() && rest_some[j] == s;
                    if c.is_reserved {
                        assert(some[j] == s);
                    } else {
                        assert(some[1 + in_some.len() + j] == s);
                    }
                }
            }
        }
    }
}

/// A walk that leaves out what NTFS keeps for itself comes by nothing of that, comes by nothing that
/// a walk through everything would not come by in the same place, and leaves out nothing else: what
/// it misses is kept by NTFS, or is in something that is.
pub proof fn law_only_reserved_nodes_are_left_out(open_only: bool, top: Tree, path: Seq<char>)
    requires
        machine_sized(top),
    ensures
        ({
            let all = steps(WalkRule { open_only, with_reserved: true }, top, path);
            let some = steps(WalkRule { open_only, with_reserved: false }, top, path);
            &&& forall|k: int| 0 <= k < some.len() ==> !(#[trigger] some[k]).node.is_reserved && all.contains(some[k])
            &&& forall|k: int|
                0 <= k < all.len() ==> some.contains(#[trigger] all[k]) || meets_reserved(top, all[k].at, 0)
        }),
{
    lemma_hiding(open_only, top, top, 0, Seq::empty(), path, 0);
}

/// The names on the way `p` down from `t`, spelled behind `path`: each has a backslash before it, but
/// for one that follows a backslash anyway.
pub open spec fn way_spelled(t: Tree, path: Seq<char>, p: Seq<usize>) -> Seq<char>
    decreases p.len(),
{
    if p.len() == 0 {
        path
    } else {
        let c = t.children[p[0] as int];
        let start = if path.len() > 0 && path[path.len() - 1] == '\\' {
            path
        } else {
            path + seq!['\\']
        };
        way_spelled(c, start + c.name, p.skip(1))
    }
}

/// Whether a step knows the folder that directly holds its node: the one at its way without the last
/// turn. It gives the size of that folder, how deep its node is, and the names on the way.
pub open spec fn knows_its_folder(top: Tree, path: Seq<char>, s: Step) -> bool {
    &&& s.at.len() > 0
    &&& s.depth == s.at.len() - 1
    &&& s.path == way_spelled(top, path, s.at)
    &&& at_path(top, s.at) == Some(s.node)
    &&& at_path(top, s.at.drop_last()) matches Some(folder) && s.parent_logical == folder.logical_size
}

proof fn lemma_way_push(t: Tree, path: Seq<char>, p: Seq<usize>, i: usize)
    requires
        at_path(t, p) is Some,
        i < at_path(t, p)->0.children.len(),
    ensures
        way_spelled(t, path, p.push(i)) == joined(
            way_spelled(t, path, p),
            at_path(t, p)->0.children[i as int].name,
        ),
    decreases p.len(),
{
    if p.len() == 0 {
        reveal_with_fuel(way_spelled, 2);
        assert(p.push(i).skip(1) =~= Seq::<usize>::empty());
        assert(path.push('\\') =~= path + seq!['\\']);
    } else {
        assert(p.push(i).skip(1) =~= p.skip(1).push(i));
        let c = t.children[p[0] as int];
        let start = if path.len() > 0 && path[path.len() - 1] == '\\' {
            path
        } else {
            path + seq!['\\']
        };
        lemma_way_push(c, start + c.name, p.skip(1), i);
    }
}

proof fn lemma_steps_know(
    rule: WalkRule,
    top: Tree,
    start: Seq<char>,
    parent: Tree,
    from: int,
    at: Seq<usize>,
    path: Seq<char>,
)
    requires
        machine_sized(parent),
        at_path(top, at) == Some(parent),
        path == way_spelled(top, start, at),
        0 <= from,
    ensures
        forall|k: int|
            0 <= k < steps_from(rule, parent, from, at, path, at.len()).len() ==> knows_its_folder(
                top,
                start,
                #[trigger] steps_from(rule, parent, from, at, path, at.len())[k],
            ),
    decreases parent, parent.children.len() - from,
{
    if from < parent.children.len() {
        let c = parent.children[from];
        lemma_steps_know(rule, top, start, parent, from + 1, at, path);
        let rest = steps_from(rule, parent, from + 1, at, path, at.len());
        let all = steps_from(rule, parent, from, at, path, at.len());
        if shows(rule, c) {
            let way = at.push(from as usize);
            let name = joined(path, c.name);
            let here = Step { node: c, at: way, path: name, depth: at.len(), parent_logical: parent.logical_size };
            lemma_at_push(top, at, from as usize);
            lemma_way_push(top, start, at, from as usize);
            assert(way.drop_last() =~= at);
            let inside = if enters(rule, c) {
                steps_from(rule, c, 0, way, name, at.len() + 1)
            } else {
                Seq::empty()
            };
            if enters(rule, c) {
                assert(machine_sized(c));
                lemma_steps_know(rule, top, start, c, 0, way, name);
            }
            assert(all == seq![here] + inside + rest);
            assert forall|k: int| 0 <= k < all.len() implies knows_its_folder(top, start, #[trigger] all[k]) by {
                if k == 0 {
                    assert(all[k] == here);
                } else if k < 1 + inside.len() {
                    assert(all[k] == inside[k - 1]);
                } else {
                    assert(all[k] == rest[k - 1 - inside.len()]);
                }
            }
        }
    }
}

/// Whatever a walk comes by, it knows the folder that directly holds it.
pub proof fn law_every_step_knows_its_folder(rule: WalkRule, top: Tree, path: Seq<char>)
    requires
        machine_sized(top),
    ensures
        forall|k: int|
            0 <= k < steps(rule, top, path).len() ==> knows_its_folder(top, path, #[trigger] steps(rule, top, path)[k]),
{
    let none = Seq::<usize>::empty();
    lemma_steps_know(rule, top, path, top, 0, none, path);
    assert(steps(rule, top, path) == steps_from(rule, top, 0, none, path, none.len()));
}

/// Whether `p` leads down from `t` through nodes that a walk shows, to one that it shows, and through
/// folders that it enters.
pub open spec fn is_on_walk(rule: WalkRule, t: Tree, p: Seq<usize>) -> bool
    decreases p.len(),
{
    p.len() > 0 && p[0] < t.children.len() && {
        let c = t.children[p[0] as int];
        &&& !c.is_reserved || rule.with_reserved
        &&& p.len() == 1 || (c.kind == NodeKind::Folder && (c.expanded || !rule.open_only) && is_on_walk(
            rule,
            c,
            p.skip(1),
        ))
    }
}

proof fn lemma_walk_reaches(
    rule: WalkRule,
    parent: Tree,
    from: int,
    at: Seq<usize>,
    path: Seq<char>,
    depth: nat,
    p: Seq<usize>,
) -> (k: int)
    requires
        is_on_walk(rule, parent, p),
        0 <= from <= p[0],
    ensures
        0 <= k < steps_from(rule, parent, from, at, path, depth).len(),
        steps_from(rule, parent, from, at, path, depth)[k].at == at + p,
    decreases p.len(), parent.children.len() - from,
{
    let c = parent.children[from];
    let way = at.push(from as usize);
    let name = joined(path, c.name);
    let here = Step { node: c, at: way, path: name, depth, parent_logical: parent.logical_size };
    let rest = steps_from(rule, parent, from + 1, at, path, depth);
    let inside = if enters(rule, c) {
        steps_from(rule, c, 0, way, name, depth + 1)
    } else {
        Seq::empty()
    };
    let all = steps_from(rule, parent, from, at, path, depth);
    if from < p[0] {
        let k = lemma_walk_reaches(rule, parent, from + 1, at, path, depth, p);
        if shows(rule, c) {
            assert(all == seq![here] + inside + rest);
            assert(all[1 + inside.len() + k] == rest[k]);
            1 + inside.len() + k
        } else {
            k
        }
    } else {
        assert(all == seq![here] + inside + rest);
        if p.len() == 1 {
            assert(all[0] == here);
            assert(way =~= at + p);
            0
        } else {
            let k = lemma_walk_reaches(rule, c, 0, way, name, depth + 1, p.skip(1));
            assert(all[1 + k] == inside[k]);
            assert(way + p.skip(1) =~= at + p);
            1 + k
        }
    }
}

/// A walk misses nothing: it comes by every place that is to be shown in folders that are entered.
pub proof fn law_walk_comes_by_everything_shown(rule: WalkRule, top: Tree, path: Seq<char>, p: Seq<usize>)
    requires
        is_on_walk(rule, top, p),
    ensures
        exists|k: int| 0 <= k < steps(rule, top, path).len() && (#[trigger] steps(rule, top, path)[k]).at == p,
{
    let k = lemma_walk_reaches(rule, top, 0, Seq::empty(), path, 0, p);
    assert(Seq::<usize>::empty() + p =~= p);
    assert(steps(rule, top, path)[k].at == p);
}

/// Whether the place `p` comes before the place `q` from top to bottom: a folder before what is in
/// it, and an earlier child, with all that is in it, before a later one.
pub open spec fn stands_above(p: Seq<usize>, q: Seq<usize>) -> bool
    decreases q.len(),
{
    q.len() > 0 && (p.len() == 0 || p[0] < q[0] || (p[0] == q[0] && stands_above(p.skip(1), q.skip(1))))
}

proof fn lemma_above_behind(at: Seq<usize>, p: Seq<usize>, q: Seq<usize>)
    ensures
        stands_above(at + p, at + q) == stands_above(p, q),
    decreases at.len(),
{
    if at.len() == 0 {
        assert(at + p =~= p);
        assert(at + q =~= q);
    } else {
        assert((at + p).skip(1) =~= at.skip(1) + p);
        assert((at + q).skip(1) =~= at.skip(1) + q);
        lemma_above_behind(at.skip(1), p, q);
    }
}

/// All steps below `parent` lead on from `at`, through child `from` or a later one.
proof fn lemma_steps_stay_below(
    rule: WalkRule,
    parent: Tree,
    from: int,
    at: Seq<usize>,
    path: Seq<char>,
    depth: nat,
)
    requires
        machine_sized(parent),
        0 <= from,
    ensures
        ({
            let all = steps_from(rule, parent, from, at, path, depth);
            &&& forall|k: int|
                0 <= k < all.len() ==> {
                    &&& (#[trigger] all[k]).at.len() > at.len()
                    &&& all[k].at.take(at.len() as int) == at
                    &&& all[k].at[at.len() as int] >= from
                }
            &&& forall|k: int, l: int|
                0 <= k < l < all.len() ==> stands_above((#[trigger] all[k]).at, (#[trigger] all[l]).at)
        }),
    decreases parent, parent.children.len() - from,
{
    if from < parent.children.len() {
        let c = parent.children[from];
        let n = at.len() as int;
        lemma_steps_stay_below(rule, parent, from + 1, at, path, depth);
        let rest = steps_from(rule, parent, from + 1, at, path, depth);
        let all = steps_from(rule, parent, from, at, path, depth);
        if shows(rule, c) {
            let way = at.push(from as usize);
            let name = joined(path, c.name);
            let here = Step { node: c, at: way, path: name, depth, parent_logical: parent.logical_size };
            let inside = if enters(rule, c) {
                steps_from(rule, c, 0, way, name, depth + 1)
            } else {
                Seq::empty()
            };
            if enters(rule, c) {
                assert(machine_sized(c));
                lemma_steps_stay_below(rule, c, 0, way, name, depth + 1);
            }
            assert(all == seq![here] + inside + rest);
            assert forall|k: int| 0 <= k < all.len() implies {
                &&& (#[trigger] all[k]).at.len() > at.len()
                &&& all[k].at.take(n) == at
                &&& all[k].at[n] >= from
                &&& k < 1 + inside.len() ==> all[k].at[n] == from
            } by {
                if k == 0 {
                    assert(all[k] == here);
                    assert(way.take(n) =~= at);
                } else if k < 1 + inside.len() {
                    let s = inside[k - 1];
                    assert(all[k] == s);
                    assert(s.at.take(way.len() as int) == way);
                    assert(s.at[n] == way[n]) by {
                        assert(s.at.take(way.len() as int)[n] == s.at[n]);
                    }
                    assert(s.at.take(n) =~= s.at.take(way.len() as int).take(n));
                    assert(way.take(n) =~= at);
                } else {
                    assert(all[k] == rest[k - 1 - inside.len()]);
                }
            }
            assert forall|k: int, l: int| 0 <= k < l < all.len() implies stands_above(
                (#[trigger] all[k]).at,
                (#[trigger] all[l]).at,
            ) by {
                let a = all[k].at;
                let b = all[l].at;
                if k >= 1 + inside.len() {
                    assert(all[k] == rest[k - 1 - inside.len()]);
                    assert(all[l] == rest[l - 1 - inside.len()]);
                } else if l >= 1 + inside.len() {
                    assert(all[l] == rest[l - 1 - inside.len()]);
                    assert(a =~= at + a.skip(n)) by {
                        assert(a.take(n) == at);
                        assert(a =~= a.take(n) + a.skip(n));
                    }
                    assert(b =~= at + b.skip(n)) by {
                        assert(b.take(n) == at);
                        assert(b =~= b.take(n) + b.skip(n));
                    }
                    assert(a.skip(n)[0] == from && b.skip(n)[0] >= from + 1);
                    assert(stands_above(a.skip(n), b.skip(n)));
                    lemma_above_behind(at, a.skip(n), b.skip(n));
                } else if k >= 1 {
                    assert(all[k] == inside[k - 1]);
                    assert(all[l] == inside[l - 1]);
                } else {
                    assert(all[k] == here);
                    assert(all[l] == inside[l - 1]);
                    let m = way.len() as int;
                    assert(b =~= way + b.skip(m)) by {
                        assert(b.take(m) == way);
                        assert(b =~= b.take(m) + b.skip(m));
                    }
                    assert(a =~= way + Seq::<usize>::empty());
                    assert(stands_above(Seq::<usize>::empty(), b.skip(m)));
                    lemma_above_behind(way, Seq::<usize>::empty(), b.skip(m));
                }
            }
        }
    }
}

/// A walk goes from top to bottom: each step leads to a place below that of every step before it, so
/// no place is come by twice.
pub proof fn law_walk_goes_from_top_to_bottom(rule: WalkRule, top: Tree, path: Seq<char>)
    requires
        machine_sized(top),
    ensures
        forall|k: int, l: int|
            0 <= k < l < steps(rule, top, path).len() ==> stands_above(
                (#[trigger] steps(rule, top, path)[k]).at,
                (#[trigger] steps(rule, top, path)[l]).at,
            ),
{
    lemma_steps_stay_below(rule, top, 0, Seq::empty(), path, 0);
}

/// Whatever a walk comes by is to be shown, in folders that are entered.
pub proof fn law_walk_comes_by_nothing_else(rule: WalkRule, top: Tree, path: Seq<char>)
    requires
        machine_sized(top),
    ensures
        forall|k: int|
            0 <= k < steps(rule, top, path).len() ==> is_on_walk(rule, top, (#[trigger] steps(rule, top, path)[k]).at),
{
    lemma_steps_are_shown(rule, top, 0, Seq::empty(), path, 0);
    assert forall|k: int| 0 <= k < steps(rule, top, path).len() implies is_on_walk(
        rule,
        top,
        (#[trigger] steps(rule, top, path)[k]).at,
    ) by {
        let s = steps_from(rule, top, 0, Seq::empty(), path, 0)[k];
        assert(s.at.skip(0) =~= s.at);
    }
}

proof fn lemma_steps_are_shown(
    rule: WalkRule,
    parent: Tree,
    from: int,
    at: Seq<usize>,
    path: Seq<char>,
    depth: nat,
)
    requires
        machine_sized(parent),
        0 <= from,
    ensures
        forall|k: int|
            0 <= k < steps_from(rule, parent, from, at, path, depth).len() ==> is_on_walk(
                rule,
                parent,
                (#[trigger] steps_from(rule, parent, from, at, path, depth)[k]).at.skip(at.len() as int),
            ),
    decreases parent, parent.children.len() - from,
{
    if from < parent.children.len() {
        let c = parent.children[from];
        let n = at.len() as int;
        lemma_steps_are_shown(rule, parent, from + 1, at, path, depth);
        let rest = steps_from(rule, parent, from + 1, at, path, depth);
        let all = steps_from(rule, parent, from, at, path, depth);
        if shows(rule, c) {
            let way = at.push(from as usize);
            let name = joined(path, c.name);
            let here = Step { node: c, at: way, path: name, depth, parent_logical: parent.logical_size };
            let inside = if enters(rule, c) {
                steps_from(rule, c, 0, way, name, depth + 1)
            } else {
                Seq::empty()
            };
            if enters(rule, c) {
                assert(machine_sized(c));
                lemma_steps_are_shown(rule, c, 0, way, name, depth + 1);
                lemma_steps_stay_below(rule, c, 0, way, name, depth + 1);
            }
            assert(all == seq![here] + inside + rest);
            assert forall|k: int| 0 <= k < all.len() implies is_on_walk(
                rule,
                parent,
                (#[trigger] all[k]).at.skip(n),
            ) by {
                if k == 0 {
                    assert(all[k] == here);
                    assert(way.skip(n) =~= seq![from as usize]);
                } else if k < 1 + inside.len() {
                    let s = inside[k - 1];
                    assert(all[k] == s);
                    assert(s.at.take(way.len() as int) == way);
                    assert(s.at[n] == from) by {
                        assert(s.at.take(way.len() as int)[n] == s.at[n]);
                    }
                    assert(s.at.skip(n).skip(1) =~= s.at.skip(way.len() as int));
                    assert(s.at.skip(n)[0] == from);
                    assert(is_on_walk(rule, c, s.at.skip(way.len() as int)));
                } else {
                    assert(all[k] == rest[k - 1 - inside.len()]);
                }
            }
        }
    }
}

// ---------------------------------------------------------------------------------------------
// The files alone, the last first
// ---------------------------------------------------------------------------------------------

/// A file and its path.
pub struct Found {
    pub file: Tree,
    pub path: Seq<char>,
}

/// The path of what is called `name` in the folder at `parent`, where the top has no path.
pub open spec fn below(parent: Seq<char>, name: Seq<char>) -> Seq<char> {
    if parent.len() == 0 {
        name
    } else {
        parent.push('\\') + name
    }
}

/// `path` without the backslashes at its end.
pub open spec fn trimmed(path: Seq<char>) -> Seq<char>
    decreases path.len(),
{
    if path.len() > 0 && path.last() == '\\' {
        trimmed(path.drop_last())
    } else {
        path
    }
}

/// The files at and below `t`, which is at `path`: the last child of a folder comes first.
pub open spec fn files_of(t: Tree, path: Seq<char>) -> Seq<Found>
    decreases t,
{
    if t.kind == NodeKind::File {
        seq![Found { file: t, path }]
    } else {
        files_among(t.children, path)
    }
}

/// The files at and below some nodes of the folder at `path`, the last first.
pub open spec fn files_among(ch: Seq<Tree>, path: Seq<char>) -> Seq<Found>
    decreases ch,
{
    if ch.len() == 0 {
        Seq::empty()
    } else {
        files_of(ch.last(), below(path, ch.last().name)) + files_among(ch.drop_last(), path)
    }
}

/// Without the backslashes at its end a path does not end in one, and nothing but backslashes is lost.
pub proof fn law_only_backslashes_are_trimmed(path: Seq<char>)
    ensures
        trimmed(path).len() == 0 || trimmed(path).last() != '\\',
        trimmed(path).len() <= path.len(),
        path.take(trimmed(path).len() as int) == trimmed(path),
        forall|i: int| trimmed(path).len() <= i < path.len() ==> #[trigger] path[i] == '\\',
    decreases path.len(),
{
    if path.len() > 0 && path.last() == '\\' {
        law_only_backslashes_are_trimmed(path.drop_last());
        let n = trimmed(path).len() as int;
        assert(path.take(n) =~= path.drop_last().take(n));
        assert forall|i: int| n <= i < path.len() implies #[trigger] path[i] == '\\' by {
            if i < path.len() - 1 {
                assert(path.drop_last()[i] == path[i]);
            }
        }
    } else {
        assert(path.take(path.len() as int) =~= path);
    }
}

/// Whether `p` leads from `t` through folders to a file.
pub open spec fn is_file_at(t: Tree, p: Seq<usize>) -> bool
    decreases p.len(),
{
    if p.len() == 0 {
        t.kind == NodeKind::File
    } else {
        t.kind == NodeKind::Folder && p[0] < t.children.len() && is_file_at(t.children[p[0] as int], p.skip(1))
    }
}

/// The names on the way `p` down from `t`, spelled behind `path` with backslashes in between.
pub open spec fn spelled(t: Tree, path: Seq<char>, p: Seq<usize>) -> Seq<char>
    decreases p.len(),
{
    if p.len() == 0 {
        path
    } else {
        let c = t.children[p[0] as int];
        spelled(
            c,
            if path.len() == 0 {
                c.name
            } else {
                path + seq!['\\'] + c.name
            },
            p.skip(1),
        )
    }
}

/// How many files are found before the one at `p`.
pub open spec fn found_before(t: Tree, path: Seq<char>, p: Seq<usize>) -> nat
    decreases p.len(),
{
    if p.len() == 0 {
        0
    } else {
        let c = t.children[p[0] as int];
        files_among(t.children.skip(p[0] + 1), path).len() + found_before(c, below(path, c.name), p.skip(1))
    }
}

/// The files among some nodes: first those behind node `i`, then those of node `i`, then those before.
proof fn lemma_files_split(ch: Seq<Tree>, path: Seq<char>, i: int)
    requires
        0 <= i < ch.len(),
    ensures
        files_among(ch, path) == files_among(ch.skip(i + 1), path) + files_of(ch[i], below(path, ch[i].name))
            + files_among(ch.take(i), path),
    decreases ch.len(),
{
    let last = ch.last();
    let front = ch.drop_last();
    if i == ch.len() - 1 {
        assert(ch.skip(i + 1) =~= Seq::empty());
        assert(front =~= ch.take(i));
        assert(files_among(ch, path) =~= files_among(ch.skip(i + 1), path) + files_of(
            ch[i],
            below(path, ch[i].name),
        ) + files_among(ch.take(i), path));
    } else {
        lemma_files_split(front, path, i);
        assert(front.take(i) =~= ch.take(i));
        assert(ch.skip(i + 1).drop_last() =~= front.skip(i + 1));
        assert(ch.skip(i + 1).last() == last);
        assert(files_among(ch, path) =~= files_among(ch.skip(i + 1), path) + files_of(
            ch[i],
            below(path, ch[i].name),
        ) + files_among(ch.take(i), path));
    }
}

/// Every file of a tree is found, wherever it stands, with the names on the way to it as its path.
pub proof fn law_every_file_is_found(t: Tree, path: Seq<char>, p: Seq<usize>)
    requires
        is_file_at(t, p),
    ensures
        found_before(t, path, p) < files_of(t, path).len(),
        at_path(t, p) == Some(files_of(t, path)[found_before(t, path, p) as int].file),
        files_of(t, path)[found_before(t, path, p) as int].path == spelled(t, path, p),
    decreases p.len(),
{
    if p.len() > 0 {
        let i = p[0] as int;
        let c = t.children[i];
        let q = below(path, c.name);
        lemma_files_split(t.children, path, i);
        law_every_file_is_found(c, q, p.skip(1));
        assert(q =~= if path.len() == 0 {
            c.name
        } else {
            path + seq!['\\'] + c.name
        });
        let behind = files_among(t.children.skip(i + 1), path);
        let k = found_before(c, q, p.skip(1));
        assert(files_of(t, path)[(behind.len() + k) as int] == files_of(c, q)[k as int]);
    }
}

/// Every file of a tree is found once: files in different places are different finds.
pub proof fn law_no_file_is_found_twice(t: Tree, path: Seq<char>, p: Seq<usize>, q: Seq<usize>)
    requires
        is_file_at(t, p),
        is_file_at(t, q),
        p != q,
    ensures
        found_before(t, path, p) != found_before(t, path, q),
    decreases p.len(),
{
    if p.len() == 0 || q.len() == 0 {
        assert(p =~= q);
    } else {
        let i = p[0] as int;
        let j = q[0] as int;
        if i == j {
            let c = t.children[i];
            if p.skip(1) =~= q.skip(1) {
                assert(p =~= seq![p[0]] + p.skip(1));
                assert(q =~= seq![q[0]] + q.skip(1));
            }
            law_no_file_is_found_twice(c, below(path, c.name), p.skip(1), q.skip(1));
        } else if i < j {
            lemma_found_apart(t, path, p, q);
        } else {
            lemma_found_apart(t, path, q, p);
        }
    }
}

/// What stands in a later child is found earlier.
proof fn lemma_found_apart(t: Tree, path: Seq<char>, p: Seq<usize>, q: Seq<usize>)
    requires
        is_file_at(t, p),
        is_file_at(t, q),
        p.len() > 0,
        q.len() > 0,
        p[0] < q[0],
    ensures
        found_before(t, path, q) < found_before(t, path, p),
{
    let i = p[0] as int;
    let j = q[0] as int;
    let c = t.children[j];
    law_every_file_is_found(c, below(path, c.name), q.skip(1));
    let rest = t.children.skip(i + 1);
    lemma_files_split(rest, path, j - i - 1);
    assert(rest.skip(j - i) =~= t.children.skip(j + 1));
    assert(rest[j - i - 1] == c);
}

/// Nothing else is found: whatever is found stands somewhere in the tree as a file.
pub proof fn law_only_files_are_found(t: Tree, path: Seq<char>, k: int) -> (p: Seq<usize>)
    requires
        machine_sized(t),
        0 <= k < files_of(t, path).len(),
    ensures
        is_file_at(t, p),
        found_before(t, path, p) == k,
    decreases t, 1nat,
{
    if t.kind == NodeKind::File {
        Seq::empty()
    } else {
        lemma_only_files_among(t, path, k, t.children.len() as int)
    }
}

proof fn lemma_only_files_among(t: Tree, path: Seq<char>, k: int, n: int) -> (p: Seq<usize>)
    requires
        machine_sized(t),
        t.kind == NodeKind::Folder,
        0 <= n <= t.children.len(),
        files_among(t.children.skip(n), path).len() <= k < files_among(t.children, path).len(),
    ensures
        is_file_at(t, p),
        found_before(t, path, p) == k,
    decreases t, 0nat, n,
{
    if n == 0 {
        assert(t.children.skip(0) =~= t.children);
        Seq::empty()
    } else {
        let c = t.children[n - 1];
        let behind = files_among(t.children.skip(n), path);
        let inside = files_of(c, below(path, c.name));
        lemma_files_split(t.children.skip(n - 1), path, 0);
        assert(t.children.skip(n - 1).skip(1) =~= t.children.skip(n));
        assert(t.children.skip(n - 1).take(0) =~= Seq::empty());
        if k < behind.len() + inside.len() {
            let rest = law_only_files_are_found(c, below(path, c.name), k - behind.len());
            let p = seq![(n - 1) as usize] + rest;
            assert(p.skip(1) =~= rest);
            p
        } else {
            lemma_only_files_among(t, path, k, n - 1)
        }
    }
}

/// `path` without the backslashes at its end.
pub fn trim_backslashes(path: &str) -> (r: String)
    ensures
        r@ == trimmed(path@),
{
    let v = chars_of(path);
    let mut n: usize = v.len();
    assert(v@.take(n as int) =~= v@);
    while n > 0 && v[n - 1] == '\\'
        invariant
            n <= v@.len(),
            trimmed(v@) == trimmed(v@.take(n as int)),
        decreases n,
    {
        assert(v@.take(n as int).drop_last() =~= v@.take(n - 1));
        n = n - 1;
    }
    assert(v@.subrange(0, n as int) =~= v@.take(n as int));
    string_of(&v, 0, n)
}

/// A walk to the files of a tree under way.
pub struct FileWalker<'a> {
    /// What is yet to be looked at, each with its path.
    pub stack: Vec<(&'a Node, String)>,
}

/// The files that are still ahead.
pub open spec fn files_left(stack: Seq<(&Node, String)>) -> Seq<Found>
    decreases stack.len(),
{
    if stack.len() == 0 {
        Seq::empty()
    } else {
        files_of(stack.last().0@, stack.last().1@) + files_left(stack.drop_last())
    }
}

/// How many nodes are still ahead.
spec fn nodes_left(stack: Seq<(&Node, String)>) -> nat
    decreases stack.len(),
{
    if stack.len() == 0 {
        0
    } else {
        node_count(stack.last().0@) + nodes_left(stack.drop_last())
    }
}

impl<'a> FileWalker<'a> {
    /// The files that the walk has yet to come by.
    pub open spec fn left(&self) -> Seq<Found> {
        files_left(self.stack@)
    }

    /// A walk to the files at and below `top`, which is at `path`.
    pub fn new(top: &'a Node, path: &str) -> (w: Self)
        ensures
            w.left() == files_of(top@, trimmed(path@)),
    {
        let mut stack: Vec<(&'a Node, String)> = Vec::new();
        stack.push((top, trim_backslashes(path)));
        proof {
            reveal_with_fuel(files_left, 2);
            assert(stack@.drop_last() =~= Seq::empty());
        }
        let w = FileWalker { stack };
        assert(w.left() =~= files_of(top@, trimmed(path@)));
        w
    }

    /// Goes on to the next file, if there is one.
    pub fn next(&mut self) -> (v: Option<(&'a Node, String)>)
        ensures
            match v {
                Some(x) => {
                    &&& old(self).left().len() > 0
                    &&& (Found { file: x.0@, path: x.1@ }) == old(self).left()[0]
                    &&& x.0@.kind == NodeKind::File
                    &&& final(self).left() == old(self).left().skip(1)
                },
                None => old(self).left().len() == 0 && final(self).left() == old(self).left(),
            },
    {
        while self.stack.len() > 0
            invariant
                self.left() == old(self).left(),
            decreases nodes_left(self.stack@),
        {
            let ghost before = self.stack@;
            let (node, path): (&'a Node, String) = match self.stack.pop() {
                Some(x) => x,
                None => {
                    return None;
                },
            };
            let ghost under = self.stack@;
            let is_file = match node.kind {
                NodeKind::File => true,
                NodeKind::Folder => false,
            };
            if is_file {
                assert(old(self).left().skip(1) =~= self.left());
                return Some((node, path));
            }
            let mut i: usize = 0;
            while i < node.children.len()
                invariant
                    i <= node.children@.len(),
                    files_left(self.stack@) == files_among(node@.children.take(i as int), path@)
                        + files_left(under),
                    nodes_left(self.stack@) == nodes_among(node@.children.take(i as int)) + nodes_left(
                        under,
                    ),
                decreases node.children@.len() - i,
            {
                let child: &'a Node = &node.children[i];
                let child_path = if path.as_str().is_empty() {
                    child.name.clone()
                } else {
                    let mut p = path.clone();
                    p.push('\\');
                    p.append(child.name.as_str());
                    p
                };
                let ghost was = self.stack@;
                self.stack.push((child, child_path));
                proof {
                    assert(self.stack@.drop_last() =~= was);
                    assert(node@.children.take(i + 1).drop_last() =~= node@.children.take(i as int));
                    assert(node@.children.take(i + 1).last() == child@);
                    assert(files_left(self.stack@) =~= files_among(node@.children.take(i + 1), path@)
                        + files_left(under));
                }
                i = i + 1;
            }
            assert(node@.children.take(i as int) =~= node@.children);
            assert(self.left() =~= old(self).left());
        }
        None
    }
}

} // verus!
