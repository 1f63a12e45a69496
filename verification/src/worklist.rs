//! Changing a tree place by place.
//!
//! A walk that changes a tree in place keeps a stack of the paths still to be visited. What is
//! left to be done is then a change at each of those paths. The lemmas here say how one visit
//! moves work from a node to its children.
use vstd::prelude::*;

#[allow(unused_imports)]
use crate::model::{at_path, lemma_at_push, lemma_with_push, lemma_with_same, with_at, Tree};

verus! {

/// The tree with the node at the end of `p` changed by `f`, if there is one.
pub open spec fn change_at(t: Tree, p: Seq<usize>, f: spec_fn(Tree) -> Tree) -> Tree {
    match at_path(t, p) {
        Some(n) => with_at(t, p, f(n)),
        None => t,
    }
}

/// The tree with the nodes at all the paths of `stack` changed by `f`, from the last path on.
pub open spec fn change_each(t: Tree, stack: Seq<Seq<usize>>, f: spec_fn(Tree) -> Tree) -> Tree
    decreases stack.len(),
{
    if stack.len() == 0 {
        t
    } else {
        change_each(change_at(t, stack.last(), f), stack.drop_last(), f)
    }
}

/// The paths of the children `idx` of the node at `p`.
pub open spec fn child_paths(p: Seq<usize>, idx: Seq<usize>) -> Seq<Seq<usize>> {
    Seq::new(idx.len(), |k: int| p.push(idx[k]))
}

/// `ch` with the items at the positions `idx` changed by `f`.
pub open spec fn changed_children(ch: Seq<Tree>, idx: Seq<usize>, f: spec_fn(Tree) -> Tree) -> Seq<Tree> {
    Seq::new(
        ch.len(),
        |j: int|
            if idx.contains(j as usize) {
                f(ch[j])
            } else {
                ch[j]
            },
    )
}

/// What was put at the end of a path is found there.
pub proof fn lemma_at_with(t: Tree, p: Seq<usize>, x: Tree)
    requires
        at_path(t, p) is Some,
    ensures
        at_path(with_at(t, p, x), p) == Some(x),
    decreases p.len(),
{
    if p.len() > 0 {
        lemma_at_with(t.children[p[0] as int], p.skip(1), x);
    }
}

/// Of two nodes put in one place the second stays.
pub proof fn lemma_with_with(t: Tree, p: Seq<usize>, x: Tree, y: Tree)
    requires
        at_path(t, p) is Some,
    ensures
        with_at(with_at(t, p, x), p, y) == with_at(t, p, y),
    decreases p.len(),
{
    if p.len() > 0 {
        let c = t.children[p[0] as int];
        lemma_with_with(c, p.skip(1), x, y);
        let cx = with_at(c, p.skip(1), x);
        assert(t.children.update(p[0] as int, cx).update(p[0] as int, with_at(c, p.skip(1), y))
            =~= t.children.update(p[0] as int, with_at(c, p.skip(1), y)));
    }
}

/// Whether one of two paths starts with the other.
pub open spec fn comparable(p: Seq<usize>, q: Seq<usize>) -> bool {
    p.is_prefix_of(q) || q.is_prefix_of(p)
}

/// A change at one path is not seen at another that neither leads to it nor away from it.
pub proof fn lemma_with_elsewhere(t: Tree, p: Seq<usize>, x: Tree, q: Seq<usize>)
    requires
        !comparable(p, q),
    ensures
        at_path(with_at(t, p, x), q) == at_path(t, q),
    decreases p.len(),
{
    if p.len() == 0 || q.len() == 0 {
        assert(p.is_prefix_of(q) || q.is_prefix_of(p));
    } else if p[0] < t.children.len() && p[0] == q[0] {
        assert(!comparable(p.skip(1), q.skip(1))) by {
            if p.skip(1).is_prefix_of(q.skip(1)) {
                assert(p =~= q.subrange(0, p.len() as int)) by {
                    assert forall|i: int| 0 <= i < p.len() implies p[i] == q[i] by {
                        if i > 0 {
                            assert(p.skip(1)[i - 1] == q.skip(1)[i - 1]);
                        }
                    }
                }
            }
            if q.skip(1).is_prefix_of(p.skip(1)) {
                assert(q =~= p.subrange(0, q.len() as int)) by {
                    assert forall|i: int| 0 <= i < q.len() implies q[i] == p[i] by {
                        if i > 0 {
                            assert(q.skip(1)[i - 1] == p.skip(1)[i - 1]);
                        }
                    }
                }
            }
        }
        lemma_with_elsewhere(t.children[p[0] as int], p.skip(1), x, q.skip(1));
    }
}

/// Changing the children `idx` of the node at `p`, one by one, and then going on with `stack`,
/// is putting the node with those children changed, and then going on with `stack`.
pub proof fn lemma_change_children(
    t: Tree,
    stack: Seq<Seq<usize>>,
    p: Seq<usize>,
    idx: Seq<usize>,
    f: spec_fn(Tree) -> Tree,
)
    requires
        at_path(t, p) is Some,
        at_path(t, p)->0.children.len() <= usize::MAX,
        idx.no_duplicates(),
        forall|k: int| 0 <= k < idx.len() ==> #[trigger] idx[k] < at_path(t, p)->0.children.len(),
    ensures
        change_each(t, stack + child_paths(p, idx), f) == change_each(
            with_at(
                t,
                p,
                (Tree {
                    children: changed_children(at_path(t, p)->0.children, idx, f),
                    ..at_path(t, p)->0
                }),
            ),
            stack,
            f,
        ),
    decreases idx.len(),
{
    let c = at_path(t, p)->0;
    if idx.len() == 0 {
        assert(stack + child_paths(p, idx) =~= stack);
        assert(changed_children(c.children, idx, f) =~= c.children);
        lemma_with_same(t, p);
    } else {
        let i = idx.last();
        let rest = idx.drop_last();
        let all = stack + child_paths(p, idx);
        assert(all.last() == p.push(i));
        assert(all.drop_last() =~= stack + child_paths(p, rest));
        lemma_at_push(t, p, i);
        assert(i < c.children.len()) by {
            assert(idx[idx.len() - 1] < c.children.len());
        }
        lemma_with_push(t, p, i, f(c.children[i as int]));
        let c1 = Tree { children: c.children.update(i as int, f(c.children[i as int])), ..c };
        let t1 = with_at(t, p, c1);
        assert(change_at(t, p.push(i), f) == t1);
        lemma_at_with(t, p, c1);
        assert(rest.no_duplicates());
        assert forall|k: int| 0 <= k < rest.len() implies #[trigger] rest[k] < c1.children.len() by {
            assert(idx[k] < c.children.len());
        }
        lemma_change_children(t1, stack, p, rest, f);
        let c2 = Tree { children: changed_children(c1.children, rest, f), ..c1 };
        lemma_with_with(t, p, c1, c2);
        assert(changed_children(c1.children, rest, f) =~= changed_children(c.children, idx, f)) by {
            assert(!rest.contains(i)) by {
                if rest.contains(i) {
                    let k = rest.index_of(i);
                    assert(idx[k] == idx[idx.len() - 1]);
                }
            }
            assert forall|j: int| 0 <= j < c.children.len() implies #[trigger] idx.contains(j as usize) == (rest.contains(
                j as usize,
            ) || j == i) by {
                if idx.contains(j as usize) {
                    let k = idx.index_of(j as usize);
                    if k < rest.len() {
                        assert(rest[k] == j as usize);
                    }
                }
                if rest.contains(j as usize) {
                    let k = rest.index_of(j as usize);
                    assert(idx[k] == j as usize);
                }
                assert(idx[idx.len() - 1] == i);
            }
        }
    }
}

// ---------------------------------------------------------------------------------------------
// That such a walk ends
// ---------------------------------------------------------------------------------------------

/// How many nodes a tree has.
pub open spec fn node_count(t: Tree) -> nat
    decreases t,
{
    1 + nodes_among(t.children)
}

/// How many nodes some trees have together.
pub open spec fn nodes_among(ch: Seq<Tree>) -> nat
    decreases ch,
{
    if ch.len() == 0 {
        0
    } else {
        nodes_among(ch.drop_last()) + node_count(ch.last())
    }
}

/// How many nodes stand at and below the end of `p`.
pub open spec fn nodes_at(t: Tree, p: Seq<usize>) -> nat {
    match at_path(t, p) {
        Some(n) => node_count(n),
        None => 1,
    }
}

/// How many nodes stand at and below the ends of the paths of `stack`, counted path by path.
pub open spec fn nodes_ahead(t: Tree, stack: Seq<Seq<usize>>) -> nat
    decreases stack.len(),
{
    if stack.len() == 0 {
        0
    } else {
        nodes_ahead(t, stack.drop_last()) + nodes_at(t, stack.last())
    }
}

/// Whether no path of `stack` starts with another one.
pub open spec fn apart(stack: Seq<Seq<usize>>) -> bool {
    forall|a: int, b: int|
        0 <= a < b < stack.len() ==> !comparable(#[trigger] stack[a], #[trigger] stack[b])
}

/// A change at a path is not seen by a stack whose paths are all apart from it.
pub proof fn lemma_ahead_elsewhere(t: Tree, p: Seq<usize>, x: Tree, stack: Seq<Seq<usize>>)
    requires
        forall|a: int| 0 <= a < stack.len() ==> !comparable(#[trigger] stack[a], p),
    ensures
        nodes_ahead(with_at(t, p, x), stack) == nodes_ahead(t, stack),
    decreases stack.len(),
{
    if stack.len() > 0 {
        lemma_ahead_elsewhere(t, p, x, stack.drop_last());
        assert(!comparable(stack[stack.len() - 1], p));
        lemma_with_elsewhere(t, p, x, stack.last());
    }
}

/// The children of a node, or some of them, have fewer nodes than it has.
pub proof fn lemma_children_ahead(t: Tree, stack: Seq<Seq<usize>>, p: Seq<usize>, idx: Seq<usize>)
    requires
        at_path(t, p) is Some,
        idx.no_duplicates(),
        forall|k: int| 0 <= k < idx.len() ==> #[trigger] idx[k] < at_path(t, p)->0.children.len(),
    ensures
        nodes_ahead(t, stack + child_paths(p, idx)) < nodes_ahead(t, stack) + nodes_at(t, p),
{
    let c = at_path(t, p)->0;
    lemma_children_ahead_sum(t, stack, p, idx);
    lemma_some_among(c.children, idx);
}

/// The nodes of the items of `ch` at the positions `idx`.
pub open spec fn nodes_picked(ch: Seq<Tree>, idx: Seq<usize>) -> nat
    decreases idx.len(),
{
    if idx.len() == 0 {
        0
    } else {
        nodes_picked(ch, idx.drop_last()) + node_count(ch[idx.last() as int])
    }
}

proof fn lemma_children_ahead_sum(t: Tree, stack: Seq<Seq<usize>>, p: Seq<usize>, idx: Seq<usize>)
    requires
        at_path(t, p) is Some,
        forall|k: int| 0 <= k < idx.len() ==> #[trigger] idx[k] < at_path(t, p)->0.children.len(),
    ensures
        nodes_ahead(t, stack + child_paths(p, idx)) == nodes_ahead(t, stack) + nodes_picked(
            at_path(t, p)->0.children,
            idx,
        ),
    decreases idx.len(),
{
    if idx.len() == 0 {
        assert(stack + child_paths(p, idx) =~= stack);
    } else {
        let rest = idx.drop_last();
        let all = stack + child_paths(p, idx);
        assert(all.last() == p.push(idx.last()));
        assert(all.drop_last() =~= stack + child_paths(p, rest));
        assert forall|k: int| 0 <= k < rest.len() implies #[trigger] rest[k] < at_path(t, p)->0.children.len() by {
            assert(idx[k] < at_path(t, p)->0.children.len());
        }
        lemma_children_ahead_sum(t, stack, p, rest);
        lemma_at_push(t, p, idx.last());
        assert(idx[idx.len() - 1] < at_path(t, p)->0.children.len());
    }
}

proof fn lemma_among_remove(ch: Seq<Tree>, i: int)
    requires
        0 <= i < ch.len(),
    ensures
        nodes_among(ch) == nodes_among(ch.remove(i)) + node_count(ch[i]),
    decreases ch.len(),
{
    if i == ch.len() - 1 {
        assert(ch.remove(i) =~= ch.drop_last());
    } else {
        lemma_among_remove(ch.drop_last(), i);
        assert(ch.remove(i).drop_last() =~= ch.drop_last().remove(i));
        assert(ch.remove(i).last() == ch.last());
    }
}

proof fn lemma_some_among(ch: Seq<Tree>, idx: Seq<usize>)
    requires
        idx.no_duplicates(),
        forall|k: int| 0 <= k < idx.len() ==> #[trigger] idx[k] < ch.len(),
    ensures
        nodes_picked(ch, idx) <= nodes_among(ch),
    decreases idx.len(),
{
    if idx.len() > 0 {
        let i = idx.last() as int;
        assert(idx[idx.len() - 1] < ch.len());
        let rest = idx.drop_last();
        lemma_among_remove(ch, i);
        // The same items, as positions of `ch` without item `i`.
        let moved = Seq::new(
            rest.len(),
            |k: int|
                if rest[k] < i {
                    rest[k]
                } else {
                    (rest[k] - 1) as usize
                },
        );
        assert forall|k: int| 0 <= k < rest.len() implies rest[k] != i && rest[k] < ch.len() by {
            assert(idx[k] != idx[idx.len() - 1]);
        }
        assert forall|k: int| 0 <= k < moved.len() implies #[trigger] moved[k] < ch.remove(i).len() && ch.remove(
            i,
        )[moved[k] as int] == ch[rest[k] as int] by {
            assert(rest[k] != i);
        }
        assert forall|a: int, b: int|
            0 <= a < moved.len() && 0 <= b < moved.len() && a != b implies moved[a] != moved[b] by {
            assert(idx[a] != idx[b]);
            assert(rest[a] != i && rest[b] != i);
        }
        lemma_some_among(ch.remove(i), moved);
        lemma_same_picked(ch, rest, ch.remove(i), moved);
    }
}

proof fn lemma_same_picked(ch: Seq<Tree>, idx: Seq<usize>, dh: Seq<Tree>, jdx: Seq<usize>)
    requires
        idx.len() == jdx.len(),
        forall|k: int| 0 <= k < idx.len() ==> ch[#[trigger] idx[k] as int] == dh[jdx[k] as int],
    ensures
        nodes_picked(ch, idx) == nodes_picked(dh, jdx),
    decreases idx.len(),
{
    if idx.len() > 0 {
        assert forall|k: int| 0 <= k < idx.drop_last().len() implies ch[#[trigger] idx.drop_last()[k] as int]
            == dh[jdx.drop_last()[k] as int] by {
            assert(ch[idx[k] as int] == dh[jdx[k] as int]);
        }
        lemma_same_picked(ch, idx.drop_last(), dh, jdx.drop_last());
        let k = idx.len() - 1;
        assert(ch[idx[k] as int] == dh[jdx[k] as int]);
    }
}

/// Replacing a path by paths of its children keeps the paths apart.
pub proof fn lemma_children_apart(stack: Seq<Seq<usize>>, p: Seq<usize>, idx: Seq<usize>)
    requires
        apart(stack.push(p)),
        idx.no_duplicates(),
    ensures
        apart(stack + child_paths(p, idx)),
{
    let all = stack + child_paths(p, idx);
    let whole = stack.push(p);
    assert forall|a: int, b: int| 0 <= a < b < all.len() implies !comparable(
        #[trigger] all[a],
        #[trigger] all[b],
    ) by {
        if b < stack.len() {
            assert(!comparable(whole[a], whole[b]));
        } else {
            let i = idx[b - stack.len()];
            let q = p.push(i);
            assert(all[b] == q);
            if a < stack.len() {
                let s = stack[a];
                assert(!comparable(whole[a], whole[stack.len() as int]));
                if s.is_prefix_of(q) {
                    if s.len() <= p.len() {
                        assert(s =~= p.subrange(0, s.len() as int)) by {
                            assert(q.subrange(0, s.len() as int) =~= p.subrange(0, s.len() as int));
                        }
                    } else {
                        assert(s =~= q);
                        assert(p =~= s.subrange(0, p.len() as int));
                    }
                }
                if q.is_prefix_of(s) {
                    assert(p =~= s.subrange(0, p.len() as int)) by {
                        assert forall|k: int| 0 <= k < p.len() implies p[k] == s[k] by {
                            assert(q[k] == s.subrange(0, q.len() as int)[k]);
                        }
                    }
                }
            } else {
                let j = idx[a - stack.len()];
                assert(all[a] == p.push(j));
                assert(i != j);
                assert(p.push(j)[p.len() as int] == j);
                assert(p.push(i)[p.len() as int] == i);
                if p.push(j).is_prefix_of(q) {
                    assert(p.push(j)[p.len() as int] == q.subrange(0, q.len() as int)[p.len() as int]);
                }
                if q.is_prefix_of(p.push(j)) {
                    assert(q[p.len() as int] == p.push(j).subrange(0, q.len() as int)[p.len() as int]);
                }
            }
        }
    }
}

} // verus!
