//! Stable ordering.
//!
//! A stable sort is described by the positions that it takes the items from: they are listed so
//! that each item may stand before the next, and equal items stand as they stood.
use vstd::prelude::*;

verus! {

/// Whether `le` compares any two items, and comparisons can be chained.
pub open spec fn is_preorder<T>(le: spec_fn(T, T) -> bool) -> bool {
    &&& forall|a: T, b: T| #[trigger] le(a, b) || le(b, a)
    &&& forall|a: T, b: T, c: T| #[trigger] le(a, b) && #[trigger] le(b, c) ==> le(a, c)
}

/// Whether the item at `i` has to stand before the item at `j` when `s` is sorted stably.
pub open spec fn precedes<T>(s: Seq<T>, le: spec_fn(T, T) -> bool, i: int, j: int) -> bool {
    le(s[i], s[j]) && (le(s[j], s[i]) ==> i < j)
}

/// Whether `o` lists the positions from `lo` up to, not including, `hi`, each of them once, in
/// the stable order of the items of `s`.
pub open spec fn is_order_of_range<T>(
    s: Seq<T>,
    le: spec_fn(T, T) -> bool,
    o: Seq<usize>,
    lo: int,
    hi: int,
) -> bool {
    &&& o.len() == hi - lo
    &&& forall|a: int| 0 <= a < o.len() ==> lo <= #[trigger] o[a] < hi
    &&& forall|a: int, b: int|
        0 <= a < b < o.len() ==> precedes(s, le, #[trigger] o[a] as int, #[trigger] o[b] as int)
}

/// Whether `o` lists every position of `s` once, in the stable order of its items.
pub open spec fn is_stable_order<T>(s: Seq<T>, le: spec_fn(T, T) -> bool, o: Seq<usize>) -> bool {
    is_order_of_range(s, le, o, 0, s.len() as int)
}

/// The items of `s`, taken from the positions `o`.
pub open spec fn taken_from<T>(s: Seq<T>, o: Seq<usize>) -> Seq<T> {
    Seq::new(o.len(), |k: int| s[o[k] as int])
}

/// The stable order of the items of `s`.
pub open spec fn order_of<T>(s: Seq<T>, le: spec_fn(T, T) -> bool) -> Seq<usize> {
    choose|o: Seq<usize>| is_stable_order(s, le, o)
}

/// The items of `s`, stably sorted.
pub open spec fn sorted<T>(s: Seq<T>, le: spec_fn(T, T) -> bool) -> Seq<T> {
    taken_from(s, order_of(s, le))
}

/// Items that can be compared by their positions.
pub trait Ranking<T> {
    /// The items.
    spec fn items(&self) -> Seq<T>;

    /// How they are compared.
    spec fn le(&self) -> spec_fn(T, T) -> bool;

    proof fn is_lawful(&self)
        ensures
            is_preorder(self.le()),
    ;

    /// Decides whether the item at `i` may stand before the item at `j`.
    fn may_precede(&self, i: usize, j: usize) -> (r: bool)
        requires
            i < self.items().len(),
            j < self.items().len(),
        ensures
            r == (self.le())(self.items()[i as int], self.items()[j as int]),
    ;
}

proof fn lemma_precedes_transitive<T>(s: Seq<T>, le: spec_fn(T, T) -> bool, i: int, j: int, k: int)
    requires
        is_preorder(le),
        precedes(s, le, i, j),
        precedes(s, le, j, k),
    ensures
        precedes(s, le, i, k),
{
}

/// An order lists no position twice, and lists them all.
pub proof fn lemma_order_is_permutation<T>(
    s: Seq<T>,
    le: spec_fn(T, T) -> bool,
    o: Seq<usize>,
    lo: int,
    hi: int,
)
    requires
        is_preorder(le),
        is_order_of_range(s, le, o, lo, hi),
        0 <= lo <= hi <= usize::MAX + 1,
    ensures
        o.no_duplicates(),
        forall|v: int| lo <= v < hi ==> #[trigger] o.contains(v as usize),
{
    assert forall|a: int, b: int| 0 <= a < o.len() && 0 <= b < o.len() && a != b implies o[a] != o[b] by {
        if o[a] == o[b] {
            assert(!precedes(s, le, o[a] as int, o[a] as int));
            if a < b {
                assert(precedes(s, le, o[a] as int, o[b] as int));
            } else {
                assert(precedes(s, le, o[b] as int, o[a] as int));
            }
        }
    }
    lemma_full_range(o, lo, hi);
}

/// Different numbers from a range, as many as the range has, are all of the range.
pub proof fn lemma_full_range(o: Seq<usize>, lo: int, hi: int)
    requires
        lo <= hi,
        o.no_duplicates(),
        o.len() == hi - lo,
        forall|a: int| 0 <= a < o.len() ==> lo <= #[trigger] o[a] < hi,
    ensures
        forall|v: int| lo <= v < hi ==> #[trigger] o.contains(v as usize),
{
    let ints = o.map_values(|x: usize| x as int);
    assert(ints.no_duplicates()) by {
        assert forall|a: int, b: int| 0 <= a < ints.len() && 0 <= b < ints.len() && a != b implies ints[a]
            != ints[b] by {
            assert(o[a] != o[b]);
        }
    }
    ints.unique_seq_to_set();
    let all = vstd::set_lib::set_int_range(lo, hi);
    vstd::set_lib::lemma_int_range(lo, hi);
    assert(ints.to_set().subset_of(all)) by {
        assert forall|v: int| ints.to_set().contains(v) implies all.contains(v) by {
            let a = choose|a: int| 0 <= a < ints.len() && ints[a] == v;
            assert(lo <= o[a] < hi);
        }
    }
    vstd::set_lib::lemma_subset_equality(ints.to_set(), all);
    assert forall|v: int| lo <= v < hi implies #[trigger] o.contains(v as usize) by {
        assert(all.contains(v));
        assert(ints.contains(v));
        let a = choose|a: int| 0 <= a < ints.len() && ints[a] == v;
        assert(o[a] == v as usize);
    }
}

fn merged<T, R: Ranking<T>>(
    r: &R,
    left: &Vec<usize>,
    right: &Vec<usize>,
    Ghost(lo): Ghost<int>,
    Ghost(mid): Ghost<int>,
    Ghost(hi): Ghost<int>,
) -> (out: Vec<usize>)
    requires
        0 <= lo <= mid <= hi <= r.items().len(),
        is_order_of_range(r.items(), r.le(), left@, lo, mid),
        is_order_of_range(r.items(), r.le(), right@, mid, hi),
        hi <= usize::MAX,
    ensures
        is_order_of_range(r.items(), r.le(), out@, lo, hi),
{
    let ghost s = r.items();
    let ghost le = r.le();
    proof {
        r.is_lawful();
    }
    let mut out: Vec<usize> = Vec::new();
    let mut a: usize = 0;
    let mut b: usize = 0;
    while a < left.len() || b < right.len()
        invariant
            s == r.items(),
            le == r.le(),
            is_preorder(le),
            0 <= lo <= mid <= hi <= s.len(),
            hi <= usize::MAX,
            is_order_of_range(s, le, left@, lo, mid),
            is_order_of_range(s, le, right@, mid, hi),
            a <= left@.len(),
            b <= right@.len(),
            out@.len() == a + b,
            forall|x: int| 0 <= x < out@.len() ==> lo <= #[trigger] out@[x] < hi,
            forall|x: int, y: int|
                0 <= x < y < out@.len() ==> precedes(
                    s,
                    le,
                    #[trigger] out@[x] as int,
                    #[trigger] out@[y] as int,
                ),
            forall|x: int, y: int|
                0 <= x < out@.len() && a <= y < left@.len() ==> precedes(
                    s,
                    le,
                    #[trigger] out@[x] as int,
                    #[trigger] left@[y] as int,
                ),
            forall|x: int, y: int|
                0 <= x < out@.len() && b <= y < right@.len() ==> precedes(
                    s,
                    le,
                    #[trigger] out@[x] as int,
                    #[trigger] right@[y] as int,
                ),
        decreases left@.len() - a + right@.len() - b,
    {
        let take_left: bool = if a >= left.len() {
            false
        } else if b >= right.len() {
            true
        } else {
            r.may_precede(left[a], right[b])
        };
        if take_left {
            let v: usize = left[a];
            proof {
                assert forall|y: int| b <= y < right@.len() implies precedes(
                    s,
                    le,
                    v as int,
                    #[trigger] right@[y] as int,
                ) by {
                    assert(precedes(s, le, v as int, right@[b as int] as int));
                    if y > b {
                        lemma_precedes_transitive(s, le, v as int, right@[b as int] as int, right@[y] as int);
                    }
                }
            }
            out.push(v);
            a = a + 1;
        } else {
            let v: usize = right[b];
            proof {
                assert forall|y: int| a <= y < left@.len() implies precedes(
                    s,
                    le,
                    v as int,
                    #[trigger] left@[y] as int,
                ) by {
                    assert(le(s[left@[a as int] as int], s[v as int]) || le(
                        s[v as int],
                        s[left@[a as int] as int],
                    ));
                    assert(precedes(s, le, v as int, left@[a as int] as int));
                    if y > a {
                        lemma_precedes_transitive(s, le, v as int, left@[a as int] as int, left@[y] as int);
                    }
                }
            }
            out.push(v);
            b = b + 1;
        }
    }
    out
}

fn order_of_range<T, R: Ranking<T>>(r: &R, lo: usize, hi: usize) -> (out: Vec<usize>)
    requires
        lo <= hi <= r.items().len(),
    ensures
        is_order_of_range(r.items(), r.le(), out@, lo as int, hi as int),
    decreases hi - lo,
{
    let n: usize = hi - lo;
    if n == 0 {
        Vec::new()
    } else if n == 1 {
        let mut out: Vec<usize> = Vec::new();
        out.push(lo);
        out
    } else {
        let mid: usize = lo + n / 2;
        let left = order_of_range(r, lo, mid);
        let right = order_of_range(r, mid, hi);
        merged(r, &left, &right, Ghost(lo as int), Ghost(mid as int), Ghost(hi as int))
    }
}

/// The stable order of the `n` items of `r`.
pub fn stable_order<T, R: Ranking<T>>(r: &R, n: usize) -> (out: Vec<usize>)
    requires
        n == r.items().len(),
    ensures
        is_stable_order(r.items(), r.le(), out@),
        out@ == order_of(r.items(), r.le()),
{
    let out = order_of_range(r, 0, n);
    proof {
        r.is_lawful();
        assert(is_stable_order(r.items(), r.le(), out@));
        law_stable_order_is_unique(r.items(), r.le(), out@, order_of(r.items(), r.le()));
    }
    out
}

/// There is only one stable order: a sort that keeps equal items as they stood has no choice.
pub proof fn law_stable_order_is_unique<T>(
    s: Seq<T>,
    le: spec_fn(T, T) -> bool,
    o: Seq<usize>,
    p: Seq<usize>,
)
    requires
        is_preorder(le),
        is_stable_order(s, le, o),
        is_stable_order(s, le, p),
        s.len() <= usize::MAX,
    ensures
        o == p,
{
    lemma_order_is_permutation(s, le, o, 0, s.len() as int);
    lemma_order_is_permutation(s, le, p, 0, s.len() as int);
    lemma_agree_up_to(s, le, o, p, s.len() as int);
    assert(o =~= p);
}

proof fn lemma_agree_up_to<T>(
    s: Seq<T>,
    le: spec_fn(T, T) -> bool,
    o: Seq<usize>,
    p: Seq<usize>,
    k: int,
)
    requires
        is_preorder(le),
        is_stable_order(s, le, o),
        is_stable_order(s, le, p),
        o.no_duplicates(),
        p.no_duplicates(),
        forall|v: int| 0 <= v < s.len() ==> #[trigger] o.contains(v as usize),
        forall|v: int| 0 <= v < s.len() ==> #[trigger] p.contains(v as usize),
        0 <= k <= s.len(),
    ensures
        forall|x: int| 0 <= x < k ==> o[x] == p[x],
    decreases k,
{
    if k > 0 {
        lemma_agree_up_to(s, le, o, p, k - 1);
        let x = k - 1;
        if o[x] != p[x] {
            // Each of the two stands later in the other list, so each precedes the other.
            assert(p.contains(o[x] as int as usize));
            let i = p.index_of(o[x]);
            assert(o.contains(p[x] as int as usize));
            let j = o.index_of(p[x]);
            assert(i > x) by {
                if i < x {
                    assert(o[i] == p[i]);
                }
            }
            assert(j > x) by {
                if j < x {
                    assert(o[j] == p[j]);
                }
            }
            assert(precedes(s, le, p[x] as int, p[i] as int));
            assert(precedes(s, le, o[x] as int, o[j] as int));
            lemma_precedes_transitive(s, le, o[x] as int, p[x] as int, o[x] as int);
        }
    }
}

/// The vector whose items are those of `items`, taken from the positions `order`.
pub fn take_all<T>(items: Vec<T>, order: &Vec<usize>) -> (out: Vec<T>)
    requires
        order@.no_duplicates(),
        forall|k: int| 0 <= k < order@.len() ==> #[trigger] order@[k] < items@.len(),
    ensures
        out@ == taken_from(items@, order@),
{
    let ghost all = items@;
    let mut slots: Vec<Option<T>> = Vec::new();
    for x in it: items
        invariant
            it.seq() == all,
            slots@.len() == it.index(),
            forall|k: int| 0 <= k < slots@.len() ==> #[trigger] slots@[k] == Some(all[k]),
    {
        slots.push(Some(x));
    }
    let mut out: Vec<T> = Vec::new();
    let mut k: usize = 0;
    while k < order.len()
        invariant
            k <= order@.len(),
            order@.no_duplicates(),
            slots@.len() == all.len(),
            forall|j: int| 0 <= j < order@.len() ==> #[trigger] order@[j] < all.len(),
            forall|j: int| k <= j < order@.len() ==> slots@[#[trigger] order@[j] as int] == Some(
                all[order@[j] as int],
            ),
            out@ =~= taken_from(all, order@.take(k as int)),
        decreases order@.len() - k,
    {
        let i: usize = order[k];
        match slots[i].take() {
            Some(x) => {
                out.push(x);
            },
            None => {
                assert(false);
            },
        }
        k = k + 1;
        assert(order@.take(k as int) =~= order@.take(k - 1).push(i));
    }
    assert(order@.take(order@.len() as int) =~= order@);
    out
}

/// The sum of `f` over `s`.
pub open spec fn total<T>(s: Seq<T>, f: spec_fn(T) -> nat) -> nat
    decreases s.len(),
{
    if s.len() == 0 {
        0
    } else {
        total(s.drop_last(), f) + f(s.last())
    }
}

pub proof fn lemma_total_remove<T>(s: Seq<T>, f: spec_fn(T) -> nat, i: int)
    requires
        0 <= i < s.len(),
    ensures
        total(s, f) == total(s.remove(i), f) + f(s[i]),
    decreases s.len(),
{
    if i == s.len() - 1 {
        assert(s.remove(i) =~= s.drop_last());
    } else {
        lemma_total_remove(s.drop_last(), f, i);
        assert(s.remove(i).drop_last() =~= s.drop_last().remove(i));
    }
}

/// Replacing an item changes the sum by the difference.
pub proof fn lemma_total_update<T>(s: Seq<T>, f: spec_fn(T) -> nat, i: int, x: T)
    requires
        0 <= i < s.len(),
    ensures
        total(s.update(i, x), f) + f(s[i]) == total(s, f) + f(x),
{
    lemma_total_remove(s, f, i);
    lemma_total_remove(s.update(i, x), f, i);
    assert(s.update(i, x).remove(i) =~= s.remove(i));
}

/// The sum over two parts is the sum of their sums.
pub proof fn lemma_total_concat<T>(s: Seq<T>, t: Seq<T>, f: spec_fn(T) -> nat)
    ensures
        total(s + t, f) == total(s, f) + total(t, f),
    decreases t.len(),
{
    if t.len() == 0 {
        assert(s + t =~= s);
    } else {
        lemma_total_concat(s, t.drop_last(), f);
        assert((s + t).drop_last() =~= s + t.drop_last());
        assert((s + t).last() == t.last());
    }
}

/// A sum is 0 exactly if every item counts 0.
pub proof fn lemma_total_zero<T>(s: Seq<T>, f: spec_fn(T) -> nat)
    ensures
        total(s, f) == 0 <==> (forall|i: int| 0 <= i < s.len() ==> f(#[trigger] s[i]) == 0),
    decreases s.len(),
{
    if s.len() > 0 {
        lemma_total_zero(s.drop_last(), f);
        if total(s, f) == 0 {
            assert forall|i: int| 0 <= i < s.len() implies f(#[trigger] s[i]) == 0 by {
                if i < s.len() - 1 {
                    assert(f(s.drop_last()[i]) == 0);
                }
            }
        }
        if forall|i: int| 0 <= i < s.len() ==> f(#[trigger] s[i]) == 0 {
            assert forall|i: int| 0 <= i < s.drop_last().len() implies f(#[trigger] s.drop_last()[i]) == 0 by {
                assert(f(s[i]) == 0);
            }
            assert(f(s[s.len() - 1]) == 0);
        }
    }
}

/// Rearranging items does not change their sum.
pub proof fn lemma_total_rearranged<T>(s: Seq<T>, f: spec_fn(T) -> nat, o: Seq<usize>)
    requires
        o.no_duplicates(),
        o.len() == s.len(),
        s.len() <= usize::MAX,
        forall|k: int| 0 <= k < o.len() ==> #[trigger] o[k] < s.len(),
    ensures
        total(taken_from(s, o), f) == total(s, f),
    decreases s.len(),
{
    if s.len() > 0 {
        let last = s.len() - 1;
        lemma_full_range(o, 0, s.len() as int);
        assert(o.contains(last as usize));
        let p = o.index_of(last as usize);
        let rest = o.remove(p);
        assert forall|a: int, b: int|
            0 <= a < rest.len() && 0 <= b < rest.len() && a != b implies rest[a] != rest[b] by {
            let a2 = if a < p { a } else { a + 1 };
            let b2 = if b < p { b } else { b + 1 };
            assert(o[a2] != o[b2]);
        }
        assert forall|k: int| 0 <= k < rest.len() implies #[trigger] rest[k] < s.drop_last().len() by {
            let k2 = if k < p { k } else { k + 1 };
            assert(o[k2] < s.len());
            assert(o[k2] != o[p]);
        }
        lemma_total_rearranged(s.drop_last(), f, rest);
        lemma_total_remove(taken_from(s, o), f, p);
        assert(taken_from(s, o).remove(p) =~= taken_from(s.drop_last(), rest));
    }
}

/// Sorting is possible whatever the items are, and lists every one of them once.
pub proof fn lemma_sorted<T>(s: Seq<T>, le: spec_fn(T, T) -> bool)
    requires
        is_preorder(le),
        s.len() <= usize::MAX,
    ensures
        is_stable_order(s, le, order_of(s, le)),
        order_of(s, le).no_duplicates(),
        sorted(s, le).len() == s.len(),
{
    let o = lemma_some_order(s, le, 0, s.len() as int);
    assert(is_stable_order(s, le, o));
    lemma_order_is_permutation(s, le, order_of(s, le), 0, s.len() as int);
}

/// Some stable order exists: each further item is put behind every item that may precede it.
proof fn lemma_some_order<T>(s: Seq<T>, le: spec_fn(T, T) -> bool, lo: int, hi: int) -> (o: Seq<usize>)
    requires
        is_preorder(le),
        0 <= lo <= hi <= s.len() <= usize::MAX,
    ensures
        is_order_of_range(s, le, o, lo, hi),
    decreases hi - lo,
{
    if lo == hi {
        Seq::empty()
    } else {
        let rest = lemma_some_order(s, le, lo, hi - 1);
        lemma_insert_position(s, le, rest, lo, hi - 1, rest.len() as int)
    }
}

/// Puts position `last` into `rest`, whose items from `k` on are all to stand behind it.
proof fn lemma_insert_position<T>(
    s: Seq<T>,
    le: spec_fn(T, T) -> bool,
    rest: Seq<usize>,
    lo: int,
    last: int,
    k: int,
) -> (o: Seq<usize>)
    requires
        is_preorder(le),
        0 <= lo <= last < s.len() <= usize::MAX,
        is_order_of_range(s, le, rest, lo, last),
        0 <= k <= rest.len(),
        forall|a: int| k <= a < rest.len() ==> precedes(s, le, last, #[trigger] rest[a] as int),
    ensures
        is_order_of_range(s, le, o, lo, last + 1),
    decreases k,
{
    if k == 0 || le(s[rest[k - 1] as int], s[last]) {
        let o = rest.insert(k, last as usize);
        assert forall|a: int, b: int| 0 <= a < b < o.len() implies precedes(
            s,
            le,
            #[trigger] o[a] as int,
            #[trigger] o[b] as int,
        ) by {
            if b == k {
                assert(precedes(s, le, rest[k - 1] as int, last));
                if a < k - 1 {
                    assert(precedes(s, le, rest[a] as int, rest[k - 1] as int));
                    lemma_precedes_transitive(s, le, rest[a] as int, rest[k - 1] as int, last);
                }
            } else {
                let a2 = if a < k { a } else { a - 1 };
                let b2 = if b < k { b } else { b - 1 };
                if a != k {
                    assert(precedes(s, le, rest[a2] as int, rest[b2] as int));
                } else {
                    assert(precedes(s, le, last, rest[b2] as int));
                }
            }
        }
        o
    } else {
        assert(precedes(s, le, last, rest[k - 1] as int));
        lemma_insert_position(s, le, rest, lo, last, k - 1)
    }
}

} // verus!
