//! The order in which a treemap lays out its tiles.
use vstd::prelude::*;

use crate::order::{stable_order, Ranking};

verus! {

use crate::order::{is_preorder, lemma_order_is_permutation, order_of};

/// Larger sizes come first.
pub open spec fn larger_first() -> spec_fn(u64, u64) -> bool {
    |a: u64, b: u64| a >= b
}

struct SizeRank<'a> {
    sizes: &'a Vec<u64>,
}

impl<'a> Ranking<u64> for SizeRank<'a> {
    closed spec fn items(&self) -> Seq<u64> {
        self.sizes@
    }

    closed spec fn le(&self) -> spec_fn(u64, u64) -> bool {
        larger_first()
    }

    proof fn is_lawful(&self) {
    }

    fn may_precede(&self, i: usize, j: usize) -> (r: bool) {
        self.sizes[i] >= self.sizes[j]
    }
}

/// The order in which tiles of the given sizes are laid out: the largest first, tiles of one size
/// as they stand. Tiles come out squarest in that order.
pub fn layout_order(sizes: &Vec<u64>) -> (r: Vec<usize>)
    ensures
        r@ == order_of(sizes@, larger_first()),
        r@.len() == sizes@.len(),
        r@.no_duplicates(),
        forall|k: int| 0 <= k < r@.len() ==> (#[trigger] r@[k]) < sizes@.len(),
        forall|a: int, b: int|
            0 <= a < b < r@.len() ==> sizes@[#[trigger] r@[a] as int] >= sizes@[#[trigger] r@[b] as int],
{
    let n: usize = sizes.len();
    let rank = SizeRank { sizes };
    let out = stable_order(&rank, n);
    proof {
        assert(is_preorder(larger_first()));
        lemma_order_is_permutation(sizes@, larger_first(), out@, 0, n as int);
        assert forall|a: int, b: int| 0 <= a < b < out@.len() implies sizes@[#[trigger] out@[a] as int]
            >= sizes@[#[trigger] out@[b] as int] by {
            assert(crate::order::precedes(sizes@, larger_first(), out@[a] as int, out@[b] as int));
        }
    }
    out
}

} // verus!
