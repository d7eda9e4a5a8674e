use vstd::prelude::*;
use crate::chain::{chain_transaction_count, BlockModel};

verus! {

/// The sum of the counts.
pub open spec fn sum_counts(counts: Seq<u32>) -> nat
    decreases counts.len(),
{
    if counts.len() == 0 {
        0
    } else {
        sum_counts(counts.drop_last()) + counts.last() as nat
    }
}

/// The sum, held at `u64::MAX` where it would not fit.
pub open spec fn capped_sum(counts: Seq<u32>) -> nat {
    if sum_counts(counts) <= u64::MAX {
        sum_counts(counts)
    } else {
        u64::MAX as nat
    }
}

/// The number of transactions that the walk will report, from the
/// transaction count of each block header in the walked range. A total too
/// large for `u64` stays at `u64::MAX`, so the estimate never falls short.
pub fn estimate_total(tx_counts: &Vec<u32>) -> (r: u64)
    ensures
        r as nat == capped_sum(tx_counts@),
{
    let mut total: u64 = 0;
    let mut i: usize = 0;
    while i < tx_counts.len()
        invariant
            i <= tx_counts.len(),
            total as nat == capped_sum(tx_counts@.take(i as int)),
        decreases tx_counts.len() - i,
    {
        assert(tx_counts@.take(i + 1).drop_last() =~= tx_counts@.take(i as int));
        total = total.saturating_add(tx_counts[i] as u64);
        i = i + 1;
    }
    assert(tx_counts@.take(tx_counts.len() as int) =~= tx_counts@);
    total
}

/// Where each header count is the number of transactions of its block, the
/// estimate's sum is the number of transactions that the walk reports, block
/// by block, for the same range.
pub proof fn lemma_estimate_matches_walk(counts: Seq<u32>, chain: Seq<BlockModel>)
    requires
        counts.len() == chain.len(),
        forall|h: int| 0 <= h < chain.len() ==> counts[h] as nat == #[trigger] chain[h].transactions.len(),
    ensures
        sum_counts(counts) == chain_transaction_count(chain),
    decreases chain.len(),
{
    if chain.len() > 0 {
        let n = (chain.len() - 1) as int;
        assert(counts[n] as nat == chain[n].transactions.len());
        lemma_estimate_matches_walk(counts.drop_last(), chain.drop_last());
    }
}

} // verus!
