use vstd::prelude::*;

use crate::hash::H256;
use crate::index::{
    BlockRecord, block_has, comparator_of, first_position, has_block, is_included,
    lemma_comparator_iff_included, located_at, recorded,
};
use crate::provider::{LeafRecord, pruned, reachable};

verus! {

/// A candidate that no recorded block lists has no comparator, and still has
/// none after a block that does not list it is recorded, or after blocks are
/// evicted.
pub proof fn lemma_unreported_candidate_stays_unknown(
    blocks: Seq<BlockRecord>,
    h: H256,
    n: u32,
    candidates: Seq<H256>,
    leaves: Seq<LeafRecord>,
    c: H256,
)
    requires
        !is_included(blocks, c),
        !candidates.contains(c),
    ensures
        comparator_of(blocks, c) is None,
        comparator_of(recorded(blocks, h, n, candidates), c) is None,
        comparator_of(pruned(blocks, leaves), c) is None,
{
    lemma_comparator_iff_included(blocks, c);
    let r = recorded(blocks, h, n, candidates);
    lemma_comparator_iff_included(r, c);
    if is_included(r, c) {
        let k = choose|k: int| 0 <= k < r.len() && block_has(#[trigger] r[k], c);
        if k < blocks.len() {
            assert(r[k] == blocks[k]);
        }
    }
    let f = |b: BlockRecord| reachable(leaves, b.hash);
    let p = pruned(blocks, leaves);
    lemma_comparator_iff_included(p, c);
    if is_included(p, c) {
        let k = choose|k: int| 0 <= k < p.len() && block_has(#[trigger] p[k], c);
        assert(p.contains(p[k]));
        blocks.lemma_filter_contains_rev(f, p[k]);
        let i = choose|i: int| 0 <= i < blocks.len() && blocks[i] == p[k];
        assert(block_has(blocks[i], c));
    }
}

/// Once a new block that lists a candidate not listed before is recorded,
/// the candidate's comparator carries that block's number.
pub proof fn lemma_recorded_candidate_gets_block_number(
    blocks: Seq<BlockRecord>,
    h: H256,
    n: u32,
    candidates: Seq<H256>,
    c: H256,
)
    requires
        !is_included(blocks, c),
        !has_block(blocks, h),
        candidates.contains(c),
    ensures
        comparator_of(recorded(blocks, h, n, candidates), c) matches Some(k) && k.candidate_hash
            == c && k.relay_parent_block_number == n,
{
    let r = recorded(blocks, h, n, candidates);
    assert(r == blocks.push(BlockRecord { hash: h, number: n, candidates }));
    assert(block_has(r[blocks.len() as int], c));
    lemma_comparator_iff_included(r, c);
    let k = comparator_of(r, c)->0;
    let i = choose|i: int|
        0 <= i < r.len() && block_has(#[trigger] r[i], c) && r[i].number
            == k.relay_parent_block_number;
    if i < blocks.len() {
        assert(r[i] == blocks[i]);
        assert(block_has(blocks[i], c));
    }
}

/// Once every block that lists a candidate is evicted, the candidate has no
/// comparator.
pub proof fn lemma_evicted_candidate_unknown(
    blocks: Seq<BlockRecord>,
    leaves: Seq<LeafRecord>,
    c: H256,
)
    requires
        forall|i: int|
            0 <= i < blocks.len() && block_has(#[trigger] blocks[i], c) ==> !reachable(
                leaves,
                blocks[i].hash,
            ),
    ensures
        comparator_of(pruned(blocks, leaves), c) is None,
{
    let f = |b: BlockRecord| reachable(leaves, b.hash);
    let p = pruned(blocks, leaves);
    lemma_comparator_iff_included(p, c);
    if is_included(p, c) {
        let k = choose|k: int| 0 <= k < p.len() && block_has(#[trigger] p[k], c);
        blocks.lemma_filter_pred(f, k);
        assert(p.contains(p[k]));
        blocks.lemma_filter_contains_rev(f, p[k]);
        let i = choose|i: int| 0 <= i < blocks.len() && blocks[i] == p[k];
        assert(block_has(blocks[i], c));
    }
}

/// A candidate whose block some leaf still reaches keeps its comparator when
/// blocks are evicted, where that block is the only one that lists it.
pub proof fn lemma_covered_candidate_kept(
    blocks: Seq<BlockRecord>,
    leaves: Seq<LeafRecord>,
    c: H256,
    i: int,
)
    requires
        0 <= i < blocks.len(),
        block_has(blocks[i], c),
        reachable(leaves, blocks[i].hash),
        forall|k: int|
            0 <= k < blocks.len() && block_has(#[trigger] blocks[k], c) ==> blocks[k] == blocks[i],
    ensures
        comparator_of(blocks, c) is Some,
        comparator_of(pruned(blocks, leaves), c) == comparator_of(blocks, c),
{
    let f = |b: BlockRecord| reachable(leaves, b.hash);
    let p = pruned(blocks, leaves);
    lemma_comparator_iff_included(blocks, c);
    blocks.lemma_filter_contains(f, i);
    let j0 = choose|j: int| 0 <= j < p.len() && p[j] == blocks[i];
    assert(block_has(p[j0], c));
    lemma_comparator_iff_included(p, c);
    let (i1, p1) = choose|i1: int, p1: int| located_at(blocks, c, i1, p1);
    let (j2, p2) = choose|j2: int, p2: int| located_at(p, c, j2, p2);
    assert(block_has(blocks[i1], c)) by {
        assert(blocks[i1].candidates[p1] == c);
    }
    assert(p.contains(p[j2]));
    blocks.lemma_filter_contains_rev(f, p[j2]);
    let k = choose|k: int| 0 <= k < blocks.len() && blocks[k] == p[j2];
    assert(block_has(blocks[k], c)) by {
        assert(p[j2].candidates[p2] == c);
    }
    let s = blocks[i].candidates;
    assert(first_position(s, c, p1));
    assert(first_position(s, c, p2));
    if p1 < p2 {
        assert(s[p1] == c);
    } else if p2 < p1 {
        assert(s[p2] == c);
    }
}

} // verus!
