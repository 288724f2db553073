use vstd::prelude::*;

use crate::comparator::CandidateComparator;
use crate::hash::{H256, list_contains};

verus! {

/// What the index knows of one block: its hash, its number, and the hashes of
/// the candidates included in it, in the order in which they were included.
pub ghost struct BlockRecord {
    pub hash: H256,
    pub number: u32,
    pub candidates: Seq<H256>,
}

/// One block of the inclusion index.
#[derive(Debug)]
pub struct BlockEntry {
    pub hash: H256,
    pub number: u32,
    pub candidates: Vec<H256>,
}

impl View for BlockEntry {
    type V = BlockRecord;

    open spec fn view(&self) -> BlockRecord {
        BlockRecord { hash: self.hash, number: self.number, candidates: self.candidates@ }
    }
}

/// Whether some block of `blocks` has the hash `h`.
pub open spec fn has_block(blocks: Seq<BlockRecord>, h: H256) -> bool {
    exists|i: int| 0 <= i < blocks.len() && #[trigger] blocks[i].hash == h
}

/// Whether candidate `c` is listed in block `b`.
pub open spec fn block_has(b: BlockRecord, c: H256) -> bool {
    b.candidates.contains(c)
}

/// Whether some block of `blocks` lists candidate `c`.
pub open spec fn is_included(blocks: Seq<BlockRecord>, c: H256) -> bool {
    exists|i: int| 0 <= i < blocks.len() && block_has(#[trigger] blocks[i], c)
}

/// `p` is the first position of `c` in `s`.
pub open spec fn first_position(s: Seq<H256>, c: H256, p: int) -> bool {
    &&& 0 <= p < s.len()
    &&& s[p] == c
    &&& forall|q: int| 0 <= q < p ==> s[q] != c
}

/// Block `i` is the first block of `blocks` that lists `c`, at position `p`.
pub open spec fn located_at(blocks: Seq<BlockRecord>, c: H256, i: int, p: int) -> bool {
    &&& 0 <= i < blocks.len()
    &&& first_position(blocks[i].candidates, c, p)
    &&& forall|k: int| 0 <= k < i ==> !block_has(#[trigger] blocks[k], c)
}

/// The comparator of candidate `c` by what `blocks` records: none where no
/// block lists it; else the number of the first block that lists it, its
/// position there, and its hash.
pub open spec fn comparator_of(blocks: Seq<BlockRecord>, c: H256) -> Option<CandidateComparator> {
    if exists|i: int, p: int| located_at(blocks, c, i, p) {
        let (i, p) = choose|i: int, p: int| located_at(blocks, c, i, p);
        Some(
            CandidateComparator {
                relay_parent_block_number: blocks[i].number,
                position: p as usize,
                candidate_hash: c,
            },
        )
    } else {
        None
    }
}

/// The blocks after recording block `h` with number `n` and candidates
/// `candidates`: a block already known is left as it is.
pub open spec fn recorded(blocks: Seq<BlockRecord>, h: H256, n: u32, candidates: Seq<H256>) -> Seq<
    BlockRecord,
> {
    if has_block(blocks, h) {
        blocks
    } else {
        blocks.push(BlockRecord { hash: h, number: n, candidates })
    }
}

/// The blocks of `blocks` whose hash `keep` lists, in their order.
pub open spec fn retained(blocks: Seq<BlockRecord>, keep: Seq<H256>) -> Seq<BlockRecord> {
    blocks.filter(|b: BlockRecord| keep.contains(b.hash))
}

/// No two blocks of `blocks` have the same hash.
pub open spec fn unique_hashes(blocks: Seq<BlockRecord>) -> bool {
    forall|i: int, j: int|
        0 <= i < j < blocks.len() ==> #[trigger] blocks[i].hash != #[trigger] blocks[j].hash
}

/// Recording keeps block hashes unique.
pub proof fn lemma_recorded_unique(blocks: Seq<BlockRecord>, h: H256, n: u32, candidates: Seq<H256>)
    requires
        unique_hashes(blocks),
    ensures
        unique_hashes(recorded(blocks, h, n, candidates)),
{
    let r = recorded(blocks, h, n, candidates);
    assert forall|i: int, j: int| 0 <= i < j < r.len() implies #[trigger] r[i].hash != #[trigger] r[j].hash by {
        if j == blocks.len() {
            assert(r[i] == blocks[i]);
        }
    }
}

/// Keeping some of the blocks keeps block hashes unique.
pub proof fn lemma_filter_unique(blocks: Seq<BlockRecord>, f: spec_fn(BlockRecord) -> bool)
    requires
        unique_hashes(blocks),
    ensures
        unique_hashes(blocks.filter(f)),
    decreases blocks.len(),
{
    reveal(Seq::filter);
    if blocks.len() > 0 {
        let rest = blocks.drop_last();
        let last = blocks.last();
        lemma_filter_unique(rest, f);
        let r = blocks.filter(f);
        if f(last) {
            assert(r == rest.filter(f).push(last));
            assert forall|i: int, j: int| 0 <= i < j < r.len() implies #[trigger] r[i].hash
                != #[trigger] r[j].hash by {
                if j == r.len() - 1 {
                    let x = rest.filter(f)[i];
                    assert(rest.filter(f).contains(x));
                    rest.lemma_filter_contains_rev(f, x);
                    let k = choose|k: int| 0 <= k < rest.len() && rest[k] == x;
                    assert(blocks[k] == x);
                }
            }
        }
    }
}

/// A candidate has at most one first location.
pub proof fn lemma_located_unique(blocks: Seq<BlockRecord>, c: H256, i: int, p: int, j: int, q: int)
    requires
        located_at(blocks, c, i, p),
        located_at(blocks, c, j, q),
    ensures
        i == j && p == q,
{
    if i < j {
        assert(block_has(blocks[i], c));
    } else if j < i {
        assert(block_has(blocks[j], c));
    } else if p < q {
        assert(blocks[j].candidates[p] == c);
    } else if q < p {
        assert(blocks[i].candidates[q] == c);
    }
}

proof fn lemma_first_position_exists(s: Seq<H256>, c: H256, q: int)
    requires
        0 <= q < s.len(),
        s[q] == c,
    ensures
        exists|p: int| first_position(s, c, p),
    decreases q,
{
    if exists|r: int| 0 <= r < q && s[r] == c {
        let r = choose|r: int| 0 <= r < q && s[r] == c;
        lemma_first_position_exists(s, c, r);
    } else {
        assert(first_position(s, c, q));
    }
}

proof fn lemma_first_block_exists(blocks: Seq<BlockRecord>, c: H256, k: int)
    requires
        0 <= k < blocks.len(),
        block_has(blocks[k], c),
    ensures
        exists|i: int, p: int| located_at(blocks, c, i, p),
    decreases k,
{
    if exists|r: int| 0 <= r < k && block_has(#[trigger] blocks[r], c) {
        let r = choose|r: int| 0 <= r < k && block_has(#[trigger] blocks[r], c);
        lemma_first_block_exists(blocks, c, r);
    } else {
        let q = choose|q: int| 0 <= q < blocks[k].candidates.len() && blocks[k].candidates[q] == c;
        lemma_first_position_exists(blocks[k].candidates, c, q);
        let p = choose|p: int| first_position(blocks[k].candidates, c, p);
        assert(located_at(blocks, c, k, p));
    }
}

/// A candidate has a comparator exactly when some block lists it; the
/// comparator then carries the candidate's hash and the number of a block
/// that lists it.
pub proof fn lemma_comparator_iff_included(blocks: Seq<BlockRecord>, c: H256)
    ensures
        comparator_of(blocks, c) is Some <==> is_included(blocks, c),
        comparator_of(blocks, c) matches Some(k) ==> k.candidate_hash == c && exists|i: int|
            0 <= i < blocks.len() && block_has(#[trigger] blocks[i], c) && blocks[i].number
                == k.relay_parent_block_number,
{
    if is_included(blocks, c) {
        let k = choose|k: int| 0 <= k < blocks.len() && block_has(#[trigger] blocks[k], c);
        lemma_first_block_exists(blocks, c, k);
    }
    if exists|i: int, p: int| located_at(blocks, c, i, p) {
        let (i, p) = choose|i: int, p: int| located_at(blocks, c, i, p);
        assert(blocks[i].candidates[p] == c);
        assert(block_has(blocks[i], c));
    }
}

/// The inclusion index: the blocks known to include candidates, in the order
/// in which they were recorded.
pub struct InclusionIndex {
    blocks: Vec<BlockEntry>,
}

impl View for InclusionIndex {
    type V = Seq<BlockRecord>;

    closed spec fn view(&self) -> Seq<BlockRecord> {
        self.blocks@.map_values(|b: BlockEntry| b@)
    }
}

impl InclusionIndex {
    /// An index that knows no block.
    pub fn new() -> (r: InclusionIndex)
        ensures
            r@ == Seq::<BlockRecord>::empty(),
    {
        let r = InclusionIndex { blocks: Vec::new() };
        assert(r@ =~= Seq::<BlockRecord>::empty());
        r
    }

    /// Number of blocks recorded.
    pub fn len(&self) -> (r: usize)
        ensures
            r == self@.len(),
    {
        self.blocks.len()
    }

    /// Whether the block `h` is recorded.
    pub fn contains_block(&self, h: &H256) -> (r: bool)
        ensures
            r == has_block(self@, *h),
    {
        let mut i: usize = 0;
        while i < self.blocks.len()
            invariant
                i <= self.blocks.len(),
                forall|k: int| 0 <= k < i ==> self@[k].hash != *h,
            decreases self.blocks.len() - i,
        {
            if self.blocks[i].hash == *h {
                assert(self@[i as int].hash == *h);
                return true;
            }
            i = i + 1;
        }
        false
    }

    /// Records block `h` with number `n` and the candidates included in it,
    /// in order. A block that is already recorded is left as it is.
    pub fn record(&mut self, h: H256, n: u32, candidates: Vec<H256>)
        ensures
            final(self)@ == recorded(old(self)@, h, n, candidates@),
    {
        if self.contains_block(&h) {
            return;
        }
        let ghost before = self.blocks@;
        let entry = BlockEntry { hash: h, number: n, candidates };
        self.blocks.push(entry);
        assert(self@ =~= recorded(old(self)@, h, n, candidates@)) by {
            assert(self.blocks@ == before.push(entry));
        }
    }

    /// The comparator of candidate `c`: none where no recorded block lists
    /// it, else the number of the first block that lists it, its position
    /// there and its hash.
    pub fn lookup(&self, c: &H256) -> (r: Option<CandidateComparator>)
        ensures
            r == comparator_of(self@, *c),
    {
        let mut i: usize = 0;
        while i < self.blocks.len()
            invariant
                i <= self.blocks.len(),
                forall|k: int| 0 <= k < i ==> !block_has(#[trigger] self@[k], *c),
            decreases self.blocks.len() - i,
        {
            let entry = &self.blocks[i];
            let mut p: usize = 0;
            while p < entry.candidates.len()
                invariant
                    i < self.blocks.len(),
                    entry == self.blocks@[i as int],
                    forall|k: int| 0 <= k < i ==> !block_has(#[trigger] self@[k], *c),
                    p <= entry.candidates.len(),
                    forall|q: int| 0 <= q < p ==> entry.candidates@[q] != *c,
                decreases entry.candidates.len() - p,
            {
                if entry.candidates[p] == *c {
                    let r = CandidateComparator {
                        relay_parent_block_number: entry.number,
                        position: p,
                        candidate_hash: *c,
                    };
                    proof {
                        assert(self@[i as int] == entry@);
                        assert(entry.candidates@[p as int] == *c);
                        assert(first_position(self@[i as int].candidates, *c, p as int));
                        assert(forall|k: int| 0 <= k < i ==> !block_has(#[trigger] self@[k], *c));
                        assert(located_at(self@, *c, i as int, p as int));
                        let (i2, p2) = choose|i2: int, p2: int| located_at(self@, *c, i2, p2);
                        lemma_located_unique(self@, *c, i as int, p as int, i2, p2);
                    }
                    return Some(r);
                }
                p = p + 1;
            }
            assert(!block_has(self@[i as int], *c)) by {
                assert(self@[i as int].candidates == entry.candidates@);
            }
            i = i + 1;
        }
        proof {
            if exists|i2: int, p2: int| located_at(self@, *c, i2, p2) {
                let (i2, p2) = choose|i2: int, p2: int| located_at(self@, *c, i2, p2);
                assert(self@[i2].candidates[p2] == *c);
                assert(block_has(self@[i2], *c));
            }
        }
        None
    }

    /// Keeps the blocks whose hash `keep` lists, in their order, and evicts
    /// the others together with their candidates.
    pub fn retain_listed(&mut self, keep: &Vec<H256>)
        ensures
            final(self)@ == retained(old(self)@, keep@),
    {
        let ghost orig = self@;
        let mut rest: Vec<BlockEntry> = Vec::new();
        std::mem::swap(&mut rest, &mut self.blocks);
        let ghost n = rest@.len();
        let ghost consumed: int = 0;
        while rest.len() > 0
            invariant
                orig.len() == n,
                consumed + rest@.len() == n,
                0 <= consumed <= n,
                forall|k: int| 0 <= k < rest@.len() ==> #[trigger] rest@[k]@ == orig[consumed + k],
                self@ == retained(orig.take(consumed), keep@),
            decreases rest@.len(),
        {
            let ghost rest_before = rest@;
            let ghost self_before = self@;
            let entry = rest.remove(0);
            assert(entry@ == orig[consumed]) by {
                assert(rest_before[0]@ == orig[consumed]);
            }
            let keep_it = list_contains(keep, &entry.hash);
            let ghost blocks_before = self.blocks@;
            if keep_it {
                self.blocks.push(entry);
                assert(self@ =~= self_before.push(orig[consumed])) by {
                    assert(self.blocks@ == blocks_before.push(entry));
                }
            }
            proof {
                assert(orig.take(consumed + 1).drop_last() =~= orig.take(consumed));
                assert(orig.take(consumed + 1).last() == orig[consumed]);
                reveal(Seq::filter);
                assert forall|k: int| 0 <= k < rest@.len() implies #[trigger] rest@[k]@ == orig[
                    consumed + 1 + k] by {
                    assert(rest@[k] == rest_before[k + 1]);
                }
                consumed = consumed + 1;
            }
        }
        assert(orig.take(n as int) =~= orig);
    }
}

} // verus!
