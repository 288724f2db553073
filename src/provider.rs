use vstd::prelude::*;

use crate::comparator::CandidateComparator;
use crate::hash::{H256, list_contains};
use crate::index::{
    BlockRecord, InclusionIndex, comparator_of, has_block, lemma_filter_unique,
    lemma_recorded_unique, recorded, unique_hashes,
};

verus! {

/// Most blocks a leaf's ancestry holds, and most blocks one walk fetches.
pub const MAX_ANCESTRY: usize = 500;

/// Whether a leaf is fresh or was already seen by the node as a stale head.
#[derive(Clone, Copy, Debug, PartialEq, Eq, Structural)]
pub enum LeafStatus {
    Fresh,
    Stale,
}

/// A chain head reported as activated.
#[derive(Clone, Copy, Debug, PartialEq, Eq, Structural)]
pub struct ActivatedLeaf {
    pub hash: H256,
    pub number: u32,
    pub status: LeafStatus,
}

/// The leaves activated and deactivated in one round of chain-head changes.
#[derive(Clone, Debug)]
pub struct ActiveLeavesUpdate {
    pub activated: Vec<ActivatedLeaf>,
    pub deactivated: Vec<H256>,
}

impl ActiveLeavesUpdate {
    /// An update that activates `leaf` and deactivates nothing.
    pub fn start_work(leaf: ActivatedLeaf) -> (r: ActiveLeavesUpdate)
        ensures
            r.activated@ == seq![leaf],
            r.deactivated@ == Seq::<H256>::empty(),
    {
        let r = ActiveLeavesUpdate { activated: vec![leaf], deactivated: Vec::new() };
        assert(r.activated@ =~= seq![leaf]);
        r
    }

    /// An update that deactivates `hash` and activates nothing.
    pub fn stop_work(hash: H256) -> (r: ActiveLeavesUpdate)
        ensures
            r.activated@ == Seq::<ActivatedLeaf>::empty(),
            r.deactivated@ == seq![hash],
    {
        let r = ActiveLeavesUpdate { activated: Vec::new(), deactivated: vec![hash] };
        assert(r.deactivated@ =~= seq![hash]);
        r
    }
}

/// A candidate receipt, as far as ordering reads it: the hash that identifies
/// the candidate, and the block it was built on.
#[derive(Clone, Copy, Debug, PartialEq, Eq, Structural)]
pub struct CandidateReceipt {
    pub candidate_hash: H256,
    pub relay_parent: H256,
}

impl CandidateReceipt {
    /// The hash that identifies the candidate.
    pub fn hash(&self) -> (r: H256)
        ensures
            r == self.candidate_hash,
    {
        self.candidate_hash
    }
}

/// What the provider knows of a tracked leaf: its hash and the blocks of its
/// ancestry that it reaches, newest first.
pub ghost struct LeafRecord {
    pub hash: H256,
    pub ancestry: Seq<H256>,
}

/// A tracked leaf.
#[derive(Debug)]
pub struct TrackedLeaf {
    pub hash: H256,
    pub ancestry: Vec<H256>,
}

impl View for TrackedLeaf {
    type V = LeafRecord;

    open spec fn view(&self) -> LeafRecord {
        LeafRecord { hash: self.hash, ancestry: self.ancestry@ }
    }
}

/// The state of a walk back from an activated leaf: the leaf, and the block
/// whose number, parent and candidates are to be fetched next, if any.
#[derive(Clone, Copy, Debug, PartialEq, Eq, Structural)]
pub struct LeafWalk {
    pub leaf: H256,
    pub next: Option<H256>,
}

impl LeafWalk {
    /// The block to fetch next; none once the walk is over.
    pub fn next_request(&self) -> (r: Option<H256>)
        ensures
            r == self.next,
    {
        self.next
    }
}

/// Whether some tracked leaf's ancestry holds block `h`.
pub open spec fn reachable(leaves: Seq<LeafRecord>, h: H256) -> bool {
    exists|l: int| 0 <= l < leaves.len() && (#[trigger] leaves[l]).ancestry.contains(h)
}

/// No block is recorded twice, every recorded block is reachable from a
/// tracked leaf, and no ancestry exceeds the bound.
pub open spec fn provider_wf(blocks: Seq<BlockRecord>, leaves: Seq<LeafRecord>) -> bool {
    &&& unique_hashes(blocks)
    &&& forall|i: int| 0 <= i < blocks.len() ==> reachable(leaves, #[trigger] blocks[i].hash)
    &&& forall|l: int| 0 <= l < leaves.len() ==> (#[trigger] leaves[l]).ancestry.len() <= MAX_ANCESTRY
}

/// Leaf `l` is the first tracked leaf with hash `h`.
pub open spec fn first_leaf(leaves: Seq<LeafRecord>, h: H256, l: int) -> bool {
    &&& 0 <= l < leaves.len()
    &&& leaves[l].hash == h
    &&& forall|k: int| 0 <= k < l ==> (#[trigger] leaves[k]).hash != h
}

/// Whether a leaf with hash `h` is tracked.
pub open spec fn is_tracked(leaves: Seq<LeafRecord>, h: H256) -> bool {
    exists|l: int| 0 <= l < leaves.len() && (#[trigger] leaves[l]).hash == h
}

/// Leaf `j` is the first leaf whose ancestry holds `p`, first at position `q`.
pub open spec fn first_listing(leaves: Seq<LeafRecord>, p: H256, j: int, q: int) -> bool {
    &&& 0 <= j < leaves.len()
    &&& 0 <= q < leaves[j].ancestry.len()
    &&& leaves[j].ancestry[q] == p
    &&& forall|r: int| 0 <= r < q ==> leaves[j].ancestry[r] != p
    &&& forall|k: int| 0 <= k < j ==> !(#[trigger] leaves[k]).ancestry.contains(p)
}

/// The known ancestry from block `p` on, as the first leaf that reaches `p`
/// lists it; empty where no leaf reaches `p`.
pub open spec fn known_ancestry(leaves: Seq<LeafRecord>, p: H256) -> Seq<H256> {
    if exists|j: int, q: int| first_listing(leaves, p, j, q) {
        let (j, q) = choose|j: int, q: int| first_listing(leaves, p, j, q);
        leaves[j].ancestry.subrange(q, leaves[j].ancestry.len() as int)
    } else {
        Seq::empty()
    }
}

/// `a` followed by as much of `known` as the bound on ancestries lets in.
pub open spec fn attached(a: Seq<H256>, known: Seq<H256>) -> Seq<H256> {
    if a.len() + known.len() <= MAX_ANCESTRY {
        a + known
    } else {
        a + known.take(MAX_ANCESTRY - a.len())
    }
}

/// The recorded blocks that some leaf of `leaves` still reaches, in order.
pub open spec fn pruned(blocks: Seq<BlockRecord>, leaves: Seq<LeafRecord>) -> Seq<BlockRecord> {
    blocks.filter(|b: BlockRecord| reachable(leaves, b.hash))
}

/// The leaves of `leaves` whose hash `hashes` does not list, in order.
pub open spec fn without_leaves(leaves: Seq<LeafRecord>, hashes: Seq<H256>) -> Seq<LeafRecord> {
    leaves.filter(|l: LeafRecord| !hashes.contains(l.hash))
}

/// Where a walk for leaf `li` goes on at block `p`: nowhere once the leaf's
/// ancestry is full; where `p` is recorded already, the ancestry known from
/// `p` on is attached to the leaf and the walk ends; else `p` is fetched next.
pub open spec fn continue_at(leaves: Seq<LeafRecord>, blocks: Seq<BlockRecord>, li: int, p: H256) -> (
    Seq<LeafRecord>,
    Option<H256>,
) {
    let a = leaves[li].ancestry;
    if a.len() >= MAX_ANCESTRY {
        (leaves, None)
    } else if has_block(blocks, p) {
        (
            leaves.update(
                li,
                LeafRecord { hash: leaves[li].hash, ancestry: attached(a, known_ancestry(leaves, p)) },
            ),
            None,
        )
    } else {
        (leaves, Some(p))
    }
}

/// Blocks, leaves and next request after block `next` of the walk for `leaf`
/// was fetched: `number` is its number (none where the chain does not know
/// it), `parent` its parent (none at the first block), `candidates` the
/// candidates it includes, in order.
pub open spec fn after_fetch(
    blocks: Seq<BlockRecord>,
    leaves: Seq<LeafRecord>,
    leaf: H256,
    next: Option<H256>,
    number: Option<u32>,
    parent: Option<H256>,
    candidates: Seq<H256>,
) -> (Seq<BlockRecord>, Seq<LeafRecord>, Option<H256>) {
    match next {
        None => (blocks, leaves, None),
        Some(h) => {
            if !is_tracked(leaves, leaf) || number is None {
                (blocks, leaves, None)
            } else {
                let li = choose|l: int| first_leaf(leaves, leaf, l);
                let a = leaves[li].ancestry;
                if a.len() >= MAX_ANCESTRY {
                    (blocks, leaves, None)
                } else {
                    let b2 = recorded(blocks, h, number->0, candidates);
                    let l2 = leaves.update(li, LeafRecord { hash: leaf, ancestry: a.push(h) });
                    match parent {
                        None => (b2, l2, None),
                        Some(p) => {
                            let (l3, nx) = continue_at(l2, b2, li, p);
                            (b2, l3, nx)
                        },
                    }
                }
            }
        },
    }
}

proof fn lemma_push_contains(s: Seq<H256>, v: H256, x: H256)
    ensures
        s.push(v).contains(x) <==> (s.contains(x) || x == v),
{
    if s.contains(x) {
        let i = choose|i: int| 0 <= i < s.len() && s[i] == x;
        assert(s.push(v)[i] == x);
    }
    if x == v {
        assert(s.push(v)[s.len() as int] == x);
    }
    if s.push(v).contains(x) && x != v {
        let i = choose|i: int| 0 <= i < s.push(v).len() && s.push(v)[i] == x;
        assert(s[i] == x);
    }
}

proof fn lemma_first_leaf_unique(leaves: Seq<LeafRecord>, h: H256, a: int, b: int)
    requires
        first_leaf(leaves, h, a),
        first_leaf(leaves, h, b),
    ensures
        a == b,
{
    if a < b {
        assert(leaves[a].hash == h);
    } else if b < a {
        assert(leaves[b].hash == h);
    }
}

proof fn lemma_first_listing_unique(leaves: Seq<LeafRecord>, p: H256, j: int, q: int, j2: int, q2: int)
    requires
        first_listing(leaves, p, j, q),
        first_listing(leaves, p, j2, q2),
    ensures
        j == j2 && q == q2,
{
    if j < j2 {
        assert(leaves[j].ancestry.contains(p));
    } else if j2 < j {
        assert(leaves[j2].ancestry.contains(p));
    } else if q < q2 {
        assert(leaves[j].ancestry[q] == p);
    } else if q2 < q {
        assert(leaves[j].ancestry[q2] == p);
    }
}

/// Each leaf of `old_leaves` stands in `new_leaves` at the same place, with
/// its ancestry as a prefix of the new one.
pub open spec fn extends(old_leaves: Seq<LeafRecord>, new_leaves: Seq<LeafRecord>) -> bool {
    &&& old_leaves.len() <= new_leaves.len()
    &&& forall|l: int|
        0 <= l < old_leaves.len() ==> #[trigger] new_leaves[l].ancestry.len()
            >= old_leaves[l].ancestry.len() && new_leaves[l].ancestry.take(
            old_leaves[l].ancestry.len() as int,
        ) == old_leaves[l].ancestry
}

proof fn lemma_extends_trans(a: Seq<LeafRecord>, b: Seq<LeafRecord>, c: Seq<LeafRecord>)
    requires
        extends(a, b),
        extends(b, c),
    ensures
        extends(a, c),
{
    assert forall|l: int| 0 <= l < a.len() implies #[trigger] c[l].ancestry.len()
        >= a[l].ancestry.len() && c[l].ancestry.take(a[l].ancestry.len() as int)
        == a[l].ancestry by {
        assert(b[l].ancestry.take(a[l].ancestry.len() as int) == a[l].ancestry);
        assert(c[l].ancestry.take(b[l].ancestry.len() as int) == b[l].ancestry);
        assert(c[l].ancestry.take(a[l].ancestry.len() as int) =~= a[l].ancestry);
    }
}

proof fn lemma_extends_grow(leaves: Seq<LeafRecord>, li: int, a: Seq<H256>)
    requires
        0 <= li < leaves.len(),
        a.len() >= leaves[li].ancestry.len(),
        a.take(leaves[li].ancestry.len() as int) == leaves[li].ancestry,
    ensures
        extends(leaves, leaves.update(li, LeafRecord { hash: leaves[li].hash, ancestry: a })),
{
    let n = leaves.update(li, LeafRecord { hash: leaves[li].hash, ancestry: a });
    assert forall|l: int| 0 <= l < leaves.len() implies #[trigger] n[l].ancestry.len()
        >= leaves[l].ancestry.len() && n[l].ancestry.take(leaves[l].ancestry.len() as int)
        == leaves[l].ancestry by {
        if l != li {
            assert(n[l] == leaves[l]);
            assert(leaves[l].ancestry.take(leaves[l].ancestry.len() as int) =~= leaves[l].ancestry);
        }
    }
}

proof fn lemma_extends_refl(leaves: Seq<LeafRecord>)
    ensures
        extends(leaves, leaves),
{
    assert forall|l: int| 0 <= l < leaves.len() implies #[trigger] leaves[l].ancestry.len()
        >= leaves[l].ancestry.len() && leaves[l].ancestry.take(leaves[l].ancestry.len() as int)
        == leaves[l].ancestry by {
        assert(leaves[l].ancestry.take(leaves[l].ancestry.len() as int) =~= leaves[l].ancestry);
    }
}

proof fn lemma_extends_push(leaves: Seq<LeafRecord>, x: LeafRecord)
    ensures
        extends(leaves, leaves.push(x)),
{
    assert forall|l: int| 0 <= l < leaves.len() implies #[trigger] leaves.push(x)[l].ancestry.len()
        >= leaves[l].ancestry.len() && leaves.push(x)[l].ancestry.take(
        leaves[l].ancestry.len() as int,
    ) == leaves[l].ancestry by {
        assert(leaves[l].ancestry.take(leaves[l].ancestry.len() as int) =~= leaves[l].ancestry);
    }
}

/// Going on with a walk only lengthens the leaf's ancestry, within the bound.
proof fn lemma_continue_extends(leaves: Seq<LeafRecord>, blocks: Seq<BlockRecord>, li: int, p: H256)
    requires
        0 <= li < leaves.len(),
        forall|l: int| 0 <= l < leaves.len() ==> (#[trigger] leaves[l]).ancestry.len() <= MAX_ANCESTRY,
    ensures
        extends(leaves, continue_at(leaves, blocks, li, p).0),
        forall|l: int|
            0 <= l < continue_at(leaves, blocks, li, p).0.len() ==> (#[trigger] continue_at(
                leaves,
                blocks,
                li,
                p,
            ).0[l]).ancestry.len() <= MAX_ANCESTRY,
{
    let a = leaves[li].ancestry;
    if a.len() < MAX_ANCESTRY && has_block(blocks, p) {
        let t = attached(a, known_ancestry(leaves, p));
        assert(t.take(a.len() as int) =~= a);
        lemma_extends_grow(leaves, li, t);
    } else {
        lemma_extends_refl(leaves);
    }
}

/// Where each leaf's ancestry is a prefix of the same leaf's new ancestry,
/// every block reachable before is reachable after.
proof fn lemma_reach_kept(old_leaves: Seq<LeafRecord>, new_leaves: Seq<LeafRecord>, h: H256)
    requires
        extends(old_leaves, new_leaves),
        reachable(old_leaves, h),
    ensures
        reachable(new_leaves, h),
{
    let l = choose|l: int| 0 <= l < old_leaves.len() && (#[trigger] old_leaves[l]).ancestry.contains(h);
    let a = old_leaves[l].ancestry;
    let i = choose|i: int| 0 <= i < a.len() && a[i] == h;
    assert(new_leaves[l].ancestry.take(a.len() as int)[i] == h);
    assert(new_leaves[l].ancestry[i] == h);
    assert(new_leaves[l].ancestry.contains(h));
}

/// Tracks active leaves and the candidates included in their ancestry, and
/// orders candidates by the number of the block that included them.
pub struct OrderingProvider {
    index: InclusionIndex,
    leaves: Vec<TrackedLeaf>,
}

impl OrderingProvider {
    /// The recorded blocks, in the order in which they were recorded.
    pub closed spec fn blocks(&self) -> Seq<BlockRecord> {
        self.index@
    }

    /// The tracked leaves, in the order in which they were activated.
    pub closed spec fn leaves(&self) -> Seq<LeafRecord> {
        self.leaves@.map_values(|l: TrackedLeaf| l@)
    }

    /// The provider's invariant: see `provider_wf`.
    pub open spec fn wf(&self) -> bool {
        provider_wf(self.blocks(), self.leaves())
    }

    /// A provider that tracks no leaf and knows no block.
    pub fn empty() -> (r: OrderingProvider)
        ensures
            r.wf(),
            r.blocks() == Seq::<BlockRecord>::empty(),
            r.leaves() == Seq::<LeafRecord>::empty(),
    {
        let r = OrderingProvider { index: InclusionIndex::new(), leaves: Vec::new() };
        assert(r.leaves() =~= Seq::<LeafRecord>::empty());
        r
    }

    /// Number of blocks recorded.
    pub fn block_count(&self) -> (r: usize)
        ensures
            r == self.blocks().len(),
    {
        self.index.len()
    }

    /// Number of leaves tracked.
    pub fn leaf_count(&self) -> (r: usize)
        ensures
            r == self.leaves().len(),
    {
        self.leaves.len()
    }

    /// The comparator of a candidate: none until a recorded block lists it,
    /// else the number of the first recorded block that lists it, its
    /// position there and its hash. Reads the index only.
    pub fn candidate_comparator(&self, candidate: &CandidateReceipt) -> (r: Option<
        CandidateComparator,
    >)
        ensures
            r == comparator_of(self.blocks(), candidate.candidate_hash),
    {
        self.index.lookup(&candidate.hash())
    }

    /// Whether block `h` is recorded.
    pub fn knows_block(&self, h: &H256) -> (r: bool)
        ensures
            r == has_block(self.blocks(), *h),
    {
        self.index.contains_block(h)
    }

    /// Starts tracking an activated leaf and returns the walk back from it.
    ///
    /// A leaf tracked already is left as it is, and its walk is over. Else the
    /// leaf is tracked with an empty ancestry and the walk goes on at the
    /// leaf's own block, as `continue_at` says.
    pub fn begin_leaf(&mut self, leaf: &ActivatedLeaf) -> (w: LeafWalk)
        requires
            old(self).wf(),
        ensures
            final(self).wf(),
            w.leaf == leaf.hash,
            final(self).blocks() == old(self).blocks(),
            is_tracked(old(self).leaves(), leaf.hash) ==> final(self).leaves() == old(self).leaves()
                && w.next is None,
            !is_tracked(old(self).leaves(), leaf.hash) ==> (final(self).leaves(), w.next)
                == continue_at(
                old(self).leaves().push(LeafRecord { hash: leaf.hash, ancestry: Seq::empty() }),
                old(self).blocks(),
                old(self).leaves().len() as int,
                leaf.hash,
            ),
    {
        if self.leaf_position(&leaf.hash).is_some() {
            return LeafWalk { leaf: leaf.hash, next: None };
        }
        let ghost leaves0 = self.leaves();
        let ghost vec0 = self.leaves@;
        let tracked_leaf = TrackedLeaf { hash: leaf.hash, ancestry: Vec::new() };
        self.leaves.push(tracked_leaf);
        let ghost pushed = leaves0.push(LeafRecord { hash: leaf.hash, ancestry: Seq::empty() });
        assert(self.leaves() =~= pushed) by {
            assert(self.leaves@ == vec0.push(tracked_leaf));
        }
        let li = self.leaves.len() - 1;
        let next = self.continue_walk(li, leaf.hash);
        proof {
            let l1 = self.leaves();
            lemma_extends_push(leaves0, LeafRecord { hash: leaf.hash, ancestry: Seq::empty() });
            lemma_continue_extends(pushed, self.blocks(), li as int, leaf.hash);
            lemma_extends_trans(leaves0, pushed, l1);
            assert forall|i: int| 0 <= i < self.blocks().len() implies reachable(
                l1,
                #[trigger] self.blocks()[i].hash,
            ) by {
                assert(reachable(leaves0, self.blocks()[i].hash));
                lemma_reach_kept(leaves0, l1, self.blocks()[i].hash);
            }
        }
        LeafWalk { leaf: leaf.hash, next }
    }

    /// Takes what the chain reported of the block the walk asked for, and
    /// returns through `walk` the block to fetch next, as `after_fetch` says:
    /// the block is recorded with its candidates and added to the leaf's
    /// ancestry, and the walk goes on at its parent unless the parent is
    /// recorded already or the ancestry is full. A block of unknown number,
    /// or a leaf no longer tracked, ends the walk with nothing changed.
    pub fn block_fetched(
        &mut self,
        walk: &mut LeafWalk,
        number: Option<u32>,
        parent: Option<H256>,
        candidates: Vec<H256>,
    )
        requires
            old(self).wf(),
        ensures
            final(self).wf(),
            final(walk).leaf == old(walk).leaf,
            (final(self).blocks(), final(self).leaves(), final(walk).next) == after_fetch(
                old(self).blocks(),
                old(self).leaves(),
                old(walk).leaf,
                old(walk).next,
                number,
                parent,
                candidates@,
            ),
    {
        let h = match walk.next {
            None => {
                return;
            },
            Some(h) => h,
        };
        let li = match self.leaf_position(&walk.leaf) {
            None => {
                walk.next = None;
                return;
            },
            Some(li) => li,
        };
        let n = match number {
            None => {
                walk.next = None;
                return;
            },
            Some(n) => n,
        };
        let ghost leaves0 = self.leaves();
        let ghost blocks0 = self.blocks();
        proof {
            let l2 = choose|l: int| first_leaf(leaves0, walk.leaf, l);
            lemma_first_leaf_unique(leaves0, walk.leaf, li as int, l2);
        }
        assert(self.leaves@[li as int]@ == leaves0[li as int]);
        if self.leaves[li].ancestry.len() >= MAX_ANCESTRY {
            walk.next = None;
            return;
        }
        self.index.record(h, n, candidates);
        let ghost vec0 = self.leaves@;
        let mut tracked_leaf = self.leaves.remove(li);
        tracked_leaf.ancestry.push(h);
        self.leaves.insert(li, tracked_leaf);
        let ghost a = leaves0[li as int].ancestry;
        let ghost l2 = leaves0.update(li as int, LeafRecord { hash: walk.leaf, ancestry: a.push(h) });
        assert(self.leaves() =~= l2) by {
            assert(self.leaves@ =~= vec0.update(li as int, tracked_leaf));
        }
        let next = match parent {
            None => None,
            Some(p) => self.continue_walk(li, p),
        };
        walk.next = next;
        proof {
            let l3 = self.leaves();
            let b2 = self.blocks();
            assert(b2 == recorded(blocks0, h, n, candidates@));
            lemma_recorded_unique(blocks0, h, n, candidates@);
            assert(a.push(h).take(a.len() as int) =~= a);
            lemma_extends_grow(leaves0, li as int, a.push(h));
            assert(leaves0.update(li as int, LeafRecord { hash: leaves0[li as int].hash, ancestry: a.push(h) }) == l2);
            if let Some(p) = parent {
                lemma_continue_extends(l2, b2, li as int, p);
            } else {
                lemma_extends_refl(l2);
            }
            lemma_extends_trans(leaves0, l2, l3);
            assert forall|i: int| 0 <= i < b2.len() implies reachable(l3, #[trigger] b2[i].hash) by {
                if i < blocks0.len() {
                    assert(b2[i] == blocks0[i]);
                    assert(reachable(leaves0, blocks0[i].hash));
                    lemma_reach_kept(leaves0, l3, b2[i].hash);
                } else {
                    assert(b2[i].hash == h);
                    assert(l2[li as int].ancestry[a.len() as int] == h);
                    assert(reachable(l2, h)) by {
                        assert(l2[li as int].ancestry.contains(h));
                    }
                    lemma_reach_kept(l2, l3, h);
                }
            }
        }
    }

    /// A provider that tracks `leaf` and knows no block yet, and the walk
    /// back from `leaf`.
    pub fn new(leaf: &ActivatedLeaf) -> (r: (OrderingProvider, LeafWalk))
        ensures
            r.0.wf(),
            r.1.leaf == leaf.hash,
            r.1.next == Some(leaf.hash),
            r.0.blocks() == Seq::<BlockRecord>::empty(),
            r.0.leaves() == seq![LeafRecord { hash: leaf.hash, ancestry: Seq::empty() }],
    {
        let mut provider = OrderingProvider::empty();
        let walk = provider.begin_leaf(leaf);
        assert(Seq::<LeafRecord>::empty().push(
            LeafRecord { hash: leaf.hash, ancestry: Seq::empty() },
        ) =~= seq![LeafRecord { hash: leaf.hash, ancestry: Seq::empty() }]);
        (provider, walk)
    }

    /// Every block that some tracked leaf's ancestry holds.
    fn reachable_blocks(&self) -> (r: Vec<H256>)
        ensures
            forall|x: H256| r@.contains(x) <==> reachable(self.leaves(), x),
    {
        let mut r: Vec<H256> = Vec::new();
        let mut j: usize = 0;
        while j < self.leaves.len()
            invariant
                j <= self.leaves.len(),
                forall|x: H256|
                    r@.contains(x) <==> exists|l: int|
                        0 <= l < j && (#[trigger] self.leaves()[l]).ancestry.contains(x),
            decreases self.leaves.len() - j,
        {
            let anc = &self.leaves[j].ancestry;
            assert(anc@ == self.leaves()[j as int].ancestry);
            let ghost r0 = r@;
            let mut q: usize = 0;
            while q < anc.len()
                invariant
                    j < self.leaves.len(),
                    anc@ == self.leaves()[j as int].ancestry,
                    q <= anc.len(),
                    forall|x: H256|
                        r@.contains(x) <==> (r0.contains(x) || anc@.take(q as int).contains(x)),
                    forall|x: H256|
                        r0.contains(x) <==> exists|l: int|
                            0 <= l < j && (#[trigger] self.leaves()[l]).ancestry.contains(x),
                decreases anc.len() - q,
            {
                let ghost r1 = r@;
                let ghost q0 = q as int;
                assert(forall|x: H256|
                    r1.contains(x) <==> (r0.contains(x) || anc@.take(q0).contains(x)));
                r.push(anc[q]);
                assert(r@ == r1.push(anc@[q0]));
                q = q + 1;
                assert(anc@.take(q as int) =~= anc@.take(q0).push(anc@[q0]));
                assert forall|x: H256|
                    r@.contains(x) <==> (r0.contains(x) || anc@.take(q as int).contains(x)) by {
                    lemma_push_contains(r1, anc@[q0], x);
                    lemma_push_contains(anc@.take(q0), anc@[q0], x);
                    assert(r1.contains(x) <==> (r0.contains(x) || anc@.take(q0).contains(x)));
                }
            }
            assert(anc@.take(anc@.len() as int) =~= anc@);
            let ghost j0 = j as int;
            j = j + 1;
            assert forall|x: H256|
                r@.contains(x) <==> exists|l: int|
                    0 <= l < j && (#[trigger] self.leaves()[l]).ancestry.contains(x) by {
                assert(r@.contains(x) <==> (r0.contains(x) || anc@.contains(x)));
                assert(r0.contains(x) <==> exists|l: int|
                    0 <= l < j0 && (#[trigger] self.leaves()[l]).ancestry.contains(x));
                if anc@.contains(x) {
                    assert(self.leaves()[j0].ancestry.contains(x));
                }
                if r0.contains(x) {
                    let l = choose|l: int|
                        0 <= l < j0 && (#[trigger] self.leaves()[l]).ancestry.contains(x);
                    assert(0 <= l < j && self.leaves()[l].ancestry.contains(x));
                }
                if exists|l: int| 0 <= l < j && (#[trigger] self.leaves()[l]).ancestry.contains(x) {
                    let l = choose|l: int|
                        0 <= l < j && (#[trigger] self.leaves()[l]).ancestry.contains(x);
                    if l < j0 {
                        assert(r0.contains(x));
                    } else {
                        assert(anc@.contains(x));
                    }
                }
            }
        }
        r
    }

    /// Stops tracking the leaves whose hash `hashes` lists, and evicts every
    /// recorded block that no remaining leaf reaches, together with its
    /// candidates. Blocks that another leaf still reaches stay recorded.
    pub fn deactivate_leaves(&mut self, hashes: &Vec<H256>)
        requires
            old(self).wf(),
        ensures
            final(self).wf(),
            final(self).leaves() == without_leaves(old(self).leaves(), hashes@),
            final(self).blocks() == pruned(old(self).blocks(), final(self).leaves()),
    {
        let ghost orig = self.leaves();
        let ghost blocks0 = self.blocks();
        let mut rest: Vec<TrackedLeaf> = Vec::new();
        std::mem::swap(&mut rest, &mut self.leaves);
        assert(self.leaves() =~= without_leaves(orig.take(0), hashes@)) by {
            reveal(Seq::filter);
        }
        let ghost n = rest@.len();
        let ghost consumed: int = 0;
        while rest.len() > 0
            invariant
                orig.len() == n,
                consumed + rest@.len() == n,
                0 <= consumed <= n,
                forall|k: int| 0 <= k < rest@.len() ==> #[trigger] rest@[k]@ == orig[consumed + k],
                self.leaves() == without_leaves(orig.take(consumed), hashes@),
                self.index@ == blocks0,
            decreases rest@.len(),
        {
            let ghost rest_before = rest@;
            let ghost self_before = self.leaves();
            let leaf = rest.remove(0);
            assert(leaf@ == orig[consumed]) by {
                assert(rest_before[0]@ == orig[consumed]);
            }
            let ghost vec_before = self.leaves@;
            if !list_contains(hashes, &leaf.hash) {
                self.leaves.push(leaf);
                assert(self.leaves() =~= self_before.push(orig[consumed])) by {
                    assert(self.leaves@ == vec_before.push(leaf));
                }
            }
            proof {
                assert(orig.take(consumed + 1).drop_last() =~= orig.take(consumed));
                assert(orig.take(consumed + 1).last() == orig[consumed]);
                reveal(Seq::filter);
                assert forall|k: int| 0 <= k < rest@.len() implies #[trigger] rest@[k]@ == orig[
                    consumed + 1 + k] by {
                    assert(rest@[k] == rest_before[k + 1]);
                }
                consumed = consumed + 1;
            }
        }
        assert(orig.take(n as int) =~= orig);
        let reach = self.reachable_blocks();
        self.index.retain_listed(&reach);
        proof {
            let leaves1 = self.leaves();
            let f = |b: BlockRecord| reach@.contains(b.hash);
            let g = |b: BlockRecord| reachable(leaves1, b.hash);
            assert(f =~= g);
            assert(self.blocks() == pruned(blocks0, leaves1));
            lemma_filter_unique(blocks0, g);
            assert forall|i: int| 0 <= i < self.blocks().len() implies reachable(
                leaves1,
                #[trigger] self.blocks()[i].hash,
            ) by {
                blocks0.lemma_filter_pred(g, i);
            }
            assert forall|l: int| 0 <= l < leaves1.len() implies (
            #[trigger] leaves1[l]).ancestry.len() <= MAX_ANCESTRY by {
                let pl = |x: LeafRecord| !hashes@.contains(x.hash);
                assert(leaves1.contains(leaves1[l]));
                orig.lemma_filter_contains_rev(pl, leaves1[l]);
                let k = choose|k: int| 0 <= k < orig.len() && orig[k] == leaves1[l];
                assert(orig[k].ancestry.len() <= MAX_ANCESTRY);
            }
        }
    }

    /// Stops tracking the leaves with hash `h`, and evicts every recorded
    /// block that no remaining leaf reaches, as `deactivate_leaves` does.
    pub fn deactivate_leaf(&mut self, h: &H256)
        requires
            old(self).wf(),
        ensures
            final(self).wf(),
            final(self).leaves() == without_leaves(old(self).leaves(), seq![*h]),
            final(self).blocks() == pruned(old(self).blocks(), final(self).leaves()),
    {
        let hashes = vec![*h];
        assert(hashes@ == seq![*h]) by {
            assert(hashes@ =~= seq![*h]);
        }
        self.deactivate_leaves(&hashes);
    }

    /// The first leaf whose ancestry holds `p`, and the first position of
    /// `p` there.
    fn find_listing(&self, p: &H256) -> (r: Option<(usize, usize)>)
        ensures
            r is None <==> !reachable(self.leaves(), *p),
            r matches Some((j, q)) ==> first_listing(self.leaves(), *p, j as int, q as int),
    {
        let mut j: usize = 0;
        while j < self.leaves.len()
            invariant
                j <= self.leaves.len(),
                forall|k: int| 0 <= k < j ==> !(#[trigger] self.leaves()[k]).ancestry.contains(*p),
            decreases self.leaves.len() - j,
        {
            let anc = &self.leaves[j].ancestry;
            assert(anc@ == self.leaves()[j as int].ancestry);
            let mut q: usize = 0;
            while q < anc.len()
                invariant
                    j < self.leaves.len(),
                    anc@ == self.leaves()[j as int].ancestry,
                    forall|k: int| 0 <= k < j ==> !(#[trigger] self.leaves()[k]).ancestry.contains(*p),
                    q <= anc.len(),
                    forall|r: int| 0 <= r < q ==> anc@[r] != *p,
                decreases anc.len() - q,
            {
                if anc[q] == *p {
                    assert(first_listing(self.leaves(), *p, j as int, q as int));
                    proof {
                        if !reachable(self.leaves(), *p) {
                            assert(self.leaves()[j as int].ancestry.contains(*p));
                        }
                    }
                    return Some((j, q));
                }
                q = q + 1;
            }
            j = j + 1;
        }
        None
    }

    /// Attaches to leaf `li` the ancestry known from block `p` on, as far as
    /// the bound on ancestries lets in.
    fn attach_known_ancestry(&mut self, li: usize, p: &H256)
        requires
            li < old(self).leaves().len(),
            old(self).leaves()[li as int].ancestry.len() <= MAX_ANCESTRY,
        ensures
            final(self).blocks() == old(self).blocks(),
            final(self).leaves() == old(self).leaves().update(
                li as int,
                LeafRecord {
                    hash: old(self).leaves()[li as int].hash,
                    ancestry: attached(
                        old(self).leaves()[li as int].ancestry,
                        known_ancestry(old(self).leaves(), *p),
                    ),
                },
            ),
    {
        let ghost leaves0 = self.leaves();
        let ghost a = leaves0[li as int].ancestry;
        let ghost known = known_ancestry(leaves0, *p);
        let cur = self.leaves[li].ancestry.len();
        let mut ext: Vec<H256> = Vec::new();
        match self.find_listing(p) {
            Some((j, q)) => {
                proof {
                    let (j2, q2) = choose|j2: int, q2: int| first_listing(leaves0, *p, j2, q2);
                    lemma_first_listing_unique(leaves0, *p, j as int, q as int, j2, q2);
                }
                let src = &self.leaves[j].ancestry;
                assert(src@ == leaves0[j as int].ancestry);
                assert(known == src@.subrange(q as int, src@.len() as int));
                let mut k: usize = q;
                while k < src.len() && cur + ext.len() < MAX_ANCESTRY
                    invariant
                        q <= k <= src.len(),
                        cur == a.len(),
                        cur <= MAX_ANCESTRY,
                        cur + ext@.len() <= MAX_ANCESTRY,
                        ext@ == src@.subrange(q as int, k as int),
                        known == src@.subrange(q as int, src@.len() as int),
                    decreases src.len() - k,
                {
                    ext.push(src[k]);
                    k = k + 1;
                    assert(ext@ =~= src@.subrange(q as int, k as int));
                }
                assert(ext@ =~= attached(a, known).subrange(a.len() as int, attached(a, known).len() as int));
            },
            None => {
                assert(known == Seq::<H256>::empty()) by {
                    if exists|j2: int, q2: int| first_listing(leaves0, *p, j2, q2) {
                        let (j2, q2) = choose|j2: int, q2: int| first_listing(leaves0, *p, j2, q2);
                        assert(leaves0[j2].ancestry.contains(*p)) by {
                            assert(leaves0[j2].ancestry[q2] == *p);
                        }
                    }
                }
                assert(ext@ =~= attached(a, known).subrange(a.len() as int, attached(a, known).len() as int));
            },
        }
        let ghost vec0 = self.leaves@;
        let mut leaf = self.leaves.remove(li);
        assert(leaf@ == leaves0[li as int]);
        leaf.ancestry.append(&mut ext);
        assert(leaf.ancestry@ =~= attached(a, known));
        self.leaves.insert(li, leaf);
        assert(self.leaves@ =~= vec0.update(li as int, leaf));
        assert(self.leaves() =~= leaves0.update(
            li as int,
            LeafRecord { hash: leaves0[li as int].hash, ancestry: attached(a, known) },
        ));
    }

    /// Goes on with the walk for leaf `li` at block `p`, as `continue_at`
    /// says, and returns the block to fetch next.
    fn continue_walk(&mut self, li: usize, p: H256) -> (next: Option<H256>)
        requires
            li < old(self).leaves().len(),
            old(self).leaves()[li as int].ancestry.len() <= MAX_ANCESTRY,
        ensures
            final(self).blocks() == old(self).blocks(),
            (final(self).leaves(), next) == continue_at(
                old(self).leaves(),
                old(self).blocks(),
                li as int,
                p,
            ),
    {
        assert(self.leaves@[li as int]@ == self.leaves()[li as int]);
        if self.leaves[li].ancestry.len() >= MAX_ANCESTRY {
            None
        } else if self.index.contains_block(&p) {
            self.attach_known_ancestry(li, &p);
            None
        } else {
            Some(p)
        }
    }

    /// Position of the first tracked leaf with hash `h`.
    fn leaf_position(&self, h: &H256) -> (r: Option<usize>)
        ensures
            r is None <==> !is_tracked(self.leaves(), *h),
            r matches Some(l) ==> first_leaf(self.leaves(), *h, l as int),
    {
        let mut i: usize = 0;
        while i < self.leaves.len()
            invariant
                i <= self.leaves.len(),
                forall|k: int| 0 <= k < i ==> (#[trigger] self.leaves()[k]).hash != *h,
            decreases self.leaves.len() - i,
        {
            if self.leaves[i].hash == *h {
                assert(self.leaves()[i as int].hash == *h);
                return Some(i);
            }
            i = i + 1;
        }
        None
    }
}

} // verus!
