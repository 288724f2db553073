use vstd::prelude::*;

use crate::hash::H256;

verus! {

/// The ordering key of an included candidate.
///
/// Keys compare by block number first (older is more urgent), then by the
/// position of the candidate among those included in the same block, then by
/// the candidate's hash.
#[derive(Clone, Copy, Debug, PartialEq, Eq, Structural)]
pub struct CandidateComparator {
    /// Number of the block in which the candidate was included.
    pub relay_parent_block_number: u32,
    /// Position of the candidate among the candidates of that block.
    pub position: usize,
    /// Hash of the candidate.
    pub candidate_hash: H256,
}

impl CandidateComparator {
    /// Strict lexicographic order on (block number, position, candidate hash).
    pub open spec fn spec_precedes(self, other: CandidateComparator) -> bool {
        ||| self.relay_parent_block_number < other.relay_parent_block_number
        ||| (self.relay_parent_block_number == other.relay_parent_block_number && self.position
            < other.position)
        ||| (self.relay_parent_block_number == other.relay_parent_block_number && self.position
            == other.position && self.candidate_hash.spec_lt(other.candidate_hash))
    }

    /// Whether the candidate of `self` is to be handled before that of `other`.
    pub fn precedes(&self, other: &CandidateComparator) -> (r: bool)
        ensures
            r == self.spec_precedes(*other),
    {
        if self.relay_parent_block_number != other.relay_parent_block_number {
            self.relay_parent_block_number < other.relay_parent_block_number
        } else if self.position != other.position {
            self.position < other.position
        } else {
            self.candidate_hash.lt(&other.candidate_hash)
        }
    }
}

/// No comparator precedes itself.
pub proof fn lemma_precedes_irreflexive(a: CandidateComparator)
    ensures
        !a.spec_precedes(a),
{
}

/// Two comparators never precede each other.
pub proof fn lemma_precedes_asymmetric(a: CandidateComparator, b: CandidateComparator)
    ensures
        !(a.spec_precedes(b) && b.spec_precedes(a)),
{
}

/// If `a` precedes `b` and `b` precedes `c`, then `a` precedes `c`.
pub proof fn lemma_precedes_transitive(
    a: CandidateComparator,
    b: CandidateComparator,
    c: CandidateComparator,
)
    requires
        a.spec_precedes(b),
        b.spec_precedes(c),
    ensures
        a.spec_precedes(c),
{
}

/// Of two different comparators, one precedes the other: the order is total,
/// also for two candidates of the same block.
pub proof fn lemma_precedes_total(a: CandidateComparator, b: CandidateComparator)
    requires
        a != b,
    ensures
        a.spec_precedes(b) || b.spec_precedes(a),
{
}

/// A candidate included in an older block precedes one included in a newer
/// block, whatever their positions and hashes.
pub proof fn lemma_older_block_precedes(a: CandidateComparator, b: CandidateComparator)
    requires
        a.relay_parent_block_number < b.relay_parent_block_number,
    ensures
        a.spec_precedes(b),
        !b.spec_precedes(a),
{
}

} // verus!
