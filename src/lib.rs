//! Ordering of disputed candidates by the relay-chain depth at which they
//! were included.
//!
//! An [`OrderingProvider`] learns from chain-head notifications which
//! candidates were included in which blocks, and at what block number. It
//! forgets blocks that no tracked leaf reaches any more, and answers
//! comparator queries from what it has recorded, with no chain query.
//!
//! Walking back from a new leaf takes answers from the chain. The provider
//! does not ask them itself: [`OrderingProvider::begin_leaf`] and
//! [`OrderingProvider::block_fetched`] say which block to fetch next, and
//! the caller fetches it and hands back what the chain said.
mod comparator;
mod hash;
mod index;
mod laws;
mod provider;

pub use comparator::{
    CandidateComparator, lemma_older_block_precedes, lemma_precedes_asymmetric,
    lemma_precedes_irreflexive, lemma_precedes_total, lemma_precedes_transitive,
};
pub use hash::H256;
pub use index::{BlockRecord, comparator_of, is_included, recorded};
pub use laws::{
    lemma_covered_candidate_kept, lemma_evicted_candidate_unknown,
    lemma_recorded_candidate_gets_block_number, lemma_unreported_candidate_stays_unknown,
};
pub use provider::{
    ActivatedLeaf, ActiveLeavesUpdate, CandidateReceipt, LeafRecord, LeafStatus, LeafWalk, MAX_ANCESTRY,
    OrderingProvider, after_fetch, continue_at, pruned, reachable, without_leaves,
};
