use dispute_ordering::{
    ActivatedLeaf, CandidateComparator, CandidateReceipt, H256, LeafStatus, LeafWalk,
    MAX_ANCESTRY, OrderingProvider,
};

/// Hash of the block with the given number on the main test chain.
fn block_hash(n: u64) -> H256 {
    H256::new(0, 0, 1, n)
}

/// Hash of the block with the given number on a fork of the test chain.
fn fork_hash(n: u64) -> H256 {
    H256::new(0, 0, 2, n)
}

fn activated_leaf(hash: H256, number: u32) -> ActivatedLeaf {
    ActivatedLeaf { hash, number, status: LeafStatus::Fresh }
}

fn make_candidate_receipt(relay_parent: H256) -> CandidateReceipt {
    CandidateReceipt {
        candidate_hash: H256::new(7, relay_parent.w2, relay_parent.w3, 0),
        relay_parent,
    }
}

fn candidate(id: u64) -> CandidateReceipt {
    CandidateReceipt { candidate_hash: H256::new(9, 0, 0, id), relay_parent: block_hash(0) }
}

/// Serves one fetch of a walk and checks which block it asked for.
fn serve(
    provider: &mut OrderingProvider,
    walk: &mut LeafWalk,
    expected: H256,
    number: Option<u32>,
    parent: Option<H256>,
    candidates: Vec<H256>,
) {
    assert_eq!(walk.next_request(), Some(expected));
    provider.block_fetched(walk, number, parent, candidates);
}

#[test]
fn ordering_provider_provides_ordering_when_initialized() {
    let candidate = make_candidate_receipt(block_hash(2));
    let (mut provider, mut walk) = OrderingProvider::new(&activated_leaf(block_hash(1), 1));
    serve(&mut provider, &mut walk, block_hash(1), Some(1), None, Vec::new());
    assert_eq!(walk.next_request(), None);
    let r = provider.candidate_comparator(&candidate);
    assert!(matches!(r, None));
    // After the next active leaves update there is a comparator.
    let mut walk = provider.begin_leaf(&activated_leaf(block_hash(2), 2));
    serve(
        &mut provider,
        &mut walk,
        block_hash(2),
        Some(1),
        Some(block_hash(1)),
        vec![candidate.candidate_hash],
    );
    assert_eq!(walk.next_request(), None);
    let r = provider.candidate_comparator(&candidate);
    match r {
        Some(r2) => assert_eq!(r2.relay_parent_block_number, 1),
        None => panic!("no comparator after the update"),
    }
}

#[test]
fn unreported_candidate_stays_unknown_across_updates() {
    let x = candidate(100);
    let (mut provider, mut walk) = OrderingProvider::new(&activated_leaf(block_hash(1), 1));
    assert_eq!(provider.candidate_comparator(&x), None);
    serve(&mut provider, &mut walk, block_hash(1), Some(1), None, vec![candidate(1).candidate_hash]);
    assert_eq!(provider.candidate_comparator(&x), None);
    for n in 2..6u64 {
        let mut walk = provider.begin_leaf(&activated_leaf(block_hash(n), n as u32));
        serve(
            &mut provider,
            &mut walk,
            block_hash(n),
            Some(n as u32),
            Some(block_hash(n - 1)),
            vec![candidate(n).candidate_hash],
        );
        provider.deactivate_leaf(&block_hash(n - 1));
        assert_eq!(provider.candidate_comparator(&x), None);
    }
    assert!(provider.candidate_comparator(&candidate(5)).is_some());
}

#[test]
fn comparator_carries_block_number_and_is_stable() {
    let c = candidate(1);
    let (mut provider, mut walk) = OrderingProvider::new(&activated_leaf(block_hash(8), 8));
    serve(
        &mut provider,
        &mut walk,
        block_hash(8),
        Some(8),
        Some(block_hash(7)),
        vec![candidate(0).candidate_hash, c.candidate_hash],
    );
    serve(&mut provider, &mut walk, block_hash(7), None, None, Vec::new());
    let expected = CandidateComparator {
        relay_parent_block_number: 8,
        position: 1,
        candidate_hash: c.candidate_hash,
    };
    assert_eq!(provider.candidate_comparator(&c), Some(expected));
    assert_eq!(provider.candidate_comparator(&c), Some(expected));
    assert_eq!(provider.block_count(), 1);
}

#[test]
fn walk_goes_back_until_a_recorded_block() {
    let (mut provider, mut walk) = OrderingProvider::new(&activated_leaf(block_hash(3), 3));
    serve(&mut provider, &mut walk, block_hash(3), Some(3), Some(block_hash(2)), vec![candidate(3).candidate_hash]);
    serve(&mut provider, &mut walk, block_hash(2), Some(2), Some(block_hash(1)), vec![candidate(2).candidate_hash]);
    serve(&mut provider, &mut walk, block_hash(1), Some(1), None, vec![candidate(1).candidate_hash]);
    assert_eq!(walk.next_request(), None);
    assert_eq!(provider.block_count(), 3);
    // A child of the leaf: one fetch, then the walk meets a recorded block.
    let mut walk = provider.begin_leaf(&activated_leaf(block_hash(4), 4));
    serve(&mut provider, &mut walk, block_hash(4), Some(4), Some(block_hash(3)), vec![candidate(4).candidate_hash]);
    assert_eq!(walk.next_request(), None);
    assert_eq!(provider.block_count(), 4);
    for n in 1..5u64 {
        let k = provider.candidate_comparator(&candidate(n)).unwrap();
        assert_eq!(k.relay_parent_block_number, n as u32);
        assert_eq!(k.position, 0);
    }
}

#[test]
fn deactivated_leaf_blocks_are_evicted() {
    let (mut provider, mut walk) = OrderingProvider::new(&activated_leaf(block_hash(2), 2));
    serve(&mut provider, &mut walk, block_hash(2), Some(2), Some(block_hash(1)), vec![candidate(2).candidate_hash]);
    serve(&mut provider, &mut walk, block_hash(1), Some(1), None, vec![candidate(1).candidate_hash]);
    assert!(provider.candidate_comparator(&candidate(1)).is_some());
    provider.deactivate_leaf(&block_hash(2));
    assert_eq!(provider.leaf_count(), 0);
    assert_eq!(provider.block_count(), 0);
    assert_eq!(provider.candidate_comparator(&candidate(1)), None);
    assert_eq!(provider.candidate_comparator(&candidate(2)), None);
}

#[test]
fn sibling_leaf_keeps_shared_blocks() {
    // Main chain 1 <- 2 <- 3, fork 2 <- 3'.
    let (mut provider, mut walk) = OrderingProvider::new(&activated_leaf(block_hash(3), 3));
    serve(&mut provider, &mut walk, block_hash(3), Some(3), Some(block_hash(2)), vec![candidate(3).candidate_hash]);
    serve(&mut provider, &mut walk, block_hash(2), Some(2), Some(block_hash(1)), vec![candidate(2).candidate_hash]);
    serve(&mut provider, &mut walk, block_hash(1), Some(1), None, vec![candidate(1).candidate_hash]);
    let mut walk = provider.begin_leaf(&activated_leaf(fork_hash(3), 3));
    serve(&mut provider, &mut walk, fork_hash(3), Some(3), Some(block_hash(2)), vec![candidate(33).candidate_hash]);
    assert_eq!(walk.next_request(), None);
    let before = provider.candidate_comparator(&candidate(2));
    provider.deactivate_leaf(&block_hash(3));
    assert_eq!(provider.leaf_count(), 1);
    assert_eq!(provider.block_count(), 3);
    assert_eq!(provider.candidate_comparator(&candidate(3)), None);
    assert_eq!(provider.candidate_comparator(&candidate(2)), before);
    assert_eq!(provider.candidate_comparator(&candidate(1)).unwrap().relay_parent_block_number, 1);
    assert_eq!(provider.candidate_comparator(&candidate(33)).unwrap().relay_parent_block_number, 3);
}

#[test]
fn deactivating_an_unknown_leaf_changes_nothing() {
    let (mut provider, mut walk) = OrderingProvider::new(&activated_leaf(block_hash(1), 1));
    serve(&mut provider, &mut walk, block_hash(1), Some(1), None, vec![candidate(1).candidate_hash]);
    provider.deactivate_leaf(&block_hash(9));
    assert_eq!(provider.leaf_count(), 1);
    assert_eq!(provider.block_count(), 1);
}

#[test]
fn unknown_block_number_ends_the_walk() {
    let (mut provider, mut walk) = OrderingProvider::new(&activated_leaf(block_hash(5), 5));
    serve(&mut provider, &mut walk, block_hash(5), None, Some(block_hash(4)), vec![candidate(5).candidate_hash]);
    assert_eq!(walk.next_request(), None);
    assert_eq!(provider.block_count(), 0);
    assert_eq!(provider.candidate_comparator(&candidate(5)), None);
    // Further answers for an ended walk are ignored.
    provider.block_fetched(&mut walk, Some(5), None, vec![candidate(5).candidate_hash]);
    assert_eq!(provider.block_count(), 0);
}

#[test]
fn activating_a_tracked_leaf_again_fetches_nothing() {
    let (mut provider, mut walk) = OrderingProvider::new(&activated_leaf(block_hash(1), 1));
    serve(&mut provider, &mut walk, block_hash(1), Some(1), None, Vec::new());
    let walk = provider.begin_leaf(&activated_leaf(block_hash(1), 1));
    assert_eq!(walk.next_request(), None);
    assert_eq!(provider.leaf_count(), 1);
}

#[test]
fn walk_of_a_leaf_deactivated_meanwhile_ends() {
    let (mut provider, mut walk) = OrderingProvider::new(&activated_leaf(block_hash(2), 2));
    provider.deactivate_leaf(&block_hash(2));
    serve(&mut provider, &mut walk, block_hash(2), Some(2), Some(block_hash(1)), vec![candidate(2).candidate_hash]);
    assert_eq!(walk.next_request(), None);
    assert_eq!(provider.block_count(), 0);
}

#[test]
fn walk_stops_at_the_ancestry_bound() {
    let top = (MAX_ANCESTRY + 100) as u64;
    let (mut provider, mut walk) = OrderingProvider::new(&activated_leaf(block_hash(top), top as u32));
    let mut n = top;
    let mut fetched: usize = 0;
    while let Some(h) = walk.next_request() {
        assert_eq!(h, block_hash(n));
        provider.block_fetched(&mut walk, Some(n as u32), Some(block_hash(n - 1)), vec![candidate(n).candidate_hash]);
        fetched += 1;
        n -= 1;
    }
    assert_eq!(fetched, MAX_ANCESTRY);
    assert_eq!(provider.block_count(), MAX_ANCESTRY);
    assert!(provider.candidate_comparator(&candidate(top)).is_some());
    assert_eq!(provider.candidate_comparator(&candidate(top - MAX_ANCESTRY as u64)), None);
}

#[test]
fn ancestry_attached_from_a_recorded_block_is_bounded() {
    let top = MAX_ANCESTRY as u64;
    let (mut provider, mut walk) = OrderingProvider::new(&activated_leaf(block_hash(top), top as u32));
    let mut n = top;
    while walk.next_request().is_some() {
        provider.block_fetched(&mut walk, Some(n as u32), Some(block_hash(n - 1)), Vec::new());
        n -= 1;
    }
    let mut walk = provider.begin_leaf(&activated_leaf(block_hash(top + 1), top as u32 + 1));
    serve(&mut provider, &mut walk, block_hash(top + 1), Some(top as u32 + 1), Some(block_hash(top)), Vec::new());
    assert_eq!(walk.next_request(), None);
    provider.deactivate_leaf(&block_hash(top));
    // The new leaf reaches itself and all but the oldest block of the old ancestry.
    assert_eq!(provider.block_count(), MAX_ANCESTRY);
    assert!(!provider.knows_block(&block_hash(1)));
    assert!(provider.knows_block(&block_hash(2)));
}

#[test]
fn recording_a_known_block_again_keeps_its_first_record() {
    // Two leaves on one parent that neither had recorded yet.
    let (mut provider, mut walk) = OrderingProvider::new(&activated_leaf(block_hash(3), 3));
    let mut walk2 = provider.begin_leaf(&activated_leaf(fork_hash(3), 3));
    serve(&mut provider, &mut walk, block_hash(3), Some(3), Some(block_hash(2)), Vec::new());
    serve(&mut provider, &mut walk2, fork_hash(3), Some(3), Some(block_hash(2)), Vec::new());
    serve(&mut provider, &mut walk, block_hash(2), Some(2), None, vec![candidate(2).candidate_hash]);
    serve(&mut provider, &mut walk2, block_hash(2), Some(20), None, vec![candidate(9).candidate_hash]);
    assert_eq!(provider.block_count(), 3);
    assert_eq!(provider.candidate_comparator(&candidate(2)).unwrap().relay_parent_block_number, 2);
    assert_eq!(provider.candidate_comparator(&candidate(9)), None);
    provider.deactivate_leaf(&block_hash(3));
    assert!(provider.knows_block(&block_hash(2)));
}

#[test]
fn older_inclusion_precedes_newer() {
    let c1 = CandidateComparator { relay_parent_block_number: 5, position: 3, candidate_hash: H256::new(9, 9, 9, 9) };
    let c2 = CandidateComparator { relay_parent_block_number: 10, position: 0, candidate_hash: H256::new(0, 0, 0, 0) };
    assert!(c1.precedes(&c2));
    assert!(!c2.precedes(&c1));
    assert!(!c1.precedes(&c1));
}

#[test]
fn same_block_ties_break_by_position_then_hash() {
    let a = CandidateComparator { relay_parent_block_number: 4, position: 0, candidate_hash: H256::new(5, 0, 0, 0) };
    let b = CandidateComparator { relay_parent_block_number: 4, position: 1, candidate_hash: H256::new(1, 0, 0, 0) };
    let c = CandidateComparator { relay_parent_block_number: 4, position: 1, candidate_hash: H256::new(1, 0, 0, 2) };
    assert!(a.precedes(&b) && !b.precedes(&a));
    assert!(b.precedes(&c) && !c.precedes(&b));
    assert!(a.precedes(&c));
}

#[test]
fn hash_order_is_by_words_most_significant_first() {
    assert!(H256::new(0, 0, 0, 5).lt(&H256::new(0, 0, 1, 0)));
    assert!(H256::new(1, 0, 0, 0).lt(&H256::new(2, 0, 0, 0)));
    assert!(!H256::new(0, 1, 0, 0).lt(&H256::new(0, 0, 9, 9)));
    assert!(!H256::from_low_u64(3).lt(&H256::from_low_u64(3)));
    assert_eq!(H256::from_low_u64(3), H256::new(0, 0, 0, 3));
}
