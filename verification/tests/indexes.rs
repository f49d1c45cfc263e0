use cache_aware_routing::bitmap::HostBitmap;
use cache_aware_routing::indexer::{
    longest_prefix_lengths_debug, longest_prefix_lengths_for_candidates,
    longest_prefix_lengths_into, shard_for, shard_for_fibonacci, shard_for_low_bits,
    ShardedBlockIndexer, FIBONACCI, SHARDS, SHARD_BITS, SHARD_COUNT,
};
use cache_aware_routing::search::SearchFrame;
use cache_aware_routing::shard::Shard;

fn entries(indexer: &ShardedBlockIndexer) -> usize {
    indexer.shard_entry_counts().iter().sum()
}

#[test]
fn fibonacci_hashing_takes_the_top_bits() {
    assert_eq!(FIBONACCI, 0x9E3779B97F4A7C15);
    assert_eq!((SHARDS, SHARD_BITS, SHARD_COUNT), (256, 8, 256));
    let expected = [(0, 0), (1, 158), (2, 60), (42, 245), (u64::MAX, 97)];
    for (hash, shard) in expected {
        assert_eq!(shard_for_fibonacci(hash), shard);
        assert_eq!(shard_for(hash), shard);
    }
    for hash in (0..100_000u64).map(|i| i.wrapping_mul(0x1234_5678_9abc_def1)) {
        assert_eq!(
            shard_for_fibonacci(hash),
            (hash.wrapping_mul(0x9E3779B97F4A7C15) >> 56) as usize
        );
        assert_eq!(shard_for_low_bits(hash), (hash & 255) as usize);
    }
}

#[test]
fn registered_blocks_have_owners() {
    let mut indexer = ShardedBlockIndexer::new(4);
    assert!(indexer.owners(7).is_empty());
    indexer.register(2, 7);
    indexer.register(0, 7);
    indexer.register(3, 8);
    assert_eq!(indexer.owners(7).iter_set_bits(), vec![0, 2]);
    assert_eq!(indexer.owners(8).iter_set_bits(), vec![3]);
    assert_eq!(entries(&indexer), 2);
}

#[test]
fn evicted_blocks_lose_their_owner_and_then_their_entry() {
    let mut indexer = ShardedBlockIndexer::new(4);
    indexer.register(1, 7);
    indexer.register(2, 7);
    indexer.evict(1, 7);
    assert_eq!(indexer.owners(7).iter_set_bits(), vec![2]);
    assert_eq!(entries(&indexer), 1);
    indexer.evict(3, 7);
    assert_eq!(indexer.owners(7).iter_set_bits(), vec![2]);
    indexer.evict(2, 7);
    assert!(indexer.owners(7).is_empty());
    assert_eq!(entries(&indexer), 0);
    indexer.evict(2, 7);
    assert_eq!(entries(&indexer), 0);
}

#[test]
fn updates_made_twice_change_nothing_more() {
    let mut indexer = ShardedBlockIndexer::new(4);
    indexer.register(1, 7);
    indexer.register(1, 7);
    assert_eq!(indexer.owners(7).iter_set_bits(), vec![1]);
    assert_eq!(entries(&indexer), 1);
    indexer.shutdown(1);
    indexer.shutdown(1);
    assert_eq!(indexer.alive().iter_set_bits(), vec![0, 2, 3]);
    indexer.cleanup_dead_pod(1);
    indexer.cleanup_dead_pod(1);
    assert_eq!(entries(&indexer), 0);
}

#[test]
fn eviction_undoes_registration() {
    let mut indexer = ShardedBlockIndexer::new(4);
    indexer.register(0, 7);
    indexer.register(1, 8);
    indexer.register(1, 7);
    indexer.evict(1, 7);
    assert_eq!(indexer.owners(7).iter_set_bits(), vec![0]);
    assert_eq!(indexer.owners(8).iter_set_bits(), vec![1]);
}

#[test]
fn pod_without_a_place_leaves_an_entry_without_owners() {
    let mut indexer = ShardedBlockIndexer::new(4);
    indexer.register(256, 7);
    assert!(indexer.owners(7).is_empty());
    assert_eq!(entries(&indexer), 1);
    indexer.cleanup_dead_pod(0);
    assert_eq!(entries(&indexer), 0);

    indexer.register(300, 9);
    indexer.evict(0, 9);
    assert_eq!(entries(&indexer), 0);
}

#[test]
fn shutdown_masks_and_cleanup_removes() {
    let mut indexer = ShardedBlockIndexer::new(3);
    for hash in 0..100 {
        indexer.register(0, hash);
        if hash % 2 == 0 {
            indexer.register(1, hash);
        }
    }
    indexer.shutdown(0);
    assert_eq!(indexer.owners(4).iter_set_bits(), vec![0, 1]);
    assert_eq!(indexer.owners_alive(4).iter_set_bits(), vec![1]);
    assert!(indexer.owners_alive(5).is_empty());
    assert_eq!(entries(&indexer), 100);

    indexer.cleanup_dead_pod(0);
    assert_eq!(indexer.owners(4).iter_set_bits(), vec![1]);
    assert_eq!(indexer.owners_alive(4).iter_set_bits(), vec![1]);
    assert_eq!(entries(&indexer), 50);
    assert_eq!(indexer.alive().iter_set_bits(), vec![1, 2]);
}

#[test]
fn dead_pods_stay_dead() {
    let mut indexer = ShardedBlockIndexer::new(2);
    indexer.shutdown(1);
    indexer.register(1, 5);
    assert_eq!(indexer.alive().iter_set_bits(), vec![0]);
    assert!(indexer.owners_alive(5).is_empty());
    assert_eq!(indexer.owners(5).iter_set_bits(), vec![1]);
}

#[test]
fn new_index_has_at_most_as_many_pods_as_a_bitmap() {
    assert!(ShardedBlockIndexer::new(0).alive().is_empty());
    assert_eq!(ShardedBlockIndexer::new(1000).alive().count_ones(), 256);
    let counts = ShardedBlockIndexer::new(1).shard_entry_counts();
    assert_eq!(counts, vec![0; 256]);
}

#[test]
fn entries_are_counted_in_their_shards() {
    let mut indexer = ShardedBlockIndexer::new(1);
    let hashes = [0u64, 1, 2, 42, u64::MAX];
    for hash in hashes {
        indexer.register(0, hash);
    }
    let counts = indexer.shard_entry_counts();
    assert_eq!(counts.len(), 256);
    for hash in hashes {
        assert_eq!(counts[shard_for(hash)], 1);
    }
    assert_eq!(counts.iter().sum::<usize>(), hashes.len());
}

#[test]
fn updates_of_different_blocks_commute() {
    let mut a = ShardedBlockIndexer::new(3);
    a.register(0, 1);
    a.register(1, 2);
    a.evict(0, 1);
    let mut b = ShardedBlockIndexer::new(3);
    b.register(1, 2);
    b.register(0, 1);
    b.evict(0, 1);
    for hash in 0..4 {
        assert_eq!(a.owners(hash), b.owners(hash));
    }
    assert_eq!(a.shard_entry_counts(), b.shard_entry_counts());
}

#[test]
fn updates_of_one_block_commute_among_pods() {
    let mut a = ShardedBlockIndexer::new(3);
    a.register(0, 1);
    a.register(1, 1);
    a.evict(0, 1);
    let mut b = ShardedBlockIndexer::new(3);
    b.register(0, 1);
    b.evict(0, 1);
    b.register(1, 1);
    assert_eq!(a.owners(1), b.owners(1));
    assert_eq!(a.shard_entry_counts(), b.shard_entry_counts());

    // A pod without a place leaves an entry behind in one order only.
    let mut c = ShardedBlockIndexer::new(3);
    c.register(256, 1);
    c.evict(0, 1);
    let mut d = ShardedBlockIndexer::new(3);
    d.evict(0, 1);
    d.register(256, 1);
    assert_eq!((entries(&c), entries(&d)), (0, 1));
}

#[test]
fn shutdown_commutes_with_other_updates() {
    let mut a = ShardedBlockIndexer::new(3);
    a.shutdown(1);
    a.register(1, 5);
    a.register(2, 5);
    a.evict(2, 5);
    let mut b = ShardedBlockIndexer::new(3);
    b.register(1, 5);
    b.register(2, 5);
    b.evict(2, 5);
    b.shutdown(1);
    assert_eq!(a.owners(5), b.owners(5));
    assert_eq!(a.owners_alive(5), b.owners_alive(5));
    assert_eq!(a.alive(), b.alive());
}

#[test]
fn depth_of_a_pod_depends_on_its_own_blocks() {
    let chain = [1u64, 2, 3];
    let mut quiet = ShardedBlockIndexer::new(3);
    quiet.register(1, 1);
    quiet.register(1, 2);
    let mut busy = ShardedBlockIndexer::new(3);
    for hash in [3u64, 2, 1, 99] {
        busy.register(0, hash);
        busy.register(2, hash);
    }
    busy.register(1, 1);
    busy.register(1, 2);
    busy.register(1, 98);
    busy.shutdown(2);
    let candidates = HostBitmap::full_for_count(3);
    let in_quiet = longest_prefix_lengths_for_candidates(&quiet, &chain, candidates);
    let in_busy = longest_prefix_lengths_for_candidates(&busy, &chain, candidates);
    assert_eq!(in_quiet[1], 2);
    assert_eq!(in_busy[1], 2);
    assert_eq!((in_busy[0], in_busy[2]), (3, 0));
}

#[test]
fn one_shard_keeps_its_own_entries() {
    let mut shard = Shard::new();
    shard.register(1, 10);
    shard.register(2, 10);
    shard.register(1, 11);
    assert_eq!(shard.len(), 2);
    assert_eq!(shard.owners(10).iter_set_bits(), vec![1, 2]);
    shard.cleanup_dead_pod(1);
    assert_eq!(shard.len(), 1);
    assert_eq!(shard.owners(10).iter_set_bits(), vec![2]);
    assert!(shard.owners(11).is_empty());
    shard.evict(2, 10);
    assert_eq!(shard.len(), 0);
}

#[test]
fn prefix_lengths_are_the_same_however_they_are_asked_for() {
    let chain = [10u64, 20, 30, 40, 50];
    let mut indexer = ShardedBlockIndexer::new(6);
    for pod in 0..6 {
        for hash in &chain[..pod.min(5)] {
            indexer.register(pod, *hash);
        }
    }
    let candidates = HostBitmap::full_for_count(6);
    let lengths = longest_prefix_lengths_for_candidates(&indexer, &chain, candidates);
    assert_eq!(lengths.len(), 256);
    assert_eq!(lengths[..7], [0, 1, 2, 3, 4, 5, 0]);

    let mut into = vec![77usize; 6];
    let mut stack = vec![SearchFrame {
        min_prefix_depth: 3,
        max_prefix_depth: 1,
        candidate_pods: candidates,
    }];
    longest_prefix_lengths_into(&indexer, &chain, candidates, &mut into, &mut stack);
    assert_eq!(into, lengths[..6]);
    assert!(stack.is_empty());

    let debug = longest_prefix_lengths_debug(&indexer, &chain, candidates);
    assert_eq!(debug.lengths, lengths);
    assert_eq!(debug.shard_lookups, 5);
    assert_eq!(debug.frames_processed, 11);
    assert_eq!(debug.bitmap_intersections, 11);
}

#[test]
fn prefix_lengths_of_an_empty_chain_are_zero() {
    let indexer = ShardedBlockIndexer::new(2);
    let candidates = HostBitmap::full_for_count(2);
    let debug = longest_prefix_lengths_debug(&indexer, &[], candidates);
    assert_eq!(debug.lengths, vec![0; 256]);
    assert_eq!(debug.shard_lookups, 0);
    assert_eq!(debug.frames_processed, 1);
    assert_eq!(debug.bitmap_intersections, 1);
}

#[test]
fn only_living_candidates_have_a_length() {
    let chain = [1u64, 2];
    let mut indexer = ShardedBlockIndexer::new(3);
    for pod in 0..4 {
        indexer.register(pod, 1);
        indexer.register(pod, 2);
    }
    indexer.shutdown(1);
    let mut candidates = HostBitmap::empty();
    candidates.set(0);
    candidates.set(1);
    candidates.set(3);
    let lengths = longest_prefix_lengths_for_candidates(&indexer, &chain, candidates);
    assert_eq!(lengths[..4], [2, 0, 0, 0]);
}

#[test]
fn bisection_trusts_the_blocks_that_it_probes() {
    // Pod 0 holds the second and third block of four only, and pod 1 the second only.
    let chain = [1u64, 2, 3, 4];
    let mut indexer = ShardedBlockIndexer::new(2);
    indexer.register(0, 2);
    indexer.register(0, 3);
    indexer.register(1, 2);
    let candidates = HostBitmap::full_for_count(2);
    let lengths = longest_prefix_lengths_for_candidates(&indexer, &chain, candidates);
    assert_eq!(lengths[..2], [3, 2]);
}

#[test]
fn frames_are_split_at_their_probe() {
    let mut owners = HostBitmap::empty();
    owners.set(1);
    owners.set(9);
    let frame = SearchFrame {
        min_prefix_depth: 2,
        max_prefix_depth: 7,
        candidate_pods: HostBitmap::full_for_count(3),
    };
    assert_eq!(frame.probe_prefix_depth(), 5);
    let (above, below) = frame.split(owners);
    assert_eq!(above.candidate_pods.iter_set_bits(), vec![1]);
    assert_eq!((above.min_prefix_depth, above.max_prefix_depth), (5, 7));
    assert_eq!(below.candidate_pods.iter_set_bits(), vec![0, 2]);
    assert_eq!((below.min_prefix_depth, below.max_prefix_depth), (2, 4));

    let huge = SearchFrame {
        min_prefix_depth: usize::MAX - 1,
        max_prefix_depth: usize::MAX,
        candidate_pods: owners,
    };
    assert_eq!(huge.probe_prefix_depth(), usize::MAX);
}

#[test]
fn index_comes_apart_into_its_shards() {
    let mut indexer = ShardedBlockIndexer::new(3);
    for hash in 0..50 {
        indexer.register((hash % 3) as usize, hash);
    }
    indexer.shutdown(2);
    let counts = indexer.shard_entry_counts();
    let (shards, alive) = indexer.into_shards();
    assert_eq!(alive.iter_set_bits(), vec![0, 1]);
    assert_eq!(shards.len(), 256);
    for (shard, count) in shards.iter().zip(counts) {
        assert_eq!(shard.len(), count);
    }
    for hash in 0..50 {
        let owners = shards[shard_for(hash)].owners(hash);
        assert_eq!(owners.iter_set_bits(), vec![(hash % 3) as usize]);
    }
}
