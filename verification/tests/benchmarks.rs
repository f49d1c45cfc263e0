use cache_aware_routing::bench_part2::{
    build_synthetic_state, clamp_pods, query_prefix_depths_binary, query_prefix_depths_binary_into,
    query_prefix_depths_naive, query_prefix_depths_naive_into, query_shared_depths_into,
    NaiveCounters, QueryCounters,
};
use cache_aware_routing::bitmap::HostBitmap;
use cache_aware_routing::hash::{make_synthetic_chain, BlockHash};
use cache_aware_routing::indexer::{
    longest_prefix_lengths_debug, shard_for_fibonacci, shard_for_low_bits, ShardedBlockIndexer,
};
use cache_aware_routing::metrics::{percentile_index, summarize_ns};
use cache_aware_routing::search::OwnerSource;
use cache_aware_routing::workload::{
    count_dead_depths, depth_sum, next_turn, shard_histograms, tally_shards, writer_event,
    CompareTotals, QueryTotals, ReaderTotals,
};

#[test]
fn synthetic_depths_take_turns() {
    let state = build_synthetic_state(8, 8, 4);
    assert_eq!(state.expected_depths[..9], [8, 6, 4, 2, 8, 6, 4, 2, 0]);
    assert_eq!(state.expected_depths.len(), 256);
    assert_eq!(state.query_chain, make_synthetic_chain(0, 8));
    assert_eq!(state.candidate_pods, HostBitmap::full_for_count(8));
    assert_eq!(state.indexer.alive(), HostBitmap::full_for_count(8));
    assert_eq!(
        state.indexer.owners(state.query_chain[5]).iter_set_bits(),
        vec![0, 1, 4, 5]
    );
    assert_eq!(state.indexer.shard_entry_counts().iter().sum::<usize>(), 8);

    let uneven = build_synthetic_state(4, 10, 3);
    assert_eq!(uneven.expected_depths[..5], [10, 7, 4, 10, 0]);
    let many = build_synthetic_state(4, 3, 100);
    assert_eq!(many.expected_depths[..5], [3, 2, 1, 3, 0]);
    let none = build_synthetic_state(0, 2, 0);
    assert_eq!(none.expected_depths[..2], [2, 0]);
    let empty = build_synthetic_state(300, 0, 4);
    assert_eq!(empty.expected_depths, vec![0; 256]);
    assert_eq!(empty.candidate_pods.count_ones(), 256);
}

#[test]
fn pods_are_clamped_to_a_bitmap() {
    assert_eq!(clamp_pods(0), 1);
    assert_eq!(clamp_pods(1), 1);
    assert_eq!(clamp_pods(256), 256);
    assert_eq!(clamp_pods(257), 256);
}

#[test]
fn binary_query_counts_its_work() {
    let state = build_synthetic_state(8, 8, 4);
    let result =
        query_prefix_depths_binary(&state.indexer, &state.query_chain, state.candidate_pods);
    assert_eq!(result.depths, state.expected_depths);
    assert_eq!(result.shard_lookups, 7);
    assert_eq!(result.bitmap_intersections, 15);
    assert_eq!(result.search_frames, 11);

    let debug =
        longest_prefix_lengths_debug(&state.indexer, &state.query_chain, state.candidate_pods);
    assert_eq!(debug.lengths, state.expected_depths);
    assert_eq!(debug.shard_lookups, 7);
    assert_eq!(debug.frames_processed, 15);
    assert_eq!(debug.bitmap_intersections, 15);

    let state = build_synthetic_state(64, 32, 4);
    let result =
        query_prefix_depths_binary(&state.indexer, &state.query_chain, state.candidate_pods);
    assert_eq!(result.shard_lookups, 15);
    assert_eq!(result.bitmap_intersections, 31);
    assert_eq!(result.search_frames, 19);

    let nobody = query_prefix_depths_binary(
        &state.indexer,
        &state.query_chain,
        HostBitmap::empty(),
    );
    assert_eq!(nobody.depths, vec![0; 256]);
    assert_eq!(nobody.shard_lookups, 0);
    assert_eq!(nobody.bitmap_intersections, 1);
    assert_eq!(nobody.search_frames, 1);
}

#[test]
fn naive_query_counts_its_work() {
    let state = build_synthetic_state(8, 8, 4);
    let result =
        query_prefix_depths_naive(&state.indexer, &state.query_chain, state.candidate_pods);
    assert_eq!(result.depths, state.expected_depths);
    assert_eq!(result.shard_lookups, 8);
    assert_eq!(result.pod_bit_tests, 46);

    let state = build_synthetic_state(64, 32, 4);
    let result =
        query_prefix_depths_naive(&state.indexer, &state.query_chain, state.candidate_pods);
    assert_eq!(result.shard_lookups, 32);
    assert_eq!(result.pod_bit_tests, 1328);
}

#[test]
fn queries_write_into_short_buffers() {
    let state = build_synthetic_state(3, 4, 2);
    let mut depths = vec![99usize; 3];
    let mut stack = Vec::new();
    let counters = query_prefix_depths_binary_into(
        &state.indexer,
        &state.query_chain,
        state.candidate_pods,
        &mut depths,
        &mut stack,
    );
    assert_eq!(depths, vec![4, 2, 4]);
    assert!(stack.is_empty());
    assert_eq!(counters.bitmap_intersections, 1 + 2 * counters.shard_lookups);

    let mut depths = vec![99usize; 3];
    let counters = query_prefix_depths_naive_into(
        &state.indexer,
        &state.query_chain,
        state.candidate_pods,
        &mut depths,
    );
    assert_eq!(depths, vec![4, 2, 4]);
    assert_eq!(counters.shard_lookups, 4);
}

#[test]
fn naive_query_stops_at_the_first_gap() {
    let chain = [1u64, 2, 3, 4];
    let mut indexer = ShardedBlockIndexer::new(2);
    indexer.register(0, 1);
    indexer.register(0, 3);
    indexer.register(0, 4);
    indexer.register(1, 2);
    let result = query_prefix_depths_naive(&indexer, &chain, indexer.alive());
    assert_eq!(result.depths[..2], [1, 0]);
    assert_eq!(result.pod_bit_tests, 3);
}

#[test]
fn chain_that_repeats_a_hash_misleads_both_queries() {
    // The pod holds the first block of two, whose hash comes up again.
    let chain = [1u64, 1];
    let mut indexer = ShardedBlockIndexer::new(1);
    indexer.register(0, 1);
    let binary = query_prefix_depths_binary(&indexer, &chain, indexer.alive());
    let naive = query_prefix_depths_naive(&indexer, &chain, indexer.alive());
    assert_eq!(binary.depths[0], 2);
    assert_eq!(naive.depths[0], 2);
}

struct Fickle {
    lookups: std::cell::Cell<usize>,
}

impl OwnerSource for Fickle {
    fn look_up(&self, _hash: BlockHash) -> HostBitmap {
        self.lookups.set(self.lookups.get() + 1);
        if self.lookups.get() % 2 == 0 {
            HostBitmap::full_for_count(256)
        } else {
            HostBitmap::empty()
        }
    }
}

#[test]
fn query_keeps_to_its_pods_whatever_it_is_told() {
    let source = Fickle {
        lookups: std::cell::Cell::new(0),
    };
    let candidates = HostBitmap::full_for_count(9);
    let mut alive = HostBitmap::empty();
    alive.set(2);
    alive.set(5);
    alive.set(30);
    let chain = make_synthetic_chain(0, 9);
    let mut depths = vec![7usize; 256];
    let mut stack = Vec::new();
    let counters = query_shared_depths_into(
        &source,
        &chain,
        candidates,
        alive,
        &mut depths,
        &mut stack,
    );
    for (pod, depth) in depths.iter().enumerate() {
        assert!(*depth == 0 || pod == 2 || pod == 5);
        assert!(*depth <= 9);
    }
    assert!(stack.is_empty());
    assert_eq!(counters.shard_lookups, source.lookups.get());
    assert!(counters.shard_lookups <= 2 * 4);
    assert_eq!(counters.bitmap_intersections, 1 + 2 * counters.shard_lookups);
    assert_eq!(count_dead_depths(candidates, alive, &depths), 0);
}

#[test]
fn shared_query_on_a_quiet_index_is_the_binary_query() {
    let state = build_synthetic_state(64, 32, 4);
    let expected =
        query_prefix_depths_binary(&state.indexer, &state.query_chain, state.candidate_pods);
    let mut depths = vec![0usize; 256];
    let mut stack = Vec::new();
    let counters = query_shared_depths_into(
        &state.indexer,
        &state.query_chain,
        state.candidate_pods,
        state.indexer.alive(),
        &mut depths,
        &mut stack,
    );
    assert_eq!(depths, expected.depths);
    assert_eq!(counters.shard_lookups, expected.shard_lookups);
    assert_eq!(counters.search_frames, expected.search_frames);
}

#[test]
fn registration_deepens_and_eviction_shortens() {
    let mut state = build_synthetic_state(2, 6, 2);
    assert_eq!(state.expected_depths[..2], [6, 3]);
    let next = state.query_chain[3];
    state.indexer.register(1, next);
    let result =
        query_prefix_depths_binary(&state.indexer, &state.query_chain, state.candidate_pods);
    assert_eq!(result.depths[..2], [6, 4]);
    state.indexer.evict(1, next);
    state.indexer.evict(1, state.query_chain[2]);
    let result =
        query_prefix_depths_binary(&state.indexer, &state.query_chain, state.candidate_pods);
    assert_eq!(result.depths[..2], [6, 2]);
}

#[test]
fn binary_query_never_makes_more_lookups_than_there_are_blocks() {
    for (pods, blocks, dropoffs) in [(1, 1, 1), (5, 3, 9), (256, 40, 40), (256, 200, 7)] {
        let state = build_synthetic_state(pods, blocks, dropoffs);
        let result =
            query_prefix_depths_binary(&state.indexer, &state.query_chain, state.candidate_pods);
        assert!(result.shard_lookups <= blocks);
        let digits = (usize::BITS - blocks.leading_zeros()) as usize;
        assert!(result.shard_lookups <= pods * digits);
    }
}

#[test]
fn histograms_count_every_hash_by_its_shard() {
    let histograms = shard_histograms(10, 64);
    let mut low_bits = vec![0usize; 256];
    let mut fibonacci = vec![0usize; 256];
    for chain_id in 0..10 {
        for hash in make_synthetic_chain(chain_id, 64) {
            low_bits[shard_for_low_bits(hash)] += 1;
            fibonacci[shard_for_fibonacci(hash)] += 1;
        }
    }
    assert_eq!(histograms.low_bits, low_bits);
    assert_eq!(histograms.fibonacci, fibonacci);

    let low = tally_shards(&histograms.low_bits);
    assert_eq!(
        (low.total, low.min, low.max, low.empty, low.hottest_shard),
        (640, 0, 8, 20, 175)
    );
    let fib = tally_shards(&histograms.fibonacci);
    assert_eq!(
        (fib.total, fib.min, fib.max, fib.empty, fib.hottest_shard),
        (640, 0, 8, 21, 111)
    );

    assert_eq!(shard_histograms(0, 5).low_bits, vec![0; 256]);
    assert_eq!(shard_histograms(5, 0).fibonacci, vec![0; 256]);
}

#[test]
fn tally_finds_the_last_of_the_hottest_shards() {
    let tally = tally_shards(&[3, 7, 0, 7, 2, 0]);
    assert_eq!(
        (tally.total, tally.min, tally.max, tally.empty, tally.hottest_shard),
        (19, 0, 7, 2, 3)
    );
    let nothing = tally_shards(&[]);
    assert_eq!(
        (nothing.total, nothing.min, nothing.max, nothing.empty, nothing.hottest_shard),
        (0, 0, 0, 0, 0)
    );
    let zeros = tally_shards(&[0, 0]);
    assert_eq!((zeros.empty, zeros.hottest_shard), (2, 1));
    let even = tally_shards(&[4, 4]);
    assert_eq!((even.min, even.max, even.hottest_shard), (4, 4, 1));
}

#[test]
fn summary_sorts_its_samples() {
    let mut samples = vec![50u128, 10, 40, 30, 20];
    let stats = summarize_ns(&mut samples);
    assert_eq!(samples, vec![10, 20, 30, 40, 50]);
    assert_eq!(stats.count, 5);
    assert_eq!(stats.min_ns, 10);
    assert_eq!(stats.max_ns, 50);
    assert_eq!(stats.avg_ns, 30);
    assert_eq!(stats.p50_ns, 30);
    assert_eq!(stats.p95_ns, 50);
    assert_eq!(stats.p99_ns, 50);
}

#[test]
fn percentiles_of_two_hundred_samples() {
    let mut samples: Vec<u128> = (0..200).rev().map(|i| i * 10).collect();
    let stats = summarize_ns(&mut samples);
    assert_eq!(stats.p50_ns, 1000);
    assert_eq!(stats.p95_ns, 1900);
    assert_eq!(stats.p99_ns, 1980);
    assert_eq!(stats.max_ns, 1990);
    assert_eq!(stats.avg_ns, 995);
}

#[test]
fn summary_of_few_samples() {
    let stats = summarize_ns(&mut []);
    assert_eq!(
        (stats.count, stats.min_ns, stats.max_ns, stats.avg_ns, stats.p50_ns, stats.p99_ns),
        (0, 0, 0, 0, 0, 0)
    );
    let stats = summarize_ns(&mut [7]);
    assert_eq!(
        (stats.count, stats.min_ns, stats.max_ns, stats.avg_ns, stats.p50_ns, stats.p99_ns),
        (1, 7, 7, 7, 7, 7)
    );
    let stats = summarize_ns(&mut [4, 3]);
    assert_eq!((stats.avg_ns, stats.p50_ns), (3, 4));
}

#[test]
fn route_percentiles_go_from_first_to_last() {
    assert_eq!(percentile_index(1, 95), 0);
    assert_eq!(percentile_index(1000, 5), 49);
    assert_eq!(percentile_index(1000, 50), 499);
    assert_eq!(percentile_index(1000, 95), 949);
    assert_eq!(percentile_index(101, 100), 100);
}

#[test]
fn depths_of_the_first_pods_are_added_up() {
    assert_eq!(depth_sum(&[1, 2, 3, 4], 3), 6);
    assert_eq!(depth_sum(&[1, 2, 3, 4], 9), 10);
    assert_eq!(depth_sum(&[1, 2], 0), 0);
    assert_eq!(depth_sum(&[], 3), 0);
}

#[test]
fn dead_pods_with_a_depth_are_counted() {
    let candidates = HostBitmap::full_for_count(4);
    let mut alive = HostBitmap::empty();
    alive.set(1);
    alive.set(3);
    assert_eq!(count_dead_depths(candidates, alive, &[5, 5, 0, 5]), 1);
    assert_eq!(count_dead_depths(candidates, alive, &[5, 5, 2, 0]), 2);
    assert_eq!(count_dead_depths(candidates, candidates, &[5, 5, 2, 0]), 0);

    let mut state = build_synthetic_state(8, 8, 4);
    state.indexer.shutdown(0);
    let alive_before = state.indexer.alive();
    let result =
        query_prefix_depths_binary(&state.indexer, &state.query_chain, state.candidate_pods);
    assert_eq!(
        count_dead_depths(state.candidate_pods, alive_before, &result.depths),
        0
    );
}

#[test]
fn writers_register_evict_and_shut_down_in_turn() {
    let chain = [11u64, 22, 33, 44];
    let event = writer_event(0, &chain, 3);
    assert_eq!((event.pod, event.hash, event.evict, event.shutdown), (0, 11, false, true));
    let event = writer_event(1, &chain, 3);
    assert_eq!((event.pod, event.hash, event.evict, event.shutdown), (1, 22, true, false));
    let event = writer_event(5, &chain, 3);
    assert_eq!((event.pod, event.hash, event.evict, event.shutdown), (2, 22, false, false));
    let event = writer_event(257, &chain, 3);
    assert_eq!((event.pod, event.hash, event.evict, event.shutdown), (2, 22, false, true));
    let event = writer_event(514, &chain, 3);
    assert_eq!((event.pod, event.hash, event.evict, event.shutdown), (1, 33, true, true));
}

#[test]
fn writers_take_turns() {
    assert_eq!(next_turn(3, 2), 5);
    assert_eq!(next_turn(3, 0), 4);
    assert_eq!(next_turn(usize::MAX, 2), 1);
}

#[test]
fn query_totals_add_up() {
    let counters = QueryCounters {
        shard_lookups: 2,
        bitmap_intersections: 5,
        search_frames: 4,
    };
    let mut totals = QueryTotals::new();
    totals.record(counters, &[1, 2, 100], 2);
    totals.record(counters, &[1, 2, 100], 3);
    assert_eq!(totals.shard_lookups, 4);
    assert_eq!(totals.bitmap_intersections, 10);
    assert_eq!(totals.search_frames, 8);
    assert_eq!(totals.checksum, 106);

    totals.checksum = usize::MAX;
    totals.record(counters, &[1, 2], 2);
    assert_eq!(totals.checksum, 2);
}

#[test]
fn compare_totals_add_up() {
    let binary = QueryCounters {
        shard_lookups: 2,
        bitmap_intersections: 5,
        search_frames: 4,
    };
    let naive = NaiveCounters {
        shard_lookups: 8,
        pod_bit_tests: 46,
    };
    let mut totals = CompareTotals::new();
    totals.record(binary, naive, &[3, 4], 2);
    totals.record(binary, naive, &[3, 4], 1);
    assert_eq!(totals.binary_lookups, 4);
    assert_eq!(totals.naive_lookups, 16);
    assert_eq!(totals.naive_bit_tests, 92);
    assert_eq!(totals.checksum, 10);
}

#[test]
fn reader_totals_mix_depths_and_lookups() {
    let candidates = HostBitmap::full_for_count(3);
    let alive = HostBitmap::full_for_count(2);
    let mut totals = ReaderTotals::new();
    totals.record(6, &[1, 2, 0], 3, candidates, alive);
    assert_eq!(totals.dead_pods_returned, 0);
    assert_eq!(totals.checksum, 3 ^ 6);
    totals.record(1, &[1, 2, 9], 2, candidates, alive);
    assert_eq!(totals.dead_pods_returned, 1);
    assert_eq!(totals.checksum, (3 ^ 6) + (3 ^ 1));
}
