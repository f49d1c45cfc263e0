//! What the benchmarks count, sum up and do, apart from the queries.

use vstd::prelude::*;

use crate::bench_part2::{NaiveCounters, QueryCounters};
use crate::bitmap;
use crate::bitmap::{HostBitmap, MAX_PODS};
use crate::hash;
use crate::hash::BlockHash;
use crate::indexer;
use crate::indexer::SHARDS;
use crate::search;
use crate::seq_lemmas;

verus! {

/// The hashes of `chains` synthetic chains, one chain after the other.
pub open spec fn synthetic_hashes(chains: nat, blocks_per_chain: nat) -> Seq<BlockHash>
    decreases chains,
{
    if chains == 0 {
        seq![]
    } else {
        synthetic_hashes((chains - 1) as nat, blocks_per_chain) + hash::synthetic_chain(
            (chains - 1) as nat,
            blocks_per_chain,
        )
    }
}

/// How many of `hashes` the function `shard_of` puts into `shard`.
pub open spec fn shard_count(
    hashes: Seq<BlockHash>,
    shard_of: spec_fn(BlockHash) -> int,
    shard: int,
) -> nat
    decreases hashes.len(),
{
    if hashes.len() == 0 {
        0
    } else {
        shard_count(hashes.drop_last(), shard_of, shard) + if shard_of(hashes.last()) == shard {
            1nat
        } else {
            0nat
        }
    }
}

/// How many of `hashes` Fibonacci hashing puts into `shard`.
pub open spec fn fibonacci_count(hashes: Seq<BlockHash>, shard: int) -> nat {
    shard_count(hashes, |hash: BlockHash| indexer::fibonacci_shard(hash), shard)
}

/// How many of `hashes` their low bits put into `shard`.
pub open spec fn low_bits_count(hashes: Seq<BlockHash>, shard: int) -> nat {
    shard_count(hashes, |hash: BlockHash| indexer::low_bits_shard(hash), shard)
}

/// Whether the counts of a shard fit. They do where there are not absurdly many hashes.
pub open spec fn histograms_fit(chains: nat, blocks_per_chain: nat) -> bool {
    ||| chains * blocks_per_chain <= usize::MAX
    ||| forall|shard: int|
        {
            &&& #[trigger] fibonacci_count(synthetic_hashes(chains, blocks_per_chain), shard)
                <= usize::MAX
            &&& low_bits_count(synthetic_hashes(chains, blocks_per_chain), shard) <= usize::MAX
        }
}

/// How many hashes each shard gets, by the two ways to pick a shard.
#[derive(Clone, Debug)]
pub struct ShardHistograms {
    pub low_bits: Vec<usize>,
    pub fibonacci: Vec<usize>,
}

impl ShardHistograms {
    /// Whether these are the histograms of `chains` synthetic chains.
    pub open spec fn count(self, chains: nat, blocks_per_chain: nat) -> bool {
        &&& self.low_bits@.len() == SHARDS
        &&& self.fibonacci@.len() == SHARDS
        &&& forall|shard: int|
            0 <= shard < SHARDS ==> #[trigger] self.low_bits@[shard] == low_bits_count(
                synthetic_hashes(chains, blocks_per_chain),
                shard,
            )
        &&& forall|shard: int|
            0 <= shard < SHARDS ==> #[trigger] self.fibonacci@[shard] == fibonacci_count(
                synthetic_hashes(chains, blocks_per_chain),
                shard,
            )
    }
}

/// The counts of the first hashes are at most those of all hashes, which are at most their
/// number.
proof fn lemma_shard_count(
    hashes: Seq<BlockHash>,
    shard_of: spec_fn(BlockHash) -> int,
    shard: int,
    count: int,
)
    requires
        0 <= count <= hashes.len(),
    ensures
        shard_count(hashes.take(count), shard_of, shard) <= shard_count(hashes, shard_of, shard)
            <= hashes.len(),
    decreases hashes.len(),
{
    if hashes.len() == 0 {
        assert(hashes.take(count) =~= hashes);
    } else if count == hashes.len() {
        assert(hashes.take(count) =~= hashes);
        lemma_shard_count(hashes.drop_last(), shard_of, shard, count - 1);
    } else {
        lemma_shard_count(hashes.drop_last(), shard_of, shard, count);
        assert(hashes.drop_last().take(count) =~= hashes.take(count));
    }
}

/// The hashes of the first chains come first, and there are as many hashes as chains times
/// blocks.
proof fn lemma_synthetic_hashes(few: nat, chains: nat, blocks: nat)
    requires
        few <= chains,
    ensures
        synthetic_hashes(chains, blocks).len() == chains * blocks,
        synthetic_hashes(few, blocks).len() <= synthetic_hashes(chains, blocks).len(),
        synthetic_hashes(chains, blocks).take(synthetic_hashes(few, blocks).len() as int)
            == synthetic_hashes(few, blocks),
    decreases chains,
{
    let all = synthetic_hashes(chains, blocks);
    if chains > 0 {
        let before = (chains - 1) as nat;
        hash::lemma_synthetic_chain_len(before, blocks);
        if few < chains {
            lemma_synthetic_hashes(few, before, blocks);
            assert(all.take(synthetic_hashes(few, blocks).len() as int) =~= synthetic_hashes(
                before,
                blocks,
            ).take(synthetic_hashes(few, blocks).len() as int));
        } else {
            lemma_synthetic_hashes(before, before, blocks);
            assert(all.take(all.len() as int) =~= all);
        }
        assert((chains - 1) * blocks + blocks == chains * blocks) by (nonlinear_arith);
    } else {
        assert(all.take(0) =~= all);
        assert(0 * blocks == 0) by (nonlinear_arith);
    }
}

/// Counts how the hashes of some synthetic chains spread over the shards.
pub fn shard_histograms(chains: usize, blocks_per_chain: usize) -> (histograms: ShardHistograms)
    requires
        histograms_fit(chains as nat, blocks_per_chain as nat),
    ensures
        histograms.count(chains as nat, blocks_per_chain as nat),
{
    let mut low_bits: Vec<usize> = vec![0; SHARDS];
    let mut fibonacci: Vec<usize> = vec![0; SHARDS];
    let ghost blocks = blocks_per_chain as nat;
    let ghost all = synthetic_hashes(chains as nat, blocks);
    proof {
        lemma_synthetic_hashes(0, chains as nat, blocks);
        assert forall|shard: int| #[trigger] fibonacci_count(all, shard) <= usize::MAX
            && low_bits_count(all, shard) <= usize::MAX by {
            lemma_shard_count(all, |hash: BlockHash| indexer::fibonacci_shard(hash), shard, 0);
            lemma_shard_count(all, |hash: BlockHash| indexer::low_bits_shard(hash), shard, 0);
        }
    }
    let mut chain_id: usize = 0;
    while chain_id < chains
        invariant
            chain_id <= chains,
            blocks == blocks_per_chain,
            all == synthetic_hashes(chains as nat, blocks),
            forall|shard: int| #[trigger] fibonacci_count(all, shard) <= usize::MAX
                && low_bits_count(all, shard) <= usize::MAX,
            low_bits@.len() == SHARDS,
            fibonacci@.len() == SHARDS,
            forall|shard: int|
                0 <= shard < SHARDS ==> #[trigger] low_bits@[shard] == low_bits_count(
                    synthetic_hashes(chain_id as nat, blocks),
                    shard,
                ),
            forall|shard: int|
                0 <= shard < SHARDS ==> #[trigger] fibonacci@[shard] == fibonacci_count(
                    synthetic_hashes(chain_id as nat, blocks),
                    shard,
                ),
        decreases chains - chain_id,
    {
        let chain = hash::make_synthetic_chain(chain_id as u64, blocks_per_chain);
        let ghost before = synthetic_hashes(chain_id as nat, blocks);
        let ghost after = synthetic_hashes((chain_id + 1) as nat, blocks);
        proof {
            lemma_synthetic_hashes((chain_id + 1) as nat, chains as nat, blocks);
            assert(after == before + chain@);
            assert(before + chain@.take(0) =~= before);
        }
        let mut i: usize = 0;
        while i < chain.len()
            invariant
                i <= chain@.len(),
                after == before + chain@,
                after.len() <= all.len(),
                all.take(after.len() as int) == after,
                forall|shard: int| #[trigger] fibonacci_count(all, shard) <= usize::MAX
                    && low_bits_count(all, shard) <= usize::MAX,
                low_bits@.len() == SHARDS,
                fibonacci@.len() == SHARDS,
                forall|shard: int|
                    0 <= shard < SHARDS ==> #[trigger] low_bits@[shard] == low_bits_count(
                        before + chain@.take(i as int),
                        shard,
                    ),
                forall|shard: int|
                    0 <= shard < SHARDS ==> #[trigger] fibonacci@[shard] == fibonacci_count(
                        before + chain@.take(i as int),
                        shard,
                    ),
            decreases chain@.len() - i,
        {
            let hash: BlockHash = chain[i];
            let low: usize = indexer::shard_for_low_bits(hash);
            let fib: usize = indexer::shard_for_fibonacci(hash);
            proof {
                let next = before + chain@.take(i + 1);
                assert(next.drop_last() =~= before + chain@.take(i as int));
                assert(next.last() == hash);
                assert(all.take(next.len() as int) =~= next) by {
                    assert forall|k: int| 0 <= k < next.len() implies all[k] == next[k] by {
                        assert(after[k] == all.take(after.len() as int)[k]);
                    }
                }
                lemma_shard_count(
                    all,
                    |hash: BlockHash| indexer::fibonacci_shard(hash),
                    fib as int,
                    next.len() as int,
                );
                lemma_shard_count(
                    all,
                    |hash: BlockHash| indexer::low_bits_shard(hash),
                    low as int,
                    next.len() as int,
                );
                assert(fibonacci_count(all, fib as int) <= usize::MAX);
                assert(fibonacci_count(all, low as int) <= usize::MAX);
            }
            low_bits[low] = low_bits[low] + 1;
            fibonacci[fib] = fibonacci[fib] + 1;
            i = i + 1;
        }
        assert(before + chain@.take(chain@.len() as int) =~= after);
        chain_id = chain_id + 1;
    }
    ShardHistograms { low_bits, fibonacci }
}

/// The sum of `values`.
pub open spec fn sum(values: Seq<usize>) -> nat
    decreases values.len(),
{
    if values.len() == 0 {
        0
    } else {
        sum(values.drop_last()) + values.last() as nat
    }
}

/// The first values add up to no more than all of them.
proof fn lemma_sum_of_first(values: Seq<usize>, count: int)
    requires
        0 <= count <= values.len(),
    ensures
        sum(values.take(count)) <= sum(values),
    decreases values.len(),
{
    if count == values.len() {
        assert(values.take(count) =~= values);
    } else {
        lemma_sum_of_first(values.drop_last(), count);
        assert(values.drop_last().take(count) =~= values.take(count));
    }
}

/// How many of `hashes` the function `shard_of` puts into one of the first `first` shards.
spec fn count_in_first(
    hashes: Seq<BlockHash>,
    shard_of: spec_fn(BlockHash) -> int,
    first: nat,
) -> nat
    decreases first,
{
    if first == 0 {
        0
    } else {
        count_in_first(hashes, shard_of, (first - 1) as nat) + shard_count(
            hashes,
            shard_of,
            first - 1,
        )
    }
}

/// One more hash is counted in its own shard.
proof fn lemma_count_in_first(
    hashes: Seq<BlockHash>,
    shard_of: spec_fn(BlockHash) -> int,
    first: nat,
)
    requires
        forall|hash: BlockHash| 0 <= #[trigger] shard_of(hash),
    ensures
        hashes.len() == 0 ==> count_in_first(hashes, shard_of, first) == 0,
        hashes.len() > 0 ==> count_in_first(hashes, shard_of, first) == count_in_first(
            hashes.drop_last(),
            shard_of,
            first,
        ) + if shard_of(hashes.last()) < first {
            1nat
        } else {
            0nat
        },
    decreases first,
{
    if first > 0 {
        lemma_count_in_first(hashes, shard_of, (first - 1) as nat);
    }
}

/// Every hash is counted in one shard.
proof fn lemma_counted_once(
    hashes: Seq<BlockHash>,
    shard_of: spec_fn(BlockHash) -> int,
    shards: nat,
)
    requires
        forall|hash: BlockHash| 0 <= #[trigger] shard_of(hash) < shards,
    ensures
        count_in_first(hashes, shard_of, shards) == hashes.len(),
    decreases hashes.len(),
{
    lemma_count_in_first(hashes, shard_of, shards);
    if hashes.len() > 0 {
        lemma_counted_once(hashes.drop_last(), shard_of, shards);
    }
}

/// The first counts add up to the hashes in the first shards.
proof fn lemma_sum_of_counts(
    hashes: Seq<BlockHash>,
    shard_of: spec_fn(BlockHash) -> int,
    counts: Seq<usize>,
    first: int,
)
    requires
        0 <= first <= counts.len(),
        forall|shard: int|
            0 <= shard < counts.len() ==> #[trigger] counts[shard] == shard_count(
                hashes,
                shard_of,
                shard,
            ),
    ensures
        sum(counts.take(first)) == count_in_first(hashes, shard_of, first as nat),
    decreases first,
{
    if first > 0 {
        lemma_sum_of_counts(hashes, shard_of, counts, first - 1);
        assert(counts.take(first).drop_last() =~= counts.take(first - 1));
        assert(counts.take(first).last() == counts[first - 1]);
    }
}

/// Both histograms of some synthetic chains count each hash once.
pub proof fn lemma_histograms_count_each_hash(
    histograms: ShardHistograms,
    chains: nat,
    blocks_per_chain: nat,
)
    requires
        histograms.count(chains, blocks_per_chain),
    ensures
        sum(histograms.low_bits@) == chains * blocks_per_chain,
        sum(histograms.fibonacci@) == chains * blocks_per_chain,
{
    let hashes = synthetic_hashes(chains, blocks_per_chain);
    let low = |hash: BlockHash| indexer::low_bits_shard(hash);
    let fib = |hash: BlockHash| indexer::fibonacci_shard(hash);
    lemma_synthetic_hashes(chains, chains, blocks_per_chain);
    assert forall|hash: BlockHash| 0 <= #[trigger] fib(hash) < SHARDS by {
        indexer::lemma_fibonacci_shard(hash);
    }
    lemma_counted_once(hashes, low, SHARDS as nat);
    lemma_counted_once(hashes, fib, SHARDS as nat);
    lemma_sum_of_counts(hashes, low, histograms.low_bits@, SHARDS as int);
    lemma_sum_of_counts(hashes, fib, histograms.fibonacci@, SHARDS as int);
    assert(histograms.low_bits@.take(SHARDS as int) =~= histograms.low_bits@);
    assert(histograms.fibonacci@.take(SHARDS as int) =~= histograms.fibonacci@);
}

/// One more chain adds its own hashes to the histograms, each to its own shard, and without chains
/// nothing is counted.
pub proof fn lemma_histograms_grow_by_chain(
    fewer: ShardHistograms,
    more: ShardHistograms,
    chains: nat,
    blocks_per_chain: nat,
    shard: int,
)
    requires
        fewer.count(chains, blocks_per_chain),
        more.count(chains + 1, blocks_per_chain),
        0 <= shard < 256,
    ensures
        fewer.fibonacci@.len() == 256,
        fewer.low_bits@.len() == 256,
        chains == 0 ==> fewer.fibonacci@[shard] == 0 && fewer.low_bits@[shard] == 0,
        more.fibonacci@[shard] - fewer.fibonacci@[shard] == fibonacci_count(
            hash::synthetic_chain(chains, blocks_per_chain),
            shard,
        ),
        more.low_bits@[shard] - fewer.low_bits@[shard] == low_bits_count(
            hash::synthetic_chain(chains, blocks_per_chain),
            shard,
        ),
{
    let before = synthetic_hashes(chains, blocks_per_chain);
    let chain = hash::synthetic_chain(chains, blocks_per_chain);
    lemma_shard_counts(before, chain, 0, shard);
}

/// How many of `counts` are zero.
pub open spec fn zeros(counts: Seq<usize>) -> nat
    decreases counts.len(),
{
    if counts.len() == 0 {
        0
    } else {
        zeros(counts.drop_last()) + if counts.last() == 0 {
            1nat
        } else {
            0nat
        }
    }
}

/// How evenly some counts are spread, as far as whole numbers tell.
#[derive(Clone, Copy, Debug)]
pub struct ShardTally {
    pub total: usize,
    pub min: usize,
    pub max: usize,
    pub empty: usize,
    /// The last shard with the largest count.
    pub hottest_shard: usize,
}

impl ShardTally {
    /// Whether this is the tally of `counts`. Without counts it is all zeros.
    pub open spec fn tallies(self, counts: Seq<usize>) -> bool {
        &&& self.total == sum(counts)
        &&& self.empty == zeros(counts)
        &&& if counts.len() == 0 {
            self.min == 0 && self.max == 0 && self.hottest_shard == 0
        } else {
            &&& counts.contains(self.min)
            &&& forall|i: int| 0 <= i < counts.len() ==> self.min <= #[trigger] counts[i]
            &&& forall|i: int| 0 <= i < counts.len() ==> #[trigger] counts[i] <= self.max
            &&& self.hottest_shard < counts.len()
            &&& counts[self.hottest_shard as int] == self.max
            &&& forall|i: int|
                self.hottest_shard < i < counts.len() ==> #[trigger] counts[i] < self.max
        }
    }
}

/// Sums up how evenly `counts` are spread.
pub fn tally_shards(counts: &[usize]) -> (tally: ShardTally)
    requires
        sum(counts@) <= usize::MAX,
    ensures
        tally.tallies(counts@),
{
    let mut tally = ShardTally { total: 0, min: 0, max: 0, empty: 0, hottest_shard: 0 };
    let mut i: usize = 0;
    while i < counts.len()
        invariant
            i <= counts@.len(),
            sum(counts@) <= usize::MAX,
            tally.tallies(counts@.take(i as int)),
            tally.empty <= i,
        decreases counts@.len() - i,
    {
        let count: usize = counts[i];
        let ghost before = counts@.take(i as int);
        let ghost next = counts@.take(i + 1);
        proof {
            assert(next.drop_last() =~= before);
            assert(next.last() == count);
            lemma_sum_of_first(counts@, i + 1);
        }
        let ghost old_min = tally.min;
        tally.total = tally.total + count;
        if count == 0 {
            tally.empty = tally.empty + 1;
        }
        if i == 0 || count < tally.min {
            tally.min = count;
        }
        if i == 0 || count >= tally.max {
            tally.max = count;
            tally.hottest_shard = i;
        }
        proof {
            if tally.min == count {
                assert(next[i as int] == tally.min);
            } else {
                let k = choose|k: int| 0 <= k < before.len() && before[k] == old_min;
                assert(next[k] == tally.min);
            }
            assert forall|k: int| 0 <= k < next.len() implies tally.min <= #[trigger] next[k] by {
                if k < i {
                    assert(next[k] == before[k]);
                }
            }
            assert forall|k: int| 0 <= k < next.len() implies #[trigger] next[k] <= tally.max by {
                if k < i {
                    assert(next[k] == before[k]);
                }
            }
            assert forall|k: int| tally.hottest_shard < k < next.len() implies #[trigger] next[k]
                < tally.max by {
                if k < i {
                    assert(next[k] == before[k]);
                }
            }
        }
        i = i + 1;
    }
    assert(counts@.take(counts@.len() as int) =~= counts@);
    tally
}

/// The first `pods` of `depths`, or all where there are fewer.
pub open spec fn first_depths(depths: Seq<usize>, pods: nat) -> Seq<usize> {
    if pods < depths.len() {
        depths.take(pods as int)
    } else {
        depths
    }
}

/// The sum of the depths of the first `pods` pods.
pub fn depth_sum(depths: &[usize], pods: usize) -> (total: usize)
    requires
        sum(first_depths(depths@, pods as nat)) <= usize::MAX,
    ensures
        total == sum(first_depths(depths@, pods as nat)),
{
    let bound: usize = if pods < depths.len() {
        pods
    } else {
        depths.len()
    };
    let ghost taken = first_depths(depths@, pods as nat);
    assert(taken =~= depths@.take(bound as int));
    let mut total: usize = 0;
    let mut i: usize = 0;
    while i < bound
        invariant
            i <= bound <= depths@.len(),
            taken == depths@.take(bound as int),
            sum(taken) <= usize::MAX,
            total == sum(taken.take(i as int)),
        decreases bound - i,
    {
        proof {
            assert(taken.take(i + 1).drop_last() =~= taken.take(i as int));
            lemma_sum_of_first(taken, i + 1);
        }
        total = total + depths[i];
        i = i + 1;
    }
    assert(taken.take(bound as int) =~= taken);
    total
}

/// The candidates that were dead and have a depth all the same.
pub open spec fn dead_with_depth(
    candidates: Set<usize>,
    alive: Set<usize>,
    depths: Seq<usize>,
) -> Set<usize> {
    candidates.difference(alive).filter(|pod_id: usize| depths[pod_id as int] != 0)
}

/// Counts the candidates that were dead before a query and that it gave a depth all the same.
pub fn count_dead_depths(
    candidate_pods: HostBitmap,
    alive_before: HostBitmap,
    depths: &[usize],
) -> (count: usize)
    requires
        search::pods_fit(candidate_pods@.difference(alive_before@), depths@.len()),
    ensures
        count == dead_with_depth(candidate_pods@, alive_before@, depths@).len(),
{
    let dead = candidate_pods.minus(alive_before);
    let members = dead.iter_set_bits();
    let mut found = HostBitmap::empty();
    proof {
        bitmap::lemma_ascending(dead@);
        dead.lemma_members_fit();
    }
    let mut i: usize = 0;
    while i < members.len()
        invariant
            i <= members@.len(),
            search::pods_fit(dead@, depths@.len()),
            forall|pod_id: usize| #[trigger] members@.contains(pod_id) <==> dead@.contains(pod_id),
            forall|pod_id: usize| #[trigger] dead@.contains(pod_id) ==> pod_id < MAX_PODS,
            forall|pod_id: usize| #[trigger]
                found@.contains(pod_id) <==> members@.take(i as int).contains(pod_id)
                    && depths@[pod_id as int] != 0,
        decreases members@.len() - i,
    {
        let pod: usize = members[i];
        proof {
            assert(members@.contains(pod));
            seq_lemmas::lemma_take_contains(members@, i as int);
        }
        if depths[pod] != 0 {
            found.set(pod);
        }
        i = i + 1;
    }
    assert(members@.take(members@.len() as int) =~= members@);
    assert(found@ =~= dead_with_depth(candidate_pods@, alive_before@, depths@));
    found.count_ones()
}

/// Nobody is counted after a query that gave depths to living pods only, where no pod came to life
/// since the count of those that were alive before.
pub proof fn lemma_no_dead_depths(
    candidates: Set<usize>,
    alive_before: Set<usize>,
    alive: Set<usize>,
    depths: Seq<usize>,
)
    requires
        alive.subset_of(alive_before),
        search::pods_fit(candidates.difference(alive_before), depths.len()),
        forall|pod_id: int|
            0 <= pod_id < depths.len() && #[trigger] depths[pod_id] > 0 ==> alive.contains(
                pod_id as usize,
            ),
    ensures
        dead_with_depth(candidates, alive_before, depths).len() == 0,
{
    let found = dead_with_depth(candidates, alive_before, depths);
    assert forall|pod_id: usize| !(#[trigger] found.contains(pod_id)) by {
        if found.contains(pod_id) {
            assert(candidates.difference(alive_before).contains(pod_id));
            assert(depths[pod_id as int] > 0);
        }
    }
    assert(found =~= Set::<usize>::empty());
}

/// The sum of `a` and `b`, as far as it fits.
fn wrapping_sum(a: usize, b: usize) -> (total: usize)
    ensures
        total == (a + b) % (usize::MAX + 1),
{
    proof {
        let size = usize::MAX + 1;
        if a + b < size {
            vstd::arithmetic::div_mod::lemma_small_mod((a + b) as nat, size as nat);
        } else {
            vstd::arithmetic::div_mod::lemma_fundamental_div_mod_converse(
                a + b,
                size,
                1,
                a + b - size,
            );
        }
    }
    a.wrapping_add(b)
}

/// What a benchmark of the binary query has come to so far.
#[derive(Clone, Copy, Debug)]
pub struct QueryTotals {
    pub shard_lookups: usize,
    pub bitmap_intersections: usize,
    pub search_frames: usize,
    /// The sum of all depths, as far as it fits.
    pub checksum: usize,
}

impl QueryTotals {
    pub fn new() -> (totals: Self)
        ensures
            totals == (QueryTotals {
                shard_lookups: 0,
                bitmap_intersections: 0,
                search_frames: 0,
                checksum: 0,
            }),
    {
        Self { shard_lookups: 0, bitmap_intersections: 0, search_frames: 0, checksum: 0 }
    }

    /// The totals with one more query, whose depths add up to `depth_total`.
    pub open spec fn plus(self, counters: QueryCounters, depth_total: nat) -> Self {
        QueryTotals {
            shard_lookups: (self.shard_lookups + counters.shard_lookups) as usize,
            bitmap_intersections: (self.bitmap_intersections
                + counters.bitmap_intersections) as usize,
            search_frames: (self.search_frames + counters.search_frames) as usize,
            checksum: ((self.checksum + depth_total) % (usize::MAX + 1)) as usize,
        }
    }

    /// Takes in one query and the depths that it found for the first `pods` pods.
    pub fn record(&mut self, counters: QueryCounters, depths: &[usize], pods: usize)
        requires
            old(self).shard_lookups + counters.shard_lookups <= usize::MAX,
            old(self).bitmap_intersections + counters.bitmap_intersections <= usize::MAX,
            old(self).search_frames + counters.search_frames <= usize::MAX,
            sum(first_depths(depths@, pods as nat)) <= usize::MAX,
        ensures
            final(self).shard_lookups == old(self).shard_lookups + counters.shard_lookups,
            final(self).bitmap_intersections == old(self).bitmap_intersections
                + counters.bitmap_intersections,
            final(self).search_frames == old(self).search_frames + counters.search_frames,
            final(self).checksum == (old(self).checksum + sum(first_depths(depths@, pods as nat)))
                % (usize::MAX + 1),
            *final(self) == old(self).plus(counters, sum(first_depths(depths@, pods as nat))),
    {
        self.shard_lookups = self.shard_lookups + counters.shard_lookups;
        self.bitmap_intersections = self.bitmap_intersections + counters.bitmap_intersections;
        self.search_frames = self.search_frames + counters.search_frames;
        self.checksum = wrapping_sum(self.checksum, depth_sum(depths, pods));
    }
}

/// What a comparison of the two queries has come to so far.
#[derive(Clone, Copy, Debug)]
pub struct CompareTotals {
    pub binary_lookups: usize,
    pub naive_lookups: usize,
    pub naive_bit_tests: usize,
    /// The sum of all depths, as far as it fits.
    pub checksum: usize,
}

impl CompareTotals {
    pub fn new() -> (totals: Self)
        ensures
            totals == (CompareTotals {
                binary_lookups: 0,
                naive_lookups: 0,
                naive_bit_tests: 0,
                checksum: 0,
            }),
    {
        Self { binary_lookups: 0, naive_lookups: 0, naive_bit_tests: 0, checksum: 0 }
    }

    /// The totals with one more query of each kind, whose depths add up to `depth_total`.
    pub open spec fn plus(
        self,
        binary: QueryCounters,
        naive: NaiveCounters,
        depth_total: nat,
    ) -> Self {
        CompareTotals {
            binary_lookups: (self.binary_lookups + binary.shard_lookups) as usize,
            naive_lookups: (self.naive_lookups + naive.shard_lookups) as usize,
            naive_bit_tests: (self.naive_bit_tests + naive.pod_bit_tests) as usize,
            checksum: ((self.checksum + depth_total) % (usize::MAX + 1)) as usize,
        }
    }

    /// Takes in one query of each kind and the depths that they found for the first `pods` pods.
    pub fn record(
        &mut self,
        binary: QueryCounters,
        naive: NaiveCounters,
        depths: &[usize],
        pods: usize,
    )
        requires
            old(self).binary_lookups + binary.shard_lookups <= usize::MAX,
            old(self).naive_lookups + naive.shard_lookups <= usize::MAX,
            old(self).naive_bit_tests + naive.pod_bit_tests <= usize::MAX,
            sum(first_depths(depths@, pods as nat)) <= usize::MAX,
        ensures
            final(self).binary_lookups == old(self).binary_lookups + binary.shard_lookups,
            final(self).naive_lookups == old(self).naive_lookups + naive.shard_lookups,
            final(self).naive_bit_tests == old(self).naive_bit_tests + naive.pod_bit_tests,
            final(self).checksum == (old(self).checksum + sum(first_depths(depths@, pods as nat)))
                % (usize::MAX + 1),
            *final(self) == old(self).plus(
                binary,
                naive,
                sum(first_depths(depths@, pods as nat)),
            ),
    {
        self.binary_lookups = self.binary_lookups + binary.shard_lookups;
        self.naive_lookups = self.naive_lookups + naive.shard_lookups;
        self.naive_bit_tests = self.naive_bit_tests + naive.pod_bit_tests;
        self.checksum = wrapping_sum(self.checksum, depth_sum(depths, pods));
    }
}

/// What a reader of the concurrency benchmark has come to so far.
#[derive(Clone, Copy, Debug)]
pub struct ReaderTotals {
    /// How often a pod had a depth though it was dead before the query.
    pub dead_pods_returned: u64,
    pub checksum: u64,
}

impl ReaderTotals {
    pub fn new() -> (totals: Self)
        ensures
            totals == (ReaderTotals { dead_pods_returned: 0, checksum: 0 }),
    {
        Self { dead_pods_returned: 0, checksum: 0 }
    }

    /// The totals with one more query, whose depths add up to `depth_total`, and which gave a depth
    /// to `dead` dead pods.
    pub open spec fn plus(self, shard_lookups: usize, depth_total: nat, dead: nat) -> Self {
        ReaderTotals {
            dead_pods_returned: (self.dead_pods_returned + dead) as u64,
            checksum: ((self.checksum + ((depth_total as u64) ^ (shard_lookups as u64))) % (u64::MAX
                + 1)) as u64,
        }
    }

    /// Takes in one query, the pods that were alive before it, and the depths that it found.
    pub fn record(
        &mut self,
        shard_lookups: usize,
        depths: &[usize],
        pods: usize,
        candidate_pods: HostBitmap,
        alive_before: HostBitmap,
    )
        requires
            search::pods_fit(candidate_pods@.difference(alive_before@), depths@.len()),
            old(self).dead_pods_returned + dead_with_depth(
                candidate_pods@,
                alive_before@,
                depths@,
            ).len() <= u64::MAX,
            sum(first_depths(depths@, pods as nat)) <= usize::MAX,
        ensures
            final(self).dead_pods_returned == old(self).dead_pods_returned + dead_with_depth(
                candidate_pods@,
                alive_before@,
                depths@,
            ).len(),
            final(self).checksum == (old(self).checksum + ((sum(
                first_depths(depths@, pods as nat),
            ) as u64) ^ (shard_lookups as u64))) % (u64::MAX + 1),
            *final(self) == old(self).plus(
                shard_lookups,
                sum(first_depths(depths@, pods as nat)),
                dead_with_depth(candidate_pods@, alive_before@, depths@).len(),
            ),
    {
        let dead: usize = count_dead_depths(candidate_pods, alive_before, depths);
        self.dead_pods_returned = self.dead_pods_returned + dead as u64;
        self.checksum = self.checksum.wrapping_add(
            depth_sum(depths, pods) as u64 ^ shard_lookups as u64,
        );
    }
}

/// Each total grows by what the query came to. The checksum grows by the depths, and starts over at
/// zero where it no longer fits.
pub proof fn lemma_totals(
    totals: QueryTotals,
    compare: CompareTotals,
    binary: QueryCounters,
    naive: NaiveCounters,
    depth_total: nat,
)
    requires
        totals.shard_lookups + binary.shard_lookups <= usize::MAX,
        totals.bitmap_intersections + binary.bitmap_intersections <= usize::MAX,
        totals.search_frames + binary.search_frames <= usize::MAX,
        depth_total <= usize::MAX,
        compare.binary_lookups + binary.shard_lookups <= usize::MAX,
        compare.naive_lookups + naive.shard_lookups <= usize::MAX,
        compare.naive_bit_tests + naive.pod_bit_tests <= usize::MAX,
    ensures
        totals.plus(binary, depth_total).shard_lookups - totals.shard_lookups
            == binary.shard_lookups,
        totals.plus(binary, depth_total).bitmap_intersections - totals.bitmap_intersections
            == binary.bitmap_intersections,
        totals.plus(binary, depth_total).search_frames - totals.search_frames
            == binary.search_frames,
        totals.plus(binary, depth_total).checksum == totals.checksum + depth_total || (
        totals.checksum + depth_total > usize::MAX && totals.plus(binary, depth_total).checksum
            + usize::MAX + 1 == totals.checksum + depth_total),
        compare.plus(binary, naive, depth_total).binary_lookups - compare.binary_lookups
            == binary.shard_lookups,
        compare.plus(binary, naive, depth_total).naive_lookups - compare.naive_lookups
            == naive.shard_lookups,
        compare.plus(binary, naive, depth_total).naive_bit_tests - compare.naive_bit_tests
            == naive.pod_bit_tests,
        compare.plus(binary, naive, depth_total).checksum == compare.checksum + depth_total || (
        compare.checksum + depth_total > usize::MAX && compare.plus(
            binary,
            naive,
            depth_total,
        ).checksum + usize::MAX + 1 == compare.checksum + depth_total),
{
    lemma_start_over(totals.checksum + depth_total);
    lemma_start_over(compare.checksum + depth_total);
}

/// A reader counts each dead pod that was returned. The checksum grows by the depths mixed with the
/// lookups, and starts over at zero where it no longer fits: it grows by the depths alone where
/// there was no lookup, and by nothing where both are the same number.
pub proof fn lemma_reader_totals(
    totals: ReaderTotals,
    shard_lookups: usize,
    depth_total: nat,
    dead: nat,
)
    requires
        totals.dead_pods_returned + dead <= u64::MAX,
        depth_total <= u64::MAX,
    ensures
        totals.plus(shard_lookups, depth_total, dead).dead_pods_returned
            - totals.dead_pods_returned == dead,
        ({
            let mixed = (depth_total as u64) ^ (shard_lookups as u64);
            let checksum = totals.plus(shard_lookups, depth_total, dead).checksum;
            &&& totals.checksum + mixed <= u64::MAX ==> checksum == totals.checksum + mixed
            &&& totals.checksum + mixed > u64::MAX ==> checksum + u64::MAX + 1 == totals.checksum
                + mixed
            &&& shard_lookups == 0 ==> mixed == depth_total
            &&& shard_lookups == depth_total ==> mixed == 0
        }),
{
    let a = depth_total as u64;
    let b = shard_lookups as u64;
    let number = totals.checksum + (a ^ b);
    let size = u64::MAX + 1;
    assert(a ^ 0 == a) by (bit_vector);
    assert(a ^ a == 0) by (bit_vector);
    if number < size {
        vstd::arithmetic::div_mod::lemma_small_mod(number as nat, size as nat);
    } else {
        vstd::arithmetic::div_mod::lemma_fundamental_div_mod_converse(
            number,
            size,
            1,
            number - size,
        );
    }
}

/// How many different depths the pods have in the concurrency benchmark.
pub const CONCURRENCY_DROPOFFS: usize = 4;

/// An update of the index, as a writer of the concurrency benchmark makes them.
#[derive(Clone, Copy, Debug)]
pub struct WriterEvent {
    pub pod: usize,
    pub hash: BlockHash,
    /// Whether the pod evicts the block. Otherwise it registers it.
    pub evict: bool,
    /// Whether the pod shuts down afterwards.
    pub shutdown: bool,
}

/// The update with number `turn`.
pub open spec fn event_of_turn(turn: nat, query_chain: Seq<BlockHash>, pods: nat) -> WriterEvent {
    WriterEvent {
        pod: (turn % pods) as usize,
        hash: query_chain[(turn % query_chain.len()) as int],
        evict: turn % 3 == 1,
        shutdown: turn % 257 == 0,
    }
}

/// The updates go round: of three in a row the second is an eviction, every 257th shuts its pod
/// down, and the pods and the blocks come up one after the other.
pub proof fn lemma_updates_go_round(turn: nat, query_chain: Seq<BlockHash>, pods: nat, round: nat)
    requires
        query_chain.len() > 0,
        0 < pods <= usize::MAX,
    ensures
        event_of_turn(3 * round + 1, query_chain, pods).evict,
        !event_of_turn(3 * round, query_chain, pods).evict,
        !event_of_turn(3 * round + 2, query_chain, pods).evict,
        event_of_turn(257 * round, query_chain, pods).shutdown,
        turn < 256 ==> !event_of_turn(257 * round + turn + 1, query_chain, pods).shutdown,
        turn < pods ==> event_of_turn(turn + round * pods, query_chain, pods).pod == turn,
        turn < query_chain.len() ==> event_of_turn(
            turn + round * query_chain.len(),
            query_chain,
            pods,
        ).hash == query_chain[turn as int],
{
    let len = query_chain.len();
    if turn < pods {
        vstd::arithmetic::div_mod::lemma_fundamental_div_mod_converse(
            (turn + round * pods) as int,
            pods as int,
            round as int,
            turn as int,
        );
    }
    if turn < len {
        vstd::arithmetic::div_mod::lemma_fundamental_div_mod_converse(
            (turn + round * len) as int,
            len as int,
            round as int,
            turn as int,
        );
    }
}

/// The update with number `turn`: pods and blocks take turns, every third update is an eviction,
/// and a pod shuts down now and then.
pub fn writer_event(turn: usize, query_chain: &[BlockHash], pods: usize) -> (event: WriterEvent)
    requires
        query_chain@.len() > 0,
        pods > 0,
    ensures
        event.pod == turn as nat % pods as nat,
        event.hash == query_chain@[(turn as nat % query_chain@.len()) as int],
        event.evict == (turn % 3 == 1),
        event.shutdown == (turn % 257 == 0),
        event == event_of_turn(turn as nat, query_chain@, pods as nat),
{
    WriterEvent {
        pod: turn % pods,
        hash: query_chain[turn % query_chain.len()],
        evict: turn % 3 == 1,
        shutdown: turn % 257 == 0,
    }
}

/// The number of the update that a writer makes after `turn`.
pub open spec fn turn_after(turn: nat, writers: nat) -> nat {
    ((turn + if writers == 0 {
        1int
    } else {
        writers as int
    }) % (usize::MAX + 1)) as nat
}

/// The writers share the updates: each goes on by as many as there are writers, and one that is
/// alone or none of any by one, until the numbers start over at zero.
pub proof fn lemma_writers_share_updates(turn: nat, writers: nat)
    requires
        turn <= usize::MAX,
        writers <= usize::MAX,
    ensures
        writers > 0 && turn + writers <= usize::MAX ==> turn_after(turn, writers) == turn + writers,
        writers > 0 && turn + writers > usize::MAX ==> turn_after(turn, writers) + usize::MAX + 1
            == turn + writers,
        turn < usize::MAX ==> turn_after(turn, 0) == turn + 1,
        turn == usize::MAX ==> turn_after(turn, 0) == 0,
{
    lemma_start_over((turn + writers) as int);
    lemma_start_over((turn + 1) as int);
}

proof fn lemma_start_over(number: int)
    requires
        0 <= number <= 2 * usize::MAX,
    ensures
        number % (usize::MAX + 1) == if number <= usize::MAX {
            number
        } else {
            number - (usize::MAX + 1)
        },
{
    let size = usize::MAX + 1;
    if number < size {
        vstd::arithmetic::div_mod::lemma_small_mod(number as nat, size as nat);
    } else {
        vstd::arithmetic::div_mod::lemma_fundamental_div_mod_converse(
            number,
            size,
            1,
            number - size,
        );
    }
}

/// The number of the update that a writer makes after `turn`: `writers` writers take turns. The
/// numbers start over where they no longer fit.
pub fn next_turn(turn: usize, writers: usize) -> (next: usize)
    ensures
        next == (turn + if writers == 0 {
            1int
        } else {
            writers as int
        }) % (usize::MAX + 1),
        next == turn_after(turn as nat, writers as nat),
{
    if writers == 0 {
        wrapping_sum(turn, 1)
    } else {
        wrapping_sum(turn, writers)
    }
}

/// The chains with the ids below `chains` are all there, each once and one after the other: every
/// block has its own place among the hashes.
pub proof fn lemma_every_chain_is_there(chains: nat, blocks_per_chain: nat, chain_id: nat, i: nat)
    requires
        chain_id < chains,
        i < blocks_per_chain,
    ensures
        synthetic_hashes(chains, blocks_per_chain).len() == chains * blocks_per_chain,
        chain_id * blocks_per_chain + i < chains * blocks_per_chain,
        synthetic_hashes(chains, blocks_per_chain)[(chain_id * blocks_per_chain + i) as int]
            == hash::synthetic_chain(chain_id, blocks_per_chain)[i as int],
    decreases chains,
{
    let blocks = blocks_per_chain;
    let before = (chains - 1) as nat;
    let c = chain_id as int;
    lemma_synthetic_hashes(before, before, blocks);
    lemma_synthetic_hashes(chains, chains, blocks);
    hash::lemma_synthetic_chain_len(before, blocks);
    assert(c * blocks + blocks == (c + 1) * blocks && (c + 1) * blocks <= chains * blocks)
        by (nonlinear_arith)
        requires
            c + 1 <= chains,
    ;
    if chain_id < before {
        lemma_every_chain_is_there(before, blocks, chain_id, i);
    }
}

/// A shard counts the hashes that are in it: those of two sequences add up, and a single hash
/// counts one in its own shard and nothing in the others.
pub proof fn lemma_shard_counts(
    a: Seq<BlockHash>,
    b: Seq<BlockHash>,
    hash: BlockHash,
    shard: int,
)
    ensures
        fibonacci_count(a + b, shard) == fibonacci_count(a, shard) + fibonacci_count(b, shard),
        low_bits_count(a + b, shard) == low_bits_count(a, shard) + low_bits_count(b, shard),
        fibonacci_count(seq![hash], shard) == if indexer::fibonacci_shard(hash) == shard {
            1nat
        } else {
            0nat
        },
        low_bits_count(seq![hash], shard) == if hash as int % 256 == shard {
            1nat
        } else {
            0nat
        },
        fibonacci_count(Seq::empty(), shard) == 0,
        low_bits_count(Seq::empty(), shard) == 0,
{
    let low = |hash: BlockHash| indexer::low_bits_shard(hash);
    let fib = |hash: BlockHash| indexer::fibonacci_shard(hash);
    lemma_shard_count_adds(a, b, low, shard);
    lemma_shard_count_adds(a, b, fib, shard);
    reveal_with_fuel(shard_count, 2);
    assert(seq![hash].drop_last() =~= Seq::<BlockHash>::empty());
}

proof fn lemma_shard_count_adds(
    a: Seq<BlockHash>,
    b: Seq<BlockHash>,
    shard_of: spec_fn(BlockHash) -> int,
    shard: int,
)
    ensures
        shard_count(a + b, shard_of, shard) == shard_count(a, shard_of, shard) + shard_count(
            b,
            shard_of,
            shard,
        ),
    decreases b.len(),
{
    if b.len() == 0 {
        assert(a + b =~= a);
    } else {
        lemma_shard_count_adds(a, b.drop_last(), shard_of, shard);
        assert((a + b).drop_last() =~= a + b.drop_last());
    }
}

/// Sums add up, and so do the counts of zeros: one value counts by itself.
pub proof fn lemma_sums_add_up(a: Seq<usize>, b: Seq<usize>, value: usize)
    ensures
        sum(a + b) == sum(a) + sum(b),
        zeros(a + b) == zeros(a) + zeros(b),
        sum(seq![value]) == value,
        zeros(seq![value]) == if value == 0 {
            1nat
        } else {
            0nat
        },
        sum(Seq::<usize>::empty()) == 0,
        zeros(Seq::<usize>::empty()) == 0,
    decreases b.len(),
{
    reveal_with_fuel(sum, 2);
    reveal_with_fuel(zeros, 2);
    assert(seq![value].drop_last() =~= Seq::<usize>::empty());
    if b.len() == 0 {
        assert(a + b =~= a);
    } else {
        lemma_sums_add_up(a, b.drop_last(), value);
        assert((a + b).drop_last() =~= a + b.drop_last());
    }
}

/// In a tally the largest count is that of the hottest shard, no count is larger, and none behind
/// it is as large. No count is below the smallest, which some shard has.
pub proof fn lemma_tally(tally: ShardTally, counts: Seq<usize>, i: int)
    requires
        tally.tallies(counts),
        0 <= i < counts.len(),
    ensures
        tally.min <= counts[i] <= tally.max,
        tally.hottest_shard < counts.len(),
        counts[tally.hottest_shard as int] == tally.max,
        counts[i] == tally.max ==> i <= tally.hottest_shard,
        exists|k: int| 0 <= k < counts.len() && #[trigger] counts[k] == tally.min,
        tally.total == sum(counts),
        tally.empty == zeros(counts),
{
}

/// The depths that are summed up are those of the first pods, as far as there are depths.
pub proof fn lemma_first_depths(depths: Seq<usize>, pods: nat)
    ensures
        first_depths(depths, pods).len() <= pods,
        first_depths(depths, pods).len() <= depths.len(),
        first_depths(depths, pods).len() == pods || first_depths(depths, pods).len()
            == depths.len(),
        forall|i: int|
            0 <= i < first_depths(depths, pods).len() ==> #[trigger] first_depths(depths, pods)[i]
                == depths[i],
{
}

/// Who is counted as returned though dead: a candidate that was not alive and has a depth.
pub proof fn lemma_dead_with_depth(
    candidates: Set<usize>,
    alive: Set<usize>,
    depths: Seq<usize>,
    pod_id: usize,
)
    ensures
        dead_with_depth(candidates, alive, depths).contains(pod_id) <==> {
            &&& candidates.contains(pod_id)
            &&& !alive.contains(pod_id)
            &&& depths[pod_id as int] != 0
        },
{
}

} // verus!
