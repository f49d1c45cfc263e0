//! The workloads of the query benchmarks: a synthetic cache state, the grouped binary query, and
//! a naive query to hold it against.

use vstd::prelude::*;

use crate::bitmap;
use crate::bitmap::{HostBitmap, MAX_PODS};
use crate::hash;
use crate::hash::BlockHash;
use crate::indexer;
use crate::indexer::{IndexState, ShardedBlockIndexer};
use crate::laws;
use crate::search;
use crate::search::{OwnerSource, SearchFrame};
use crate::seq_lemmas;

verus! {

/// A cache state in which the pods drop off a chain at known depths.
pub struct SyntheticPart2State {
    pub indexer: ShardedBlockIndexer,
    pub query_chain: Vec<BlockHash>,
    pub expected_depths: Vec<usize>,
    pub candidate_pods: HostBitmap,
}

/// What the binary query came to, and the work that it took.
#[derive(Clone, Debug)]
pub struct PrefixQueryResult {
    pub depths: Vec<usize>,
    pub shard_lookups: usize,
    pub bitmap_intersections: usize,
    pub search_frames: usize,
}

/// What the naive query came to, and the work that it took.
#[derive(Clone, Debug)]
pub struct NaiveQueryResult {
    pub depths: Vec<usize>,
    pub shard_lookups: usize,
    pub pod_bit_tests: usize,
}

/// The work that a binary query took.
#[derive(Clone, Copy, Debug)]
pub struct QueryCounters {
    pub shard_lookups: usize,
    pub bitmap_intersections: usize,
    pub search_frames: usize,
}

/// The work that a naive query took.
#[derive(Clone, Copy, Debug)]
pub struct NaiveCounters {
    pub shard_lookups: usize,
    pub pod_bit_tests: usize,
}

/// How many groups of pods a binary query takes off its stack.
pub open spec fn query_frames(
    index: IndexState,
    chain: Seq<BlockHash>,
    candidates: Set<usize>,
) -> nat {
    search::searched_frames(
        search::chain_owners(index, chain),
        candidates.intersect(index.alive),
        true,
    )
}

/// The depth to which each candidate holds the prefixes of `query_chain`, by grouped bisection.
pub fn query_prefix_depths_binary(
    indexer: &ShardedBlockIndexer,
    query_chain: &[BlockHash],
    candidate_pods: HostBitmap,
) -> (result: PrefixQueryResult)
    requires
        indexer.wf(),
    ensures
        result.depths@.len() == MAX_PODS,
        forall|pod_id: int|
            0 <= pod_id < MAX_PODS ==> #[trigger] result.depths@[pod_id] == search::prefix_depth(
                indexer@,
                query_chain@,
                candidate_pods@,
                pod_id as usize,
            ),
        result.shard_lookups == search::prefix_probes(indexer@, query_chain@, candidate_pods@),
        result.bitmap_intersections == 1 + 2 * result.shard_lookups,
        result.search_frames == query_frames(indexer@, query_chain@, candidate_pods@),
{
    let mut depths: Vec<usize> = vec![0; MAX_PODS];
    let mut stack: Vec<SearchFrame> = Vec::with_capacity(
        query_chain.len().saturating_add(MAX_PODS),
    );
    proof {
        candidate_pods.lemma_members_fit();
    }
    let counters = query_prefix_depths_binary_into(
        indexer,
        query_chain,
        candidate_pods,
        &mut depths,
        &mut stack,
    );
    PrefixQueryResult {
        depths,
        shard_lookups: counters.shard_lookups,
        bitmap_intersections: counters.bitmap_intersections,
        search_frames: counters.search_frames,
    }
}

/// As [`query_prefix_depths_binary`], with the depths written into `depths`. `stack` is scratch
/// space.
pub fn query_prefix_depths_binary_into(
    indexer: &ShardedBlockIndexer,
    query_chain: &[BlockHash],
    candidate_pods: HostBitmap,
    depths: &mut [usize],
    stack: &mut Vec<SearchFrame>,
) -> (counters: QueryCounters)
    requires
        indexer.wf(),
        search::pods_fit(candidate_pods@.intersect(indexer@.alive), old(depths)@.len()),
    ensures
        final(stack)@.len() == 0,
        final(depths)@.len() == old(depths)@.len(),
        forall|pod_id: int|
            0 <= pod_id < final(depths)@.len() ==> #[trigger] final(depths)@[pod_id]
                == search::prefix_depth(
                indexer@,
                query_chain@,
                candidate_pods@,
                pod_id as usize,
            ),
        counters.shard_lookups == search::prefix_probes(indexer@, query_chain@, candidate_pods@),
        counters.bitmap_intersections == 1 + 2 * counters.shard_lookups,
        counters.search_frames == query_frames(indexer@, query_chain@, candidate_pods@),
{
    proof {
        search::lemma_index_is_source(indexer, query_chain@);
    }
    query_shared_depths_into(
        indexer,
        query_chain,
        candidate_pods,
        indexer.alive(),
        depths,
        stack,
    )
}

/// The binary query on an index that others may update meanwhile. `alive` are the pods that lived
/// when it began. In a steady index the depths and the work are those of grouped bisection.
/// Whatever happens to the index, nobody but these living candidates gets a depth, no depth is
/// beyond the chain, and the work is bounded.
pub fn query_shared_depths_into<S: OwnerSource>(
    source: &S,
    query_chain: &[BlockHash],
    candidate_pods: HostBitmap,
    alive: HostBitmap,
    depths: &mut [usize],
    stack: &mut Vec<SearchFrame>,
) -> (counters: QueryCounters)
    requires
        source.ready(),
        search::pods_fit(candidate_pods@.intersect(alive@), old(depths)@.len()),
    ensures
        final(stack)@.len() == 0,
        final(depths)@.len() == old(depths)@.len(),
        forall|pod_id: int|
            0 <= pod_id < final(depths)@.len() ==> {
                &&& #[trigger] final(depths)@[pod_id] <= query_chain@.len()
                &&& final(depths)@[pod_id] > 0 ==> candidate_pods@.contains(pod_id as usize)
                    && alive@.contains(pod_id as usize)
                &&& source.steady() ==> final(depths)@[pod_id] == search::searched_depth(
                    search::source_owners(source, query_chain@),
                    candidate_pods@.intersect(alive@),
                    pod_id as usize,
                )
            },
        source.steady() ==> {
            &&& counters.shard_lookups == search::probes(
                search::source_owners(source, query_chain@),
                candidate_pods@.intersect(alive@),
                0,
                query_chain@.len(),
            )
            &&& counters.search_frames == search::searched_frames(
                search::source_owners(source, query_chain@),
                candidate_pods@.intersect(alive@),
                true,
            )
        },
        counters.shard_lookups <= candidate_pods@.intersect(alive@).len()
            * search::binary_digits(query_chain@.len()),
        counters.bitmap_intersections == 1 + 2 * counters.shard_lookups,
        counters.search_frames <= 1 + 2 * counters.shard_lookups,
{
    let pods = candidate_pods.and(alive);
    let counts = search::search(source, query_chain, pods, depths, stack, true);
    QueryCounters {
        shard_lookups: counts.lookups,
        bitmap_intersections: 1 + 2 * counts.lookups,
        search_frames: counts.frames,
    }
}

/// How many of `members` own the first `block` blocks of the chain.
pub open spec fn still_matching(
    owners: Seq<Set<usize>>,
    members: Seq<usize>,
    block: nat,
) -> nat
    decreases members.len(),
{
    if members.len() == 0 {
        0
    } else {
        still_matching(owners, members.drop_last(), block) + if search::leading_run(
            owners,
            members.last(),
        ) >= block {
            1nat
        } else {
            0nat
        }
    }
}

/// How many tests of a pod against a block the naive query makes in the first `blocks` blocks:
/// at each block, one for every pod that owns all the blocks before it.
pub open spec fn naive_bit_tests(
    owners: Seq<Set<usize>>,
    members: Seq<usize>,
    blocks: nat,
) -> nat
    decreases blocks,
{
    if blocks == 0 {
        0
    } else {
        naive_bit_tests(owners, members, (blocks - 1) as nat) + still_matching(
            owners,
            members,
            (blocks - 1) as nat,
        )
    }
}

/// How many tests of a pod against a block the naive query makes.
pub open spec fn query_bit_tests(
    index: IndexState,
    chain: Seq<BlockHash>,
    candidates: Set<usize>,
) -> nat {
    naive_bit_tests(
        search::chain_owners(index, chain),
        bitmap::ascending(candidates.intersect(index.alive)),
        chain.len(),
    )
}

/// The depth that the naive query gives to `pod_id`: the leading run of a living candidate, and
/// zero for everybody else.
pub open spec fn naive_depth(
    index: IndexState,
    chain: Seq<BlockHash>,
    candidates: Set<usize>,
    pod_id: usize,
) -> nat {
    if candidates.contains(pod_id) && index.alive.contains(pod_id) {
        search::leading_run(search::chain_owners(index, chain), pod_id)
    } else {
        0
    }
}

/// Whether the count of the tests fits. It does where the chain is not absurdly long.
pub open spec fn bit_tests_fit(
    index: IndexState,
    chain: Seq<BlockHash>,
    candidates: Set<usize>,
) -> bool {
    ||| chain.len() * MAX_PODS <= usize::MAX
    ||| query_bit_tests(index, chain, candidates) <= usize::MAX
}

/// Fewer members match after more blocks, and a part of the members has no more matches.
proof fn lemma_still_matching(
    owners: Seq<Set<usize>>,
    members: Seq<usize>,
    count: int,
    block: nat,
)
    requires
        0 <= count <= members.len(),
    ensures
        still_matching(owners, members.take(count), block) <= still_matching(
            owners,
            members,
            block,
        ) <= members.len(),
    decreases members.len(),
{
    if members.len() > 0 {
        if count == members.len() {
            assert(members.take(count) =~= members);
            lemma_still_matching(owners, members.drop_last(), count - 1, block);
        } else {
            lemma_still_matching(owners, members.drop_last(), count, block);
            assert(members.drop_last().take(count) =~= members.take(count));
        }
    } else {
        assert(members.take(count) =~= members);
    }
}

/// The tests of the first blocks are among all tests, and there is one for each pod and block at
/// most.
proof fn lemma_naive_bit_tests(
    owners: Seq<Set<usize>>,
    members: Seq<usize>,
    few: nat,
    blocks: nat,
)
    requires
        few <= blocks,
    ensures
        naive_bit_tests(owners, members, few) <= naive_bit_tests(owners, members, blocks)
            <= blocks * members.len(),
    decreases blocks,
{
    if few < blocks {
        lemma_naive_bit_tests(owners, members, few, (blocks - 1) as nat);
    } else if blocks > 0 {
        lemma_naive_bit_tests(owners, members, (few - 1) as nat, (blocks - 1) as nat);
    }
    if blocks > 0 {
        lemma_still_matching(owners, members, 0, (blocks - 1) as nat);
    }
    let n = members.len() as int;
    let b = blocks as int;
    assert(b > 0 ==> (b - 1) * n + n == b * n) by (nonlinear_arith);
}

/// The naive query makes one test for each pod and each block at most.
pub proof fn lemma_query_bit_tests_bound(
    index: IndexState,
    chain: Seq<BlockHash>,
    candidates: HostBitmap,
)
    ensures
        query_bit_tests(index, chain, candidates@) <= chain.len() * MAX_PODS,
{
    let members = bitmap::ascending(candidates@.intersect(index.alive));
    bitmap::lemma_ascending(candidates@.intersect(index.alive));
    lemma_naive_bit_tests(search::chain_owners(index, chain), members, 0, chain.len());
    let n = members.len() as int;
    let b = chain.len() as int;
    assert(b * n <= b * 256) by (nonlinear_arith)
        requires
            0 <= n <= 256,
            b >= 0,
    ;
}

/// A pod owns the first `block` blocks just where its leading run is that long.
proof fn lemma_run_of_take(owners: Seq<Set<usize>>, pod_id: usize, block: int)
    requires
        0 <= block <= owners.len(),
    ensures
        search::leading_run(owners.take(block), pod_id) == if search::leading_run(owners, pod_id)
            <= block {
            search::leading_run(owners, pod_id)
        } else {
            block as nat
        },
{
    let run = search::leading_run(owners, pod_id);
    let part = owners.take(block);
    let depth = if run <= block {
        run
    } else {
        block as nat
    };
    search::lemma_leading_run(owners, pod_id);
    search::lemma_leading_run(part, pod_id);
    assert forall|k: int| 0 <= k < depth implies (#[trigger] part[k]).contains(pod_id) by {
        assert(owners[k].contains(pod_id));
    }
    search::lemma_longest_prefix_unique(
        part,
        pod_id,
        depth,
        search::leading_run(part, pod_id),
    );
}

/// The longest prefix of `query_chain` that each candidate holds, found block by block.
pub fn query_prefix_depths_naive(
    indexer: &ShardedBlockIndexer,
    query_chain: &[BlockHash],
    candidate_pods: HostBitmap,
) -> (result: NaiveQueryResult)
    requires
        indexer.wf(),
        bit_tests_fit(indexer@, query_chain@, candidate_pods@),
    ensures
        result.depths@.len() == MAX_PODS,
        forall|pod_id: int|
            0 <= pod_id < MAX_PODS ==> #[trigger] result.depths@[pod_id] == naive_depth(
                indexer@,
                query_chain@,
                candidate_pods@,
                pod_id as usize,
            ),
        result.shard_lookups == query_chain@.len(),
        result.pod_bit_tests == query_bit_tests(indexer@, query_chain@, candidate_pods@),
{
    let mut depths: Vec<usize> = vec![0; MAX_PODS];
    proof {
        candidate_pods.lemma_members_fit();
    }
    let counters = query_prefix_depths_naive_into(
        indexer,
        query_chain,
        candidate_pods,
        &mut depths,
    );
    NaiveQueryResult {
        depths,
        shard_lookups: counters.shard_lookups,
        pod_bit_tests: counters.pod_bit_tests,
    }
}

/// As [`query_prefix_depths_naive`], with the depths written into `depths`.
pub fn query_prefix_depths_naive_into(
    indexer: &ShardedBlockIndexer,
    query_chain: &[BlockHash],
    candidate_pods: HostBitmap,
    depths: &mut [usize],
) -> (counters: NaiveCounters)
    requires
        indexer.wf(),
        bit_tests_fit(indexer@, query_chain@, candidate_pods@),
        forall|pod_id: usize| #[trigger]
            naive_depth(indexer@, query_chain@, candidate_pods@, pod_id) > 0 ==> pod_id < old(
                depths,
            )@.len(),
    ensures
        final(depths)@.len() == old(depths)@.len(),
        forall|pod_id: int|
            0 <= pod_id < final(depths)@.len() ==> #[trigger] final(depths)@[pod_id]
                == naive_depth(indexer@, query_chain@, candidate_pods@, pod_id as usize),
        counters.shard_lookups == query_chain@.len(),
        counters.pod_bit_tests == query_bit_tests(indexer@, query_chain@, candidate_pods@),
{
    let alive_candidate_pods = candidate_pods.and(indexer.alive());
    let mut still_matching_pods = alive_candidate_pods;
    let mut counters = NaiveCounters { shard_lookups: 0, pod_bit_tests: 0 };
    let ghost owners = search::chain_owners(indexer@, query_chain@);
    let ghost pods = alive_candidate_pods@;
    let members = alive_candidate_pods.iter_set_bits();
    proof {
        lemma_query_bit_tests_bound(indexer@, query_chain@, candidate_pods);
        bitmap::lemma_ascending(pods);
        alive_candidate_pods.lemma_members_fit();
        assert(owners.take(0) =~= Seq::<Set<usize>>::empty());
    }
    search::clear_depths(depths);
    let mut block_index: usize = 0;
    while block_index < query_chain.len()
        invariant
            indexer.wf(),
            owners == search::chain_owners(indexer@, query_chain@),
            pods == candidate_pods@.intersect(indexer@.alive),
            members@ == bitmap::ascending(pods),
            forall|pod_id: usize| #[trigger] members@.contains(pod_id) <==> pods.contains(pod_id),
            forall|i: int, j: int| 0 <= i < j < members@.len() ==> members@[i] < members@[j],
            naive_bit_tests(owners, members@, owners.len()) <= usize::MAX,
            depths@.len() == old(depths)@.len(),
            forall|pod_id: usize| #[trigger]
                naive_depth(indexer@, query_chain@, candidate_pods@, pod_id) > 0 ==> pod_id < old(
                    depths,
                )@.len(),
            block_index <= query_chain@.len(),
            counters.shard_lookups == block_index,
            counters.pod_bit_tests == naive_bit_tests(owners, members@, block_index as nat),
            forall|pod_id: usize| #[trigger]
                still_matching_pods@.contains(pod_id) <==> pods.contains(pod_id)
                    && search::leading_run(owners, pod_id) >= block_index,
            forall|k: int|
                0 <= k < depths@.len() ==> #[trigger] depths@[k] == if pods.contains(k as usize) {
                    search::leading_run(owners.take(block_index as int), k as usize)
                } else {
                    0
                },
        decreases query_chain@.len() - block_index,
    {
        let pods_owning_block = indexer.owners_alive(query_chain[block_index]);
        counters.shard_lookups = counters.shard_lookups + 1;
        assert(pods_owning_block@ == owners[block_index as int]);
        let ghost tests_before = counters.pod_bit_tests;
        let ghost b = block_index as nat;
        let mut i: usize = 0;
        proof {
            lemma_naive_bit_tests(owners, members@, b + 1, owners.len());
            assert(members@.take(0) =~= Seq::<usize>::empty());
        }
        while i < members.len()
            invariant
                owners == search::chain_owners(indexer@, query_chain@),
                pods == candidate_pods@.intersect(indexer@.alive),
                block_index < query_chain@.len(),
                b == block_index,
                pods_owning_block@ == owners[block_index as int],
                forall|pod_id: usize| #[trigger]
                    members@.contains(pod_id) <==> pods.contains(pod_id),
                forall|i: int, j: int| 0 <= i < j < members@.len() ==> members@[i] < members@[j],
                depths@.len() == old(depths)@.len(),
                forall|pod_id: usize| #[trigger]
                    naive_depth(indexer@, query_chain@, candidate_pods@, pod_id) > 0 ==> pod_id
                        < old(depths)@.len(),
                i <= members@.len(),
                counters.shard_lookups == block_index + 1,
                tests_before + still_matching(owners, members@, b) <= usize::MAX,
                counters.pod_bit_tests == tests_before + still_matching(
                    owners,
                    members@.take(i as int),
                    b,
                ),
                forall|pod_id: usize| #[trigger]
                    still_matching_pods@.contains(pod_id) <==> pods.contains(pod_id)
                        && search::leading_run(owners, pod_id) >= (if members@.take(
                        i as int,
                    ).contains(pod_id) {
                        b + 1
                    } else {
                        b
                    }),
                forall|k: int|
                    0 <= k < depths@.len() ==> #[trigger] depths@[k] == if pods.contains(
                        k as usize,
                    ) {
                        search::leading_run(
                            owners.take(
                                if members@.take(i as int).contains(k as usize) {
                                    block_index + 1
                                } else {
                                    b as int
                                },
                            ),
                            k as usize,
                        )
                    } else {
                        0
                    },
            decreases members@.len() - i,
        {
            let pod: usize = members[i];
            proof {
                let done = members@.take(i as int);
                let next = members@.take(i + 1);
                assert(next.drop_last() =~= done);
                assert(next =~= done.push(pod));
                assert(members@.contains(pod));
                seq_lemmas::lemma_take_contains(members@, i as int);
                assert(!done.contains(pod));
                lemma_still_matching(owners, members@, i + 1, b);
                lemma_run_of_take(owners, pod, b as int);
                lemma_run_of_take(owners, pod, block_index + 1);
                search::lemma_leading_run(owners, pod);
                assert(naive_depth(indexer@, query_chain@, candidate_pods@, pod)
                    == search::leading_run(owners, pod));
                if search::leading_run(owners, pod) > b {
                    assert(owners[b as int].contains(pod));
                }
            }
            if still_matching_pods.contains(pod) {
                counters.pod_bit_tests = counters.pod_bit_tests + 1;
                if pods_owning_block.contains(pod) {
                    depths[pod] = block_index + 1;
                } else {
                    still_matching_pods.clear(pod);
                }
            }
            i = i + 1;
        }
        assert(members@.take(members@.len() as int) =~= members@);
        block_index = block_index + 1;
    }
    assert(owners.take(owners.len() as int) =~= owners);
    counters
}

/// `value`, or the bound that it is beyond.
pub open spec fn clamped(value: nat, low: nat, high: nat) -> nat {
    if value < low {
        low
    } else if value > high {
        high
    } else {
        value
    }
}

/// Brings a number of pods to between one and [`MAX_PODS`].
pub fn clamp_pods(pods: usize) -> (count: usize)
    ensures
        count == clamped(pods as nat, 1, MAX_PODS as nat),
{
    if pods < 1 {
        1
    } else if pods > MAX_PODS {
        MAX_PODS
    } else {
        pods
    }
}

/// The depth at which `pod_id` drops off in a synthetic state: the pods take turns at as many
/// depths as there are drop-offs, evenly spaced from the whole chain downwards.
pub open spec fn synthetic_depth(blocks: nat, dropoffs: nat, pod_id: nat) -> nat {
    if blocks == 0 {
        0
    } else {
        let distinct = clamped(dropoffs, 1, blocks);
        (blocks - (pod_id % distinct) * (blocks / distinct)) as nat
    }
}

/// The depths at which the pods of a synthetic state drop off.
pub open spec fn synthetic_limits(pods: nat, blocks: nat, dropoffs: nat) -> Seq<nat> {
    Seq::new(
        clamped(pods, 1, MAX_PODS as nat),
        |pod_id: int| synthetic_depth(blocks, dropoffs, pod_id as nat),
    )
}

impl SyntheticPart2State {
    /// Whether this is the synthetic state over `chain` whose pods drop off at `limits`.
    pub open spec fn is_built_from(&self, chain: Seq<BlockHash>, limits: Seq<nat>) -> bool {
        &&& self.indexer.wf()
        &&& self.query_chain@ == chain
        &&& self.indexer@.entries == indexer::held_entries(chain, limits)
        &&& self.indexer@.alive == bitmap::pods_below(limits.len())
        &&& self.candidate_pods@ == bitmap::pods_below(limits.len())
        &&& self.expected_depths@.len() == MAX_PODS
        &&& forall|pod_id: int|
            0 <= pod_id < MAX_PODS ==> #[trigger] self.expected_depths@[pod_id] == if pod_id
                < limits.len() {
                limits[pod_id]
            } else {
                0
            }
    }
}

/// The steps of a synthetic state stay within the chain.
proof fn lemma_synthetic_slot(blocks: nat, distinct: nat, slot: nat)
    requires
        0 < distinct <= blocks,
        slot < distinct,
    ensures
        slot * (blocks / distinct) < blocks,
        blocks / distinct >= 1,
{
    let step = (blocks / distinct) as int;
    vstd::arithmetic::div_mod::lemma_fundamental_div_mod(blocks as int, distinct as int);
    assert(step >= 1 && slot * step < blocks) by (nonlinear_arith)
        requires
            0 < distinct <= blocks,
            0 <= slot < distinct,
            blocks as int == distinct * step + blocks as int % distinct as int,
            0 <= blocks as int % (distinct as int) < distinct,
    ;
}

/// Builds a cache state over one chain of `blocks` blocks, of which the pods hold prefixes of
/// `dropoffs` different lengths.
pub fn build_synthetic_state(pods: usize, blocks: usize, dropoffs: usize) -> (state:
    SyntheticPart2State)
    ensures
        state.is_built_from(
            hash::synthetic_chain(0, blocks as nat),
            synthetic_limits(pods as nat, blocks as nat, dropoffs as nat),
        ),
{
    let pods: usize = clamp_pods(pods);
    let query_chain = hash::make_synthetic_chain(0, blocks);
    let mut indexer = ShardedBlockIndexer::new(pods);
    let mut expected_depths: Vec<usize> = vec![0; MAX_PODS];
    let mut candidate_pods = HostBitmap::empty();
    let distinct_depths: usize = if blocks == 0 {
        1
    } else if dropoffs < 1 {
        1
    } else if dropoffs > blocks {
        blocks
    } else {
        dropoffs
    };
    let step: usize = if blocks == 0 {
        0
    } else {
        blocks / distinct_depths
    };
    let ghost chain = query_chain@;
    let ghost limits = synthetic_limits(pods as nat, blocks as nat, dropoffs as nat);
    proof {
        assert(limits.take(0) =~= Seq::<nat>::empty());
        indexer::lemma_nothing_held(chain);
        assert(candidate_pods@ =~= bitmap::pods_below(0));
    }
    let mut pod: usize = 0;
    while pod < pods
        invariant
            1 <= pods <= MAX_PODS,
            pod <= pods,
            chain == query_chain@,
            chain.len() == blocks,
            limits == synthetic_limits(pods as nat, blocks as nat, dropoffs as nat),
            limits.len() == pods,
            blocks > 0 ==> {
                &&& distinct_depths == clamped(dropoffs as nat, 1, blocks as nat)
                &&& step == blocks as nat / distinct_depths as nat
            },
            distinct_depths > 0,
            indexer.wf(),
            indexer@.entries == indexer::held_entries(chain, limits.take(pod as int)),
            indexer@.alive == Set::new(|p: usize| p < pods && p < MAX_PODS),
            candidate_pods@ == bitmap::pods_below(pod as nat),
            expected_depths@.len() == MAX_PODS,
            forall|p: int|
                0 <= p < MAX_PODS ==> #[trigger] expected_depths@[p] == if p < pod {
                    limits[p]
                } else {
                    0
                },
        decreases pods - pod,
    {
        let slot: usize = pod % distinct_depths;
        proof {
            if blocks > 0 {
                lemma_synthetic_slot(blocks as nat, distinct_depths as nat, slot as nat);
            }
        }
        let depth: usize = if blocks == 0 {
            0
        } else {
            blocks - slot * step
        };
        assert(depth == limits[pod as int]);
        expected_depths[pod] = depth;
        candidate_pods.set(pod);
        assert(candidate_pods@ =~= bitmap::pods_below((pod + 1) as nat));
        let ghost held = limits.take(pod as int);
        proof {
            indexer::lemma_no_blocks(chain, held);
        }
        let mut k: usize = 0;
        while k < depth
            invariant
                pod < pods <= MAX_PODS,
                chain == query_chain@,
                depth <= chain.len(),
                k <= depth,
                held.len() == pod,
                indexer.wf(),
                indexer@.entries == indexer::held_entries(chain, held.push(k as nat)),
                indexer@.alive == Set::new(|p: usize| p < pods && p < MAX_PODS),
            decreases depth - k,
        {
            indexer.register(pod, query_chain[k]);
            proof {
                indexer::lemma_register_next(chain, held, pod, k as nat);
            }
            k = k + 1;
        }
        assert(limits.take(pod + 1) =~= held.push(depth as nat));
        pod = pod + 1;
    }
    assert(limits.take(pods as int) =~= limits);
    assert(indexer@.alive =~= bitmap::pods_below(limits.len()));
    SyntheticPart2State { indexer, query_chain, expected_depths, candidate_pods }
}

/// In a synthetic state over some blocks each pod holds the first of them at least, and no more
/// than there are.
pub proof fn lemma_synthetic_depth_bounds(blocks: nat, dropoffs: nat, pod_id: nat)
    requires
        blocks > 0,
    ensures
        1 <= synthetic_depth(blocks, dropoffs, pod_id) <= blocks,
{
    let distinct = clamped(dropoffs, 1, blocks);
    lemma_synthetic_slot(blocks, distinct, pod_id % distinct);
}

/// In a synthetic state two pods drop off at the same depth just where they have the same turn, so
/// there are as many different depths as drop-offs, or as blocks where these are fewer.
pub proof fn lemma_synthetic_depths_differ(blocks: nat, dropoffs: nat, a: nat, b: nat)
    requires
        blocks > 0,
    ensures
        synthetic_depth(blocks, dropoffs, a) == synthetic_depth(blocks, dropoffs, b) <==> a
            % clamped(dropoffs, 1, blocks) == b % clamped(dropoffs, 1, blocks),
{
    let distinct = clamped(dropoffs, 1, blocks);
    let step = (blocks / distinct) as int;
    let a_slot = (a % distinct) as int;
    let b_slot = (b % distinct) as int;
    lemma_synthetic_slot(blocks, distinct, a % distinct);
    lemma_synthetic_slot(blocks, distinct, b % distinct);
    assert(a_slot * step == b_slot * step <==> a_slot == b_slot) by (nonlinear_arith)
        requires
            step >= 1,
    ;
}

/// In a synthetic state both queries find the expected depth of each pod, if no hash of the prefix
/// that the pod holds comes up again behind it.
pub proof fn lemma_synthetic_state_depths(
    state: SyntheticPart2State,
    pods: nat,
    blocks: nat,
    dropoffs: nat,
    pod_id: usize,
)
    requires
        state.is_built_from(
            hash::synthetic_chain(0, blocks),
            synthetic_limits(pods, blocks, dropoffs),
        ),
        pod_id < MAX_PODS,
        forall|k: int|
            synthetic_depth(blocks, dropoffs, pod_id as nat) <= k < blocks
                ==> !state.query_chain@.take(
                synthetic_depth(blocks, dropoffs, pod_id as nat) as int,
            ).contains(#[trigger] state.query_chain@[k]),
    ensures
        search::prefix_depth(
            state.indexer@,
            state.query_chain@,
            state.candidate_pods@,
            pod_id,
        ) == state.expected_depths@[pod_id as int],
        naive_depth(state.indexer@, state.query_chain@, state.candidate_pods@, pod_id)
            == state.expected_depths@[pod_id as int],
{
    let limits = synthetic_limits(pods, blocks, dropoffs);
    hash::lemma_synthetic_chain_len(0, blocks);
    if pod_id < limits.len() {
        if blocks > 0 {
            lemma_synthetic_depth_bounds(blocks, dropoffs, pod_id as nat);
        }
        laws::lemma_queries_find_limits(
            state.indexer@,
            state.query_chain@,
            limits,
            state.candidate_pods@,
            pod_id,
        );
    }
}

/// How many tests all of `members` take part in within the first `blocks` blocks: each in one for
/// every block that it holds without a gap, and in one more where it drops off.
spec fn tests_of_members(owners: Seq<Set<usize>>, members: Seq<usize>, blocks: nat) -> nat
    decreases members.len(),
{
    if members.len() == 0 {
        0
    } else {
        tests_of_members(owners, members.drop_last(), blocks) + tests_of_member(
            owners,
            members.last(),
            blocks,
        )
    }
}

spec fn tests_of_member(owners: Seq<Set<usize>>, pod_id: usize, blocks: nat) -> nat {
    if search::leading_run(owners, pod_id) < blocks {
        search::leading_run(owners, pod_id) + 1
    } else {
        blocks
    }
}

/// The tests of one more block are those of the members that hold all blocks before it.
proof fn lemma_tests_of_next_block(owners: Seq<Set<usize>>, members: Seq<usize>, blocks: nat)
    ensures
        tests_of_members(owners, members, blocks + 1) == tests_of_members(owners, members, blocks)
            + still_matching(owners, members, blocks),
    decreases members.len(),
{
    if members.len() > 0 {
        lemma_tests_of_next_block(owners, members.drop_last(), blocks);
    }
}

/// Block by block and member by member the same tests are counted.
proof fn lemma_tests_by_member(owners: Seq<Set<usize>>, members: Seq<usize>, blocks: nat)
    ensures
        naive_bit_tests(owners, members, blocks) == tests_of_members(owners, members, blocks),
    decreases blocks,
{
    if blocks == 0 {
        lemma_no_tests(owners, members);
    } else {
        lemma_tests_by_member(owners, members, (blocks - 1) as nat);
        lemma_tests_of_next_block(owners, members, (blocks - 1) as nat);
    }
}

proof fn lemma_no_tests(owners: Seq<Set<usize>>, members: Seq<usize>)
    ensures
        tests_of_members(owners, members, 0) == 0,
    decreases members.len(),
{
    if members.len() > 0 {
        lemma_no_tests(owners, members.drop_last());
    }
}

/// The tests of two sets of pods that have nobody in common add up.
proof fn lemma_tests_add_up(
    owners: Seq<Set<usize>>,
    a: Set<usize>,
    b: Set<usize>,
    bound: nat,
    blocks: nat,
)
    requires
        a.disjoint(b),
        bound <= MAX_PODS,
    ensures
        tests_of_members(owners, bitmap::ascending_below(a.union(b), bound), blocks)
            == tests_of_members(owners, bitmap::ascending_below(a, bound), blocks)
            + tests_of_members(owners, bitmap::ascending_below(b, bound), blocks),
    decreases bound,
{
    if bound > 0 {
        let below = (bound - 1) as nat;
        let pod_id = below as usize;
        lemma_tests_add_up(owners, a, b, below, blocks);
        let in_a = bitmap::ascending_below(a, below);
        let in_b = bitmap::ascending_below(b, below);
        let in_both = bitmap::ascending_below(a.union(b), below);
        assert(in_a.push(pod_id).drop_last() =~= in_a);
        assert(in_b.push(pod_id).drop_last() =~= in_b);
        assert(in_both.push(pod_id).drop_last() =~= in_both);
        assert(!(a.contains(pod_id) && b.contains(pod_id)));
    }
}

/// The members of a set of one pod.
proof fn lemma_ascending_of_one(pod_id: usize, bound: nat)
    requires
        bound <= MAX_PODS,
    ensures
        bitmap::ascending_below(set![pod_id], bound) == if pod_id < bound {
            seq![pod_id]
        } else {
            Seq::<usize>::empty()
        },
    decreases bound,
{
    if bound > 0 {
        lemma_ascending_of_one(pod_id, (bound - 1) as nat);
        assert(Seq::<usize>::empty().push(pod_id) =~= seq![pod_id]);
    }
}

/// The naive query tests each living candidate against every block that it holds without a gap, and
/// against the block where it drops off, if there is one. Nobody else is tested, and the tests of
/// different candidates add up.
pub proof fn lemma_bit_tests(
    index: IndexState,
    chain: Seq<BlockHash>,
    a: Set<usize>,
    b: Set<usize>,
    pod_id: usize,
)
    requires
        a.disjoint(b),
        pod_id < 256,
    ensures
        query_bit_tests(index, chain, a.union(b)) == query_bit_tests(index, chain, a)
            + query_bit_tests(index, chain, b),
        query_bit_tests(index, chain, Set::empty()) == 0,
        !index.alive.contains(pod_id) ==> query_bit_tests(index, chain, set![pod_id]) == 0,
        index.alive.contains(pod_id) ==> {
            let depth = naive_depth(index, chain, set![pod_id], pod_id);
            &&& depth == chain.len() ==> query_bit_tests(index, chain, set![pod_id]) == depth
            &&& depth < chain.len() ==> query_bit_tests(index, chain, set![pod_id]) == depth + 1
        },
{
    let owners = search::chain_owners(index, chain);
    let alive = index.alive;
    let n = chain.len();
    let none = Set::<usize>::empty();
    lemma_tests_by_member(owners, bitmap::ascending(a.union(b).intersect(alive)), n);
    lemma_tests_by_member(owners, bitmap::ascending(a.intersect(alive)), n);
    lemma_tests_by_member(owners, bitmap::ascending(b.intersect(alive)), n);
    lemma_tests_by_member(owners, bitmap::ascending(set![pod_id].intersect(alive)), n);
    lemma_tests_by_member(owners, bitmap::ascending(none.intersect(alive)), n);
    assert(a.union(b).intersect(alive) =~= a.intersect(alive).union(b.intersect(alive)));
    lemma_tests_add_up(owners, a.intersect(alive), b.intersect(alive), MAX_PODS as nat, n);
    lemma_tests_add_up(owners, none, none, MAX_PODS as nat, n);
    assert(none.union(none) =~= none);
    assert(none.intersect(alive) =~= none);
    if index.alive.contains(pod_id) {
        assert(set![pod_id].intersect(alive) =~= set![pod_id]);
        lemma_ascending_of_one(pod_id, MAX_PODS as nat);
        assert(seq![pod_id].drop_last() =~= Seq::<usize>::empty());
        reveal_with_fuel(tests_of_members, 2);
        search::lemma_leading_run(owners, pod_id);
    } else {
        assert(set![pod_id].intersect(alive) =~= none);
    }
}

/// In a synthetic state the first pod holds all blocks. The pods that follow hold one step less
/// each, until there are as many different depths as there should be, and then it starts over. A
/// step is the largest number of blocks that can be taken off so often.
pub proof fn lemma_synthetic_depth_goes_in_steps(
    blocks: nat,
    dropoffs: nat,
    distinct: nat,
    step: nat,
    round: nat,
    slot: nat,
)
    requires
        blocks > 0,
        dropoffs == 0 ==> distinct == 1,
        1 <= dropoffs <= blocks ==> distinct == dropoffs,
        dropoffs > blocks ==> distinct == blocks,
        step * distinct <= blocks < (step + 1) * distinct,
        slot < distinct,
    ensures
        synthetic_depth(blocks, dropoffs, round * distinct + slot) + slot * step == blocks,
        synthetic_depth(0, dropoffs, round) == 0,
{
    let pod_id = (round * distinct + slot) as int;
    let d = distinct as int;
    let s = step as int;
    vstd::arithmetic::div_mod::lemma_fundamental_div_mod_converse(
        pod_id,
        d,
        round as int,
        slot as int,
    );
    assert(s * d <= blocks && blocks - s * d < d && blocks == s * d + (blocks - s * d))
        by (nonlinear_arith)
        requires
            s * d <= blocks < (s + 1) * d,
    ;
    vstd::arithmetic::div_mod::lemma_fundamental_div_mod_converse(
        blocks as int,
        d,
        s,
        blocks - s * d,
    );
    assert(blocks / distinct == step);
    assert(clamped(dropoffs, 1, blocks) == distinct);
    lemma_synthetic_slot(blocks, distinct, slot);
}

/// A synthetic state has as many pods as were asked for, as far as a bitmap has room for them and
/// one at least. They are alive and candidates, each is expected at its own depth, and each holds
/// just the blocks before that.
pub proof fn lemma_synthetic_state(
    state: SyntheticPart2State,
    pods: nat,
    blocks: nat,
    dropoffs: nat,
    pod_id: usize,
    hash: BlockHash,
)
    requires
        state.is_built_from(
            hash::synthetic_chain(0, blocks),
            synthetic_limits(pods, blocks, dropoffs),
        ),
        pod_id < 256,
    ensures
        state.query_chain@ == hash::synthetic_chain(0, blocks),
        state.query_chain@.len() == blocks,
        state.expected_depths@.len() == 256,
        state.candidate_pods@.contains(pod_id) <==> pod_id < pods || pod_id == 0,
        state.indexer@.alive.contains(pod_id) <==> pod_id < pods || pod_id == 0,
        pod_id < pods || pod_id == 0 ==> state.expected_depths@[pod_id as int] == synthetic_depth(
            blocks,
            dropoffs,
            pod_id as nat,
        ),
        !(pod_id < pods || pod_id == 0) ==> state.expected_depths@[pod_id as int] == 0,
        state.indexer@.owners(hash).contains(pod_id) <==> exists|k: int|
            0 <= k < state.expected_depths@[pod_id as int] && #[trigger] state.query_chain@[k]
                == hash,
{
    let chain = hash::synthetic_chain(0, blocks);
    let limits = synthetic_limits(pods, blocks, dropoffs);
    hash::lemma_synthetic_chain_len(0, blocks);
    if blocks > 0 {
        lemma_synthetic_depth_bounds(blocks, dropoffs, pod_id as nat);
    }
    indexer::lemma_held_owners(state.indexer@, chain, limits, hash, pod_id);
}

} // verus!
