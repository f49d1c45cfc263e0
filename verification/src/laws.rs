//! What holds of the index and of its queries over several calls.

use vstd::prelude::*;

use crate::bench_part2;
use crate::bitmap::MAX_PODS;
use crate::hash;
use crate::hash::BlockHash;
use crate::indexer;
use crate::indexer::IndexState;
use crate::search;
use crate::shard;
use crate::text;
use crate::workload;

verus! {

/// A pod that registers a block holds it from then on, and nobody else gains or loses a block by
/// that. A pod without a place in a bitmap holds nothing.
pub proof fn lemma_register_owners(
    index: IndexState,
    pod_id: usize,
    hash: BlockHash,
    other_pod: usize,
    other_hash: BlockHash,
)
    ensures
        index.registered(pod_id, hash).owners(other_hash).contains(other_pod) <==> {
            ||| index.owners(other_hash).contains(other_pod)
            ||| other_pod == pod_id && other_hash == hash && pod_id < MAX_PODS
        },
        index.registered(pod_id, hash).alive == index.alive,
{
}

/// A pod that evicts a block no longer holds it, and nobody else gains or loses a block by that.
pub proof fn lemma_evict_owners(
    index: IndexState,
    pod_id: usize,
    hash: BlockHash,
    other_pod: usize,
    other_hash: BlockHash,
)
    ensures
        index.evicted(pod_id, hash).owners(other_hash).contains(other_pod) <==> {
            &&& index.owners(other_hash).contains(other_pod)
            &&& !(other_pod == pod_id && other_hash == hash)
        },
        index.evicted(pod_id, hash).alive == index.alive,
{
    let rest = index.owners(hash).remove(pod_id);
    if rest == Set::<usize>::empty() && other_pod != pod_id {
        assert(!rest.contains(other_pod));
    }
}

/// To shut a pod down takes it out of what is read as living owners, and changes nothing else:
/// its blocks stay on record.
pub proof fn lemma_shutdown_masks(index: IndexState, pod_id: usize, hash: BlockHash)
    ensures
        index.shut_down(pod_id).entries == index.entries,
        index.shut_down(pod_id).owners(hash) == index.owners(hash),
        index.shut_down(pod_id).owners_alive(hash) == index.owners_alive(hash).remove(pod_id),
        index.shut_down(pod_id).alive == index.alive.remove(pod_id),
{
    assert(index.shut_down(pod_id).owners_alive(hash) =~= index.owners_alive(hash).remove(
        pod_id,
    ));
}

/// To clean up after a pod takes every block from it, and none from anybody else.
pub proof fn lemma_cleanup_owners(index: IndexState, pod_id: usize, hash: BlockHash)
    ensures
        index.cleaned(pod_id).owners(hash) == index.owners(hash).remove(pod_id),
        index.cleaned(pod_id).alive == index.alive,
{
    assert(index.cleaned(pod_id).owners(hash) =~= index.owners(hash).remove(pod_id));
}

/// To clean up after a dead pod is not to be seen in what is read as living owners.
pub proof fn lemma_cleanup_after_shutdown(index: IndexState, pod_id: usize, hash: BlockHash)
    requires
        !index.alive.contains(pod_id),
    ensures
        index.cleaned(pod_id).owners_alive(hash) == index.owners_alive(hash),
{
    lemma_cleanup_owners(index, pod_id, hash);
    assert(index.cleaned(pod_id).owners_alive(hash) =~= index.owners_alive(hash));
}

/// Nothing is different where the same update is made twice.
pub proof fn lemma_updates_idempotent(index: IndexState, pod_id: usize, hash: BlockHash)
    ensures
        index.registered(pod_id, hash).registered(pod_id, hash) == index.registered(pod_id, hash),
        index.evicted(pod_id, hash).evicted(pod_id, hash) == index.evicted(pod_id, hash),
        index.shut_down(pod_id).shut_down(pod_id) == index.shut_down(pod_id),
        index.cleaned(pod_id).cleaned(pod_id) == index.cleaned(pod_id),
{
    let registered = index.registered(pod_id, hash);
    assert(registered.owners(hash) =~= shard::add_pod(registered.owners(hash), pod_id));
    assert(registered.registered(pod_id, hash) =~= registered);
    let evicted = index.evicted(pod_id, hash);
    assert(evicted.owners(hash).remove(pod_id) =~= evicted.owners(hash));
    assert(evicted.evicted(pod_id, hash) =~= evicted);
    assert(index.shut_down(pod_id).shut_down(pod_id) =~= index.shut_down(pod_id));
    let cleaned = index.cleaned(pod_id);
    assert forall|other: BlockHash| #[trigger] cleaned.entries.contains_key(other) implies
        cleaned.entries[other].remove(pod_id) == cleaned.entries[other] by {
        assert(cleaned.entries[other].remove(pod_id) =~= cleaned.entries[other]);
    }
    assert(cleaned.cleaned(pod_id) =~= cleaned);
}

/// To evict a block right after it was registered gives back who held what before.
pub proof fn lemma_evict_undoes_register(
    index: IndexState,
    pod_id: usize,
    hash: BlockHash,
    other_hash: BlockHash,
)
    requires
        !index.owners(hash).contains(pod_id),
    ensures
        index.registered(pod_id, hash).evicted(pod_id, hash).owners(other_hash) == index.owners(
            other_hash,
        ),
{
    let after = index.registered(pod_id, hash).evicted(pod_id, hash);
    assert forall|other_pod: usize| #[trigger]
        after.owners(other_hash).contains(other_pod) <==> index.owners(other_hash).contains(
            other_pod,
        ) by {
        lemma_register_owners(index, pod_id, hash, other_pod, other_hash);
        lemma_evict_owners(
            index.registered(pod_id, hash),
            pod_id,
            hash,
            other_pod,
            other_hash,
        );
    }
    assert(after.owners(other_hash) =~= index.owners(other_hash));
}

/// Registrations can be made in any order.
pub proof fn lemma_registrations_commute(
    index: IndexState,
    pod_a: usize,
    hash_a: BlockHash,
    pod_b: usize,
    hash_b: BlockHash,
)
    ensures
        index.registered(pod_a, hash_a).registered(pod_b, hash_b) == index.registered(
            pod_b,
            hash_b,
        ).registered(pod_a, hash_a),
{
    let owners = index.owners(hash_a);
    assert(shard::add_pod(shard::add_pod(owners, pod_a), pod_b) =~= shard::add_pod(
        shard::add_pod(owners, pod_b),
        pod_a,
    ));
    assert(index.registered(pod_a, hash_a).registered(pod_b, hash_b) =~= index.registered(
        pod_b,
        hash_b,
    ).registered(pod_a, hash_a));
}

/// Evictions can be made in any order.
pub proof fn lemma_evictions_commute(
    index: IndexState,
    pod_a: usize,
    hash_a: BlockHash,
    pod_b: usize,
    hash_b: BlockHash,
)
    ensures
        index.evicted(pod_a, hash_a).evicted(pod_b, hash_b) == index.evicted(
            pod_b,
            hash_b,
        ).evicted(pod_a, hash_a),
{
    let owners = index.owners(hash_a);
    assert(owners.remove(pod_a).remove(pod_b) =~= owners.remove(pod_b).remove(pod_a));
    assert(owners.remove(pod_a) == Set::<usize>::empty() ==> owners.remove(pod_b).remove(pod_a)
        =~= Set::<usize>::empty());
    assert(owners.remove(pod_b) == Set::<usize>::empty() ==> owners.remove(pod_a).remove(pod_b)
        =~= Set::<usize>::empty());
    assert(index.evicted(pod_a, hash_a).evicted(pod_b, hash_b) =~= index.evicted(
        pod_b,
        hash_b,
    ).evicted(pod_a, hash_a));
}

/// A registration and an eviction can be made in either order, unless it is the same pod that
/// registers and evicts the same block, or a pod without a place in a bitmap registers a block
/// that nobody is left to hold.
pub proof fn lemma_registration_and_eviction_commute(
    index: IndexState,
    pod_a: usize,
    hash_a: BlockHash,
    pod_b: usize,
    hash_b: BlockHash,
)
    requires
        hash_a == hash_b ==> if pod_a < MAX_PODS {
            pod_a != pod_b
        } else {
            index.owners(hash_b).remove(pod_b) != Set::<usize>::empty()
        },
    ensures
        index.registered(pod_a, hash_a).evicted(pod_b, hash_b) == index.evicted(
            pod_b,
            hash_b,
        ).registered(pod_a, hash_a),
{
    if hash_a == hash_b && pod_a < MAX_PODS {
        let owners = index.owners(hash_a);
        let rest = owners.remove(pod_b);
        assert(owners.insert(pod_a).remove(pod_b) =~= rest.insert(pod_a));
        assert(rest.insert(pod_a).contains(pod_a));
    }
    assert(Set::<usize>::empty().remove(pod_b) =~= Set::<usize>::empty());
    assert(index.registered(pod_a, hash_a).evicted(pod_b, hash_b) =~= index.evicted(
        pod_b,
        hash_b,
    ).registered(pod_a, hash_a));
}

/// A shutdown can be made before or after any other update.
pub proof fn lemma_shutdown_commutes(
    index: IndexState,
    dead_pod: usize,
    pod_id: usize,
    hash: BlockHash,
)
    ensures
        index.shut_down(dead_pod).registered(pod_id, hash) == index.registered(
            pod_id,
            hash,
        ).shut_down(dead_pod),
        index.shut_down(dead_pod).evicted(pod_id, hash) == index.evicted(pod_id, hash).shut_down(
            dead_pod,
        ),
        index.shut_down(dead_pod).cleaned(pod_id) == index.cleaned(pod_id).shut_down(dead_pod),
{
}

/// No update brings a pod back to life.
pub proof fn lemma_dead_pods_stay_dead(
    index: IndexState,
    dead_pod: usize,
    pod_id: usize,
    hash: BlockHash,
)
    requires
        !index.alive.contains(dead_pod),
    ensures
        !index.registered(pod_id, hash).alive.contains(dead_pod),
        !index.evicted(pod_id, hash).alive.contains(dead_pod),
        !index.shut_down(pod_id).alive.contains(dead_pod),
        !index.cleaned(pod_id).alive.contains(dead_pod),
{
}

/// Whether every entry has an owner.
pub open spec fn every_entry_owned(index: IndexState) -> bool {
    forall|hash: BlockHash| #[trigger]
        index.entries.contains_key(hash) ==> index.entries[hash] != Set::<usize>::empty()
}

/// As long as only pods register that have a place in a bitmap, every entry has an owner.
pub proof fn lemma_every_entry_owned(index: IndexState, pod_id: usize, hash: BlockHash)
    requires
        every_entry_owned(index),
    ensures
        pod_id < MAX_PODS ==> every_entry_owned(index.registered(pod_id, hash)),
        every_entry_owned(index.evicted(pod_id, hash)),
        every_entry_owned(index.shut_down(pod_id)),
        every_entry_owned(index.cleaned(pod_id)),
{
    if pod_id < MAX_PODS {
        assert(index.owners(hash).insert(pod_id).contains(pod_id));
    }
}

/// A pod that is dead, or that is no candidate, has depth zero in both queries.
pub proof fn lemma_dead_pods_have_no_depth(
    index: IndexState,
    chain: Seq<BlockHash>,
    candidates: Set<usize>,
    pod_id: usize,
)
    requires
        !index.alive.contains(pod_id) || !candidates.contains(pod_id),
    ensures
        search::prefix_depth(index, chain, candidates, pod_id) == 0,
        bench_part2::naive_depth(index, chain, candidates, pod_id) == 0,
{
}

/// Bisection for a pod looks at the blocks of that pod only.
proof fn lemma_bisected_same(
    a: Seq<Set<usize>>,
    b: Seq<Set<usize>>,
    pod_id: usize,
    low: nat,
    high: nat,
)
    requires
        low <= high <= a.len(),
        a.len() == b.len(),
        forall|k: int|
            0 <= k < a.len() ==> (#[trigger] a[k]).contains(pod_id) == b[k].contains(pod_id),
    ensures
        search::bisected_depth(a, pod_id, low, high) == search::bisected_depth(
            b,
            pod_id,
            low,
            high,
        ),
    decreases high - low,
{
    if low < high {
        let probe = (low + high + 1) / 2;
        assert(a[probe - 1].contains(pod_id) == b[probe - 1].contains(pod_id));
        if a[probe - 1].contains(pod_id) {
            lemma_bisected_same(a, b, pod_id, probe as nat, high);
        } else {
            lemma_bisected_same(a, b, pod_id, low, (probe - 1) as nat);
        }
    }
}

/// The depth of a pod depends on nothing but whether it is a candidate, whether it lives, and
/// which blocks of the chain it holds.
pub proof fn lemma_depth_depends_on_own_blocks(
    a: IndexState,
    a_candidates: Set<usize>,
    b: IndexState,
    b_candidates: Set<usize>,
    chain: Seq<BlockHash>,
    pod_id: usize,
)
    requires
        a_candidates.contains(pod_id) == b_candidates.contains(pod_id),
        a.alive.contains(pod_id) == b.alive.contains(pod_id),
        forall|k: int|
            0 <= k < chain.len() ==> a.owners(#[trigger] chain[k]).contains(pod_id) == b.owners(
                chain[k],
            ).contains(pod_id),
    ensures
        search::prefix_depth(a, chain, a_candidates, pod_id) == search::prefix_depth(
            b,
            chain,
            b_candidates,
            pod_id,
        ),
        bench_part2::naive_depth(a, chain, a_candidates, pod_id) == bench_part2::naive_depth(
            b,
            chain,
            b_candidates,
            pod_id,
        ),
{
    let a_owners = search::chain_owners(a, chain);
    let b_owners = search::chain_owners(b, chain);
    assert forall|k: int| 0 <= k < a_owners.len() implies (#[trigger] a_owners[k]).contains(pod_id)
        == b_owners[k].contains(pod_id) by {
        assert(a.owners(chain[k]).contains(pod_id) == b.owners(chain[k]).contains(pod_id));
    }
    lemma_bisected_same(a_owners, b_owners, pod_id, 0, chain.len());
    let run = search::leading_run(a_owners, pod_id);
    search::lemma_leading_run(a_owners, pod_id);
    search::lemma_leading_run(b_owners, pod_id);
    assert forall|k: int| 0 <= k < run implies (#[trigger] b_owners[k]).contains(pod_id) by {
        assert(a_owners[k].contains(pod_id));
    }
    if run < a_owners.len() {
        assert(a_owners[run as int].contains(pod_id) == b_owners[run as int].contains(pod_id));
    }
    search::lemma_longest_prefix_unique(
        b_owners,
        pod_id,
        run,
        search::leading_run(b_owners, pod_id),
    );
}

/// No update of one pod changes the depth of another.
pub proof fn lemma_updates_spare_other_pods(
    index: IndexState,
    pod_id: usize,
    hash: BlockHash,
    chain: Seq<BlockHash>,
    candidates: Set<usize>,
    other: usize,
)
    requires
        other != pod_id,
    ensures
        search::prefix_depth(index.registered(pod_id, hash), chain, candidates, other)
            == search::prefix_depth(index, chain, candidates, other),
        search::prefix_depth(index.evicted(pod_id, hash), chain, candidates, other)
            == search::prefix_depth(index, chain, candidates, other),
        search::prefix_depth(index.shut_down(pod_id), chain, candidates, other)
            == search::prefix_depth(index, chain, candidates, other),
        search::prefix_depth(index.cleaned(pod_id), chain, candidates, other)
            == search::prefix_depth(index, chain, candidates, other),
{
    let registered = index.registered(pod_id, hash);
    let evicted = index.evicted(pod_id, hash);
    let cleaned = index.cleaned(pod_id);
    assert forall|k: int| 0 <= k < chain.len() implies {
        let before = index.owners(#[trigger] chain[k]).contains(other);
        &&& registered.owners(chain[k]).contains(other) == before
        &&& evicted.owners(chain[k]).contains(other) == before
        &&& cleaned.owners(chain[k]).contains(other) == before
    } by {
        lemma_register_owners(index, pod_id, hash, other, chain[k]);
        lemma_evict_owners(index, pod_id, hash, other, chain[k]);
        lemma_cleanup_owners(index, pod_id, chain[k]);
    }
    lemma_depth_depends_on_own_blocks(registered, candidates, index, candidates, chain, other);
    lemma_depth_depends_on_own_blocks(evicted, candidates, index, candidates, chain, other);
    lemma_depth_depends_on_own_blocks(
        index.shut_down(pod_id),
        candidates,
        index,
        candidates,
        chain,
        other,
    );
    lemma_depth_depends_on_own_blocks(cleaned, candidates, index, candidates, chain, other);
}

/// The binary query and the naive one agree on every pod that holds each block before a block
/// that it holds. Beyond that they agree on those who are dead or no candidates, and where the
/// blocks that are probed on the way to the leading run of a pod agree with it.
pub proof fn lemma_binary_agrees_with_naive(
    index: IndexState,
    chain: Seq<BlockHash>,
    candidates: Set<usize>,
    pod_id: usize,
)
    ensures
        ({
            let owners = search::chain_owners(index, chain);
            let binary = search::prefix_depth(index, chain, candidates, pod_id);
            let naive = bench_part2::naive_depth(index, chain, candidates, pod_id);
            let run = search::leading_run(owners, pod_id);
            &&& search::prefix_closed(owners, pod_id) ==> binary == naive
            &&& binary == naive <==> {
                ||| !candidates.contains(pod_id)
                ||| !index.alive.contains(pod_id)
                ||| search::probes_agree(owners, pod_id, 0, chain.len(), run)
            }
        }),
{
    let owners = search::chain_owners(index, chain);
    let run = search::leading_run(owners, pod_id);
    search::lemma_leading_run(owners, pod_id);
    search::lemma_bisection_finds_depth(owners, pod_id, 0, chain.len(), run);
    if search::prefix_closed(owners, pod_id) {
        search::lemma_bisection_finds_longest_prefix(owners, pod_id);
    }
}

/// The binary query makes no more lookups than the naive one, which makes one for each block, and
/// no more for each living candidate than the length of the chain has binary digits.
pub proof fn lemma_binary_saves_lookups(
    index: IndexState,
    chain: Seq<BlockHash>,
    candidates: Set<usize>,
)
    requires
        candidates.finite(),
    ensures
        search::prefix_probes(index, chain, candidates) <= chain.len(),
        search::prefix_probes(index, chain, candidates) <= candidates.intersect(index.alive).len()
            * search::binary_digits(chain.len()),
{
    let owners = search::chain_owners(index, chain);
    let pods = candidates.intersect(index.alive);
    search::lemma_probes_at_most_blocks(owners, pods, 0, chain.len());
    search::lemma_probes_logarithmic(owners, pods, 0, chain.len());
}

/// Whether `pod_id` holds the first `depth` blocks of `chain`, and none of the others.
pub open spec fn holds_prefix(
    index: IndexState,
    chain: Seq<BlockHash>,
    pod_id: usize,
    depth: nat,
) -> bool {
    &&& depth <= chain.len()
    &&& forall|k: int|
        0 <= k < chain.len() ==> (index.owners(#[trigger] chain[k]).contains(pod_id) <==> k
            < depth)
}

/// Both queries find the depth to which a living candidate holds the chain.
pub proof fn lemma_queries_find_held_prefix(
    index: IndexState,
    chain: Seq<BlockHash>,
    candidates: Set<usize>,
    pod_id: usize,
    depth: nat,
)
    requires
        candidates.contains(pod_id),
        index.alive.contains(pod_id),
        holds_prefix(index, chain, pod_id, depth),
    ensures
        search::prefix_depth(index, chain, candidates, pod_id) == depth,
        bench_part2::naive_depth(index, chain, candidates, pod_id) == depth,
{
    let owners = search::chain_owners(index, chain);
    assert forall|k: int| 0 <= k < owners.len() implies ((#[trigger] owners[k]).contains(pod_id)
        <==> k < depth) by {
        assert(index.owners(chain[k]).contains(pod_id) <==> k < depth);
    }
    assert(search::prefix_closed(owners, pod_id));
    search::lemma_bisection_finds_longest_prefix(owners, pod_id);
    assert(search::is_longest_prefix(owners, pod_id, depth));
    search::lemma_longest_prefix_unique(
        owners,
        pod_id,
        depth,
        search::bisected_depth(owners, pod_id, 0, owners.len()),
    );
}

/// A pod that registers the next block of the chain holds a prefix that is one longer, and both
/// queries find that, just where the same hash does not come up again further along.
pub proof fn lemma_register_deepens(
    index: IndexState,
    chain: Seq<BlockHash>,
    candidates: Set<usize>,
    pod_id: usize,
    depth: nat,
)
    requires
        pod_id < MAX_PODS,
        candidates.contains(pod_id),
        index.alive.contains(pod_id),
        holds_prefix(index, chain, pod_id, depth),
        depth < chain.len(),
    ensures
        ({
            let after = index.registered(pod_id, chain[depth as int]);
            let recurs = chain.skip((depth + 1) as int).contains(chain[depth as int]);
            &&& holds_prefix(after, chain, pod_id, depth + 1) <==> !recurs
            &&& !recurs ==> search::prefix_depth(after, chain, candidates, pod_id) == depth + 1
            &&& !recurs ==> bench_part2::naive_depth(after, chain, candidates, pod_id) == depth + 1
        }),
{
    let hash = chain[depth as int];
    let rest = chain.skip((depth + 1) as int);
    let after = index.registered(pod_id, hash);
    assert forall|k: int| 0 <= k < chain.len() implies (after.owners(
        #[trigger] chain[k],
    ).contains(pod_id) <==> k < depth || chain[k] == hash) by {
        lemma_register_owners(index, pod_id, hash, pod_id, chain[k]);
        assert(index.owners(chain[k]).contains(pod_id) <==> k < depth);
    }
    if rest.contains(hash) {
        let k = choose|k: int| 0 <= k < rest.len() && rest[k] == hash;
        assert(chain[depth + 1 + k] == hash);
    } else {
        assert forall|k: int| 0 <= k < chain.len() implies (after.owners(
            #[trigger] chain[k],
        ).contains(pod_id) <==> k < depth + 1) by {
            if k > depth {
                assert(rest[k - depth - 1] == chain[k]);
            }
        }
        lemma_queries_find_held_prefix(after, chain, candidates, pod_id, depth + 1);
    }
}

/// A pod that evicts the last block of the prefix that it holds is left with a prefix that is one
/// shorter, and both queries find that, just where the same hash did not come up before.
pub proof fn lemma_evict_shortens(
    index: IndexState,
    chain: Seq<BlockHash>,
    candidates: Set<usize>,
    pod_id: usize,
    depth: nat,
)
    requires
        candidates.contains(pod_id),
        index.alive.contains(pod_id),
        holds_prefix(index, chain, pod_id, depth),
        depth > 0,
    ensures
        ({
            let after = index.evicted(pod_id, chain[depth - 1]);
            let shorter = (depth - 1) as nat;
            let recurs = chain.take(depth - 1).contains(chain[depth - 1]);
            &&& holds_prefix(after, chain, pod_id, shorter) <==> !recurs
            &&& !recurs ==> search::prefix_depth(after, chain, candidates, pod_id) == shorter
            &&& !recurs ==> bench_part2::naive_depth(after, chain, candidates, pod_id) == shorter
        }),
{
    let hash = chain[depth - 1];
    let before = chain.take(depth - 1);
    let after = index.evicted(pod_id, hash);
    assert forall|k: int| 0 <= k < chain.len() implies (after.owners(
        #[trigger] chain[k],
    ).contains(pod_id) <==> k < depth && chain[k] != hash) by {
        lemma_evict_owners(index, pod_id, hash, pod_id, chain[k]);
        assert(index.owners(chain[k]).contains(pod_id) <==> k < depth);
    }
    if before.contains(hash) {
        let k = choose|k: int| 0 <= k < before.len() && before[k] == hash;
        assert(chain[k] == hash);
    } else {
        assert forall|k: int| 0 <= k < chain.len() implies (after.owners(
            #[trigger] chain[k],
        ).contains(pod_id) <==> k < depth - 1) by {
            if k < depth - 1 {
                assert(before[k] == chain[k]);
            }
        }
        lemma_queries_find_held_prefix(after, chain, candidates, pod_id, (depth - 1) as nat);
    }
}

/// Where pods hold prefixes of the chain and nothing else, both queries find the length of such a
/// prefix if none of its hashes comes up again behind it.
pub proof fn lemma_queries_find_limits(
    index: IndexState,
    chain: Seq<BlockHash>,
    limits: Seq<nat>,
    candidates: Set<usize>,
    pod_id: usize,
)
    requires
        index.entries == indexer::held_entries(chain, limits),
        pod_id < limits.len(),
        limits[pod_id as int] <= chain.len(),
        candidates.contains(pod_id),
        index.alive.contains(pod_id),
        forall|k: int|
            limits[pod_id as int] <= k < chain.len() ==> !chain.take(
                limits[pod_id as int] as int,
            ).contains(#[trigger] chain[k]),
    ensures
        holds_prefix(index, chain, pod_id, limits[pod_id as int]),
        search::prefix_depth(index, chain, candidates, pod_id) == limits[pod_id as int],
        bench_part2::naive_depth(index, chain, candidates, pod_id) == limits[pod_id as int],
{
    let depth = limits[pod_id as int];
    let held = chain.take(depth as int);
    assert forall|k: int| 0 <= k < chain.len() implies (index.owners(#[trigger] chain[k]).contains(
        pod_id,
    ) <==> k < depth) by {
        let owners = indexer::holders(chain, limits, chain[k]);
        assert(index.owners(chain[k]) =~= owners);
        if k < depth {
            assert(held[k] == chain[k]);
        }
    }
    lemma_queries_find_held_prefix(index, chain, candidates, pod_id, depth);
}

/// Where pods hold prefixes of the chain and nothing else, the naive query finds the length of such
/// a prefix just where the hash behind it is not one of those in it.
pub proof fn lemma_naive_query_finds_limits(
    index: IndexState,
    chain: Seq<BlockHash>,
    limits: Seq<nat>,
    candidates: Set<usize>,
    pod_id: usize,
)
    requires
        index.entries == indexer::held_entries(chain, limits),
        pod_id < limits.len(),
        limits[pod_id as int] <= chain.len(),
        candidates.contains(pod_id),
        index.alive.contains(pod_id),
    ensures
        bench_part2::naive_depth(index, chain, candidates, pod_id) >= limits[pod_id as int],
        bench_part2::naive_depth(index, chain, candidates, pod_id) == limits[pod_id as int] <==> {
            ||| limits[pod_id as int] == chain.len()
            ||| !chain.take(limits[pod_id as int] as int).contains(
                chain[limits[pod_id as int] as int],
            )
        },
{
    let depth = limits[pod_id as int];
    let held = chain.take(depth as int);
    let owners = search::chain_owners(index, chain);
    let run = search::leading_run(owners, pod_id);
    assert forall|k: int| 0 <= k < chain.len() implies ((#[trigger] owners[k]).contains(pod_id)
        <==> held.contains(chain[k])) by {
        assert(index.owners(chain[k]) =~= indexer::holders(chain, limits, chain[k]));
    }
    search::lemma_leading_run(owners, pod_id);
    if run < depth {
        assert(held[run as int] == chain[run as int]);
        assert(owners[run as int].contains(pod_id));
    }
    if depth < chain.len() {
        assert(owners[depth as int].contains(pod_id) <==> held.contains(chain[depth as int]));
    }
}

/// Where pods hold prefixes of the chain and nothing else, the binary query finds the length of
/// such a prefix just where no block behind it that is probed on the way has one of its hashes.
pub proof fn lemma_binary_query_finds_limits(
    index: IndexState,
    chain: Seq<BlockHash>,
    limits: Seq<nat>,
    candidates: Set<usize>,
    pod_id: usize,
)
    requires
        index.entries == indexer::held_entries(chain, limits),
        pod_id < limits.len(),
        limits[pod_id as int] <= chain.len(),
        candidates.contains(pod_id),
        index.alive.contains(pod_id),
    ensures
        search::prefix_depth(index, chain, candidates, pod_id) == limits[pod_id as int]
            <==> search::probes_agree(
            search::chain_owners(index, chain),
            pod_id,
            0,
            chain.len(),
            limits[pod_id as int],
        ),
        forall|k: int|
            0 <= k < chain.len() ==> ((#[trigger] search::chain_owners(index, chain)[k]).contains(
                pod_id,
            ) <==> chain.take(limits[pod_id as int] as int).contains(chain[k])),
{
    let owners = search::chain_owners(index, chain);
    assert forall|k: int| 0 <= k < chain.len() implies ((#[trigger] owners[k]).contains(pod_id)
        <==> chain.take(limits[pod_id as int] as int).contains(chain[k])) by {
        assert(index.owners(chain[k]) =~= indexer::holders(chain, limits, chain[k]));
    }
    search::lemma_bisection_finds_depth(
        owners,
        pod_id,
        0,
        chain.len(),
        limits[pod_id as int],
    );
}

/// A pod that holds the first blocks of one prompt is found to hold them for every prompt that
/// begins with the same blocks: by the naive query in any case, and by the binary one where the
/// pod holds each block before a block that it holds.
pub proof fn lemma_shared_blocks_are_found(
    index: IndexState,
    cached: Seq<char>,
    asked: Seq<char>,
    blocks: nat,
    candidates: Set<usize>,
    pod_id: usize,
)
    requires
        blocks * hash::BLOCK_SIZE <= text::tokens(cached).len(),
        blocks * hash::BLOCK_SIZE <= text::tokens(asked).len(),
        text::tokens(cached).take(blocks * hash::BLOCK_SIZE) == text::tokens(asked).take(
            blocks * hash::BLOCK_SIZE,
        ),
        candidates.contains(pod_id),
        index.alive.contains(pod_id),
        forall|k: int|
            0 <= k < blocks ==> index.owners(
                #[trigger] hash::prompt_chain(cached)[k],
            ).contains(pod_id),
    ensures
        bench_part2::naive_depth(index, hash::prompt_chain(asked), candidates, pod_id) >= blocks,
        search::prefix_closed(search::chain_owners(index, hash::prompt_chain(asked)), pod_id)
            ==> search::prefix_depth(index, hash::prompt_chain(asked), candidates, pod_id)
            >= blocks,
{
    let cached_chain = hash::prompt_chain(cached);
    let chain = hash::prompt_chain(asked);
    let owners = search::chain_owners(index, chain);
    let run = search::leading_run(owners, pod_id);
    hash::lemma_shared_tokens_share_hashes(cached, asked, blocks);
    search::lemma_leading_run(owners, pod_id);
    if run < blocks {
        assert(cached_chain.take(blocks as int)[run as int] == cached_chain[run as int]);
        assert(chain.take(blocks as int)[run as int] == chain[run as int]);
        assert(index.owners(cached_chain[run as int]).contains(pod_id));
        assert(owners[run as int].contains(pod_id));
    }
    if search::prefix_closed(owners, pod_id) {
        search::lemma_bisection_finds_longest_prefix(owners, pod_id);
    }
}

/// The first shards hold those hashes that belong into them.
proof fn lemma_first_shards(hashes: Set<BlockHash>, counts: Seq<usize>, first: int)
    requires
        0 <= first <= indexer::SHARDS,
        indexer::are_entry_counts(hashes, counts),
    ensures
        hashes.filter(|hash: BlockHash| indexer::fibonacci_shard(hash) < first).finite(),
        workload::sum(counts.take(first)) == hashes.filter(
            |hash: BlockHash| indexer::fibonacci_shard(hash) < first,
        ).len(),
    decreases first,
{
    let upto = hashes.filter(|hash: BlockHash| indexer::fibonacci_shard(hash) < first);
    if first == 0 {
        assert forall|hash: BlockHash| !(#[trigger] upto.contains(hash)) by {
            indexer::lemma_fibonacci_shard(hash);
        }
        assert(upto =~= Set::<BlockHash>::empty());
    } else {
        let last = first - 1;
        lemma_first_shards(hashes, counts, last);
        let before = hashes.filter(|hash: BlockHash| indexer::fibonacci_shard(hash) < last);
        let here = indexer::hashes_of_shard(hashes, last);
        assert(counts[last] == here.len());
        assert(upto =~= before.union(here));
        assert(before.disjoint(here));
        vstd::set_lib::lemma_set_disjoint_lens(before, here);
        assert(counts.take(first).drop_last() =~= counts.take(last));
    }
}

/// Every entry is in one shard: the shards hold as many entries together as there are.
pub proof fn lemma_entry_counts_add_up(hashes: Set<BlockHash>, counts: Seq<usize>)
    requires
        indexer::are_entry_counts(hashes, counts),
    ensures
        hashes.finite(),
        workload::sum(counts) == hashes.len(),
{
    let shards = indexer::SHARDS as int;
    lemma_first_shards(hashes, counts, shards);
    let all = hashes.filter(|hash: BlockHash| indexer::fibonacci_shard(hash) < shards);
    assert forall|hash: BlockHash| #[trigger] all.contains(hash) <==> hashes.contains(hash) by {
        indexer::lemma_fibonacci_shard(hash);
    }
    assert(all =~= hashes);
    assert(counts.take(shards) =~= counts);
}

/// There is an entry for each block that was registered, until an eviction or a cleanup leaves
/// nobody to hold it. Other entries stay as they are.
pub proof fn lemma_entries(
    index: IndexState,
    pod_id: usize,
    hash: BlockHash,
    other_hash: BlockHash,
)
    ensures
        index.registered(pod_id, hash).entries.contains_key(other_hash) <==> other_hash == hash
            || index.entries.contains_key(other_hash),
        index.evicted(pod_id, hash).entries.contains_key(other_hash) <==> {
            &&& index.entries.contains_key(other_hash)
            &&& other_hash == hash ==> exists|p: usize|
                p != pod_id && #[trigger] index.entries[other_hash].contains(p)
        },
        index.cleaned(pod_id).entries.contains_key(other_hash) <==> {
            &&& index.entries.contains_key(other_hash)
            &&& exists|p: usize| p != pod_id && #[trigger] index.entries[other_hash].contains(p)
        },
        index.shut_down(pod_id).entries == index.entries,
{
    let rest = index.entries[other_hash].remove(pod_id);
    assert(rest != Set::<usize>::empty() <==> exists|p: usize|
        p != pod_id && #[trigger] index.entries[other_hash].contains(p)) by {
        if exists|p: usize| p != pod_id && #[trigger] index.entries[other_hash].contains(p) {
            let p = choose|p: usize|
                p != pod_id && #[trigger] index.entries[other_hash].contains(p);
            assert(rest.contains(p));
        } else {
            assert(rest =~= Set::<usize>::empty());
        }
    }
}

/// Living owners are those who hold the block and live.
pub proof fn lemma_living_owners(index: IndexState, hash: BlockHash, pod_id: usize)
    ensures
        index.owners_alive(hash).contains(pod_id) <==> index.owners(hash).contains(pod_id)
            && index.alive.contains(pod_id),
        index.owners(hash).contains(pod_id) <==> index.entries.contains_key(hash)
            && index.entries[hash].contains(pod_id),
        index.shut_down(pod_id).alive.contains(pod_id) == false,
        forall|other: usize|
            other != pod_id ==> (#[trigger] index.shut_down(pod_id).alive.contains(other)
                <==> index.alive.contains(other)),
{
}

/// The binary query goes by the block in the middle of the chain, or by the one behind the middle.
/// A living candidate that holds it has all blocks up to it, and as many more as a query of the
/// rest of the chain gives. One that does not hold it has as many as a query of the part before it
/// gives.
pub proof fn lemma_query_goes_by_the_middle(
    index: IndexState,
    chain: Seq<BlockHash>,
    candidates: Set<usize>,
    pod_id: usize,
    middle: int,
)
    requires
        candidates.contains(pod_id),
        index.alive.contains(pod_id),
    ensures
        chain.len() == 0 ==> search::prefix_depth(index, chain, candidates, pod_id) == 0,
        chain.len() > 0 && (2 * middle == chain.len() || 2 * middle == chain.len() + 1) ==> {
            &&& index.owners(chain[middle - 1]).contains(pod_id) ==> search::prefix_depth(
                index,
                chain,
                candidates,
                pod_id,
            ) == middle + search::prefix_depth(index, chain.skip(middle), candidates, pod_id)
            &&& !index.owners(chain[middle - 1]).contains(pod_id) ==> search::prefix_depth(
                index,
                chain,
                candidates,
                pod_id,
            ) == search::prefix_depth(index, chain.take(middle - 1), candidates, pod_id)
        },
{
    let owners = search::chain_owners(index, chain);
    if chain.len() > 0 && (2 * middle == chain.len() || 2 * middle == chain.len() + 1) {
        search::lemma_middle_block_decides(owners, pod_id, middle);
        assert(search::chain_owners(index, chain.skip(middle)) =~= owners.skip(middle));
        assert(search::chain_owners(index, chain.take(middle - 1)) =~= owners.take(middle - 1));
    }
}

/// A query without living candidates or without blocks looks nothing up, and takes one group off
/// its stack. Any other one makes a lookup in the middle of the chain, and then has the work of two
/// queries: of the rest of the chain for the candidates who hold the block in the middle, and of
/// the part before it for the others. Of the groups, those without living pods are left out.
pub proof fn lemma_work_goes_by_the_middle(
    index: IndexState,
    chain: Seq<BlockHash>,
    candidates: Set<usize>,
    middle: int,
)
    ensures
        chain.len() == 0 || candidates.disjoint(index.alive) ==> {
            &&& search::prefix_probes(index, chain, candidates) == 0
            &&& bench_part2::query_frames(index, chain, candidates) == 1
        },
        chain.len() > 0 && !candidates.disjoint(index.alive) && (2 * middle == chain.len() || 2
            * middle == chain.len() + 1) ==> {
            let holding = candidates.intersect(index.owners(chain[middle - 1]));
            let others = candidates.difference(index.owners(chain[middle - 1]));
            let rest = chain.skip(middle);
            let part = chain.take(middle - 1);
            let above = bench_part2::query_frames(index, rest, holding);
            let below = bench_part2::query_frames(index, part, others);
            &&& search::prefix_probes(index, chain, candidates) == 1 + search::prefix_probes(
                index,
                rest,
                holding,
            ) + search::prefix_probes(index, part, others)
            &&& bench_part2::query_frames(index, chain, candidates) == 1 + (if holding.disjoint(
                index.alive,
            ) {
                0
            } else {
                above
            }) + (if others.disjoint(index.alive) {
                0
            } else {
                below
            })
        },
{
    let owners = search::chain_owners(index, chain);
    let pods = candidates.intersect(index.alive);
    lemma_disjoint(candidates, index.alive);
    if chain.len() > 0 && !candidates.disjoint(index.alive) && (2 * middle == chain.len() || 2
        * middle == chain.len() + 1) {
        let holding = candidates.intersect(index.owners(chain[middle - 1]));
        let others = candidates.difference(index.owners(chain[middle - 1]));
        search::lemma_search_by_halves(owners, pods, middle);
        assert(search::chain_owners(index, chain.skip(middle)) =~= owners.skip(middle));
        assert(search::chain_owners(index, chain.take(middle - 1)) =~= owners.take(middle - 1));
        assert(pods.intersect(owners[middle - 1]) =~= holding.intersect(index.alive));
        assert(pods.difference(owners[middle - 1]) =~= others.intersect(index.alive));
        lemma_disjoint(holding, index.alive);
        lemma_disjoint(others, index.alive);
    }
}

/// Sets have nothing in common just where their intersection is empty.
proof fn lemma_disjoint(a: Set<usize>, b: Set<usize>)
    ensures
        a.disjoint(b) <==> a.intersect(b) == Set::<usize>::empty(),
{
    if a.disjoint(b) {
        assert(a.intersect(b) =~= Set::<usize>::empty());
    } else {
        let pod_id = choose|pod_id: usize| a.contains(pod_id) && b.contains(pod_id);
        assert(a.intersect(b).contains(pod_id));
    }
}

/// The naive query gives a living candidate the number of blocks that it holds without a gap from
/// the beginning of the chain.
pub proof fn lemma_naive_query_stops_at_gap(
    index: IndexState,
    chain: Seq<BlockHash>,
    candidates: Set<usize>,
    pod_id: usize,
    depth: nat,
)
    requires
        candidates.contains(pod_id),
        index.alive.contains(pod_id),
    ensures
        bench_part2::naive_depth(index, chain, candidates, pod_id) == depth <==> {
            &&& depth <= chain.len()
            &&& forall|k: int|
                0 <= k < depth ==> index.owners(#[trigger] chain[k]).contains(pod_id)
            &&& depth < chain.len() ==> !index.owners(chain[depth as int]).contains(pod_id)
        },
{
    let owners = search::chain_owners(index, chain);
    let run = search::leading_run(owners, pod_id);
    search::lemma_leading_run(owners, pod_id);
    assert forall|k: int| 0 <= k < chain.len() implies ((#[trigger] owners[k]).contains(pod_id)
        <==> index.owners(chain[k]).contains(pod_id)) by {}
    assert forall|k: int| 0 <= k < run implies index.owners(#[trigger] chain[k]).contains(
        pod_id,
    ) by {
        assert(owners[k].contains(pod_id));
    }
    if run < chain.len() {
        assert(!owners[run as int].contains(pod_id));
    }
    if depth <= chain.len() && (forall|k: int|
        0 <= k < depth ==> index.owners(#[trigger] chain[k]).contains(pod_id)) && (depth
        < chain.len() ==> !index.owners(chain[depth as int]).contains(pod_id)) {
        if run < depth {
            assert(index.owners(chain[run as int]).contains(pod_id));
        }
        if depth < run {
            assert(index.owners(chain[depth as int]).contains(pod_id));
        }
    }
}

/// The binary query finds the longest prefix that a living candidate holds, where it holds every
/// block before a block that it holds.
pub proof fn lemma_binary_query_finds_longest_prefix(
    index: IndexState,
    chain: Seq<BlockHash>,
    candidates: Set<usize>,
    pod_id: usize,
)
    requires
        candidates.contains(pod_id),
        index.alive.contains(pod_id),
        forall|i: int, j: int|
            0 <= i <= j < chain.len() && index.owners(#[trigger] chain[j]).contains(pod_id)
                ==> index.owners(#[trigger] chain[i]).contains(pod_id),
    ensures
        forall|k: int|
            0 <= k < chain.len() ==> (index.owners(#[trigger] chain[k]).contains(pod_id) <==> k
                < search::prefix_depth(index, chain, candidates, pod_id)),
{
    let owners = search::chain_owners(index, chain);
    let depth = search::prefix_depth(index, chain, candidates, pod_id);
    assert forall|i: int, j: int|
        0 <= i <= j < owners.len() && (#[trigger] owners[j]).contains(pod_id) implies (
    #[trigger] owners[i]).contains(pod_id) by {
        assert(index.owners(chain[j]).contains(pod_id));
        assert(index.owners(chain[i]).contains(pod_id));
    }
    search::lemma_bisection_finds_longest_prefix(owners, pod_id);
    assert forall|k: int| 0 <= k < chain.len() implies (index.owners(#[trigger] chain[k]).contains(
        pod_id,
    ) <==> k < depth) by {
        assert(owners[k].contains(pod_id) <==> index.owners(chain[k]).contains(pod_id));
        if k >= depth && owners[k].contains(pod_id) {
            assert(owners[depth as int].contains(pod_id));
        }
    }
}

/// What the shards count are the hashes that are in them.
pub proof fn lemma_entry_counts(hashes: Set<BlockHash>, counts: Seq<usize>, shard: int)
    requires
        indexer::are_entry_counts(hashes, counts),
        0 <= shard < 256,
    ensures
        counts.len() == 256,
        counts[shard] == hashes.filter(
            |hash: BlockHash| indexer::fibonacci_shard(hash) == shard,
        ).len(),
{
    assert(indexer::is_entry_count(hashes, shard, counts[shard] as nat));
}

} // verus!
