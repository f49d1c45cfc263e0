//! The block index: which pods hold which block, and which pods are alive.

use vstd::prelude::*;

use crate::bitmap::{HostBitmap, MAX_PODS};
use crate::hash::BlockHash;
use crate::search;
use crate::shard;
use crate::shard::Shard;

pub use crate::search::SearchFrame;

verus! {

/// How many shards the index has.
pub const SHARDS: usize = 256;

/// How many of the top bits of a scrambled hash select its shard.
pub const SHARD_BITS: u32 = 8;

/// The multiplier of Fibonacci hashing: 2 to the 64, divided by the golden ratio.
pub const FIBONACCI: u64 = 0x9E3779B97F4A7C15;

pub const SHARD_COUNT: usize = SHARDS;

/// The shard of `hash`: the top eight of the low 64 bits of `hash * FIBONACCI`.
pub open spec fn fibonacci_shard(hash: BlockHash) -> int {
    ((hash * FIBONACCI) % 0x1_0000_0000_0000_0000) / 0x100_0000_0000_0000
}

/// Picks the shard of a hash by Fibonacci hashing.
pub fn shard_for_fibonacci(hash: BlockHash) -> (shard: usize)
    ensures
        shard == fibonacci_shard(hash),
        shard < SHARDS,
{
    let scrambled: u64 = hash.wrapping_mul(FIBONACCI);
    assert(scrambled >> 56 == scrambled / 0x100_0000_0000_0000) by (bit_vector);
    (scrambled >> (64 - SHARD_BITS)) as usize
}

/// The shard that the low eight bits of `hash` select.
pub open spec fn low_bits_shard(hash: BlockHash) -> int {
    hash as int % SHARDS as int
}

/// Picks the shard of a hash by its low bits.
pub fn shard_for_low_bits(hash: BlockHash) -> (shard: usize)
    ensures
        shard == low_bits_shard(hash),
        shard < SHARDS,
{
    let low: usize = #[verifier::truncate] (hash as usize);
    assert((hash as usize) & 255 == hash % 256) by (bit_vector);
    low & (SHARDS - 1)
}

/// Picks the shard of a hash.
pub fn shard_for(hash: BlockHash) -> (shard: usize)
    ensures
        shard == fibonacci_shard(hash),
        shard < SHARDS,
{
    shard_for_fibonacci(hash)
}

/// What an index records: for each block hash with an entry the pods that hold the block, and
/// the pods that are alive.
#[verifier::ext_equal]
pub struct IndexState {
    pub entries: Map<BlockHash, Set<usize>>,
    pub alive: Set<usize>,
}

impl IndexState {
    /// The pods that hold `hash`, dead or alive.
    pub open spec fn owners(self, hash: BlockHash) -> Set<usize> {
        shard::owners_in(self.entries, hash)
    }

    /// The living pods that hold `hash`.
    pub open spec fn owners_alive(self, hash: BlockHash) -> Set<usize> {
        self.owners(hash).intersect(self.alive)
    }

    pub open spec fn registered(self, pod_id: usize, hash: BlockHash) -> Self {
        IndexState { entries: shard::registered_in(self.entries, pod_id, hash), alive: self.alive }
    }

    pub open spec fn evicted(self, pod_id: usize, hash: BlockHash) -> Self {
        IndexState { entries: shard::evicted_in(self.entries, pod_id, hash), alive: self.alive }
    }

    pub open spec fn shut_down(self, pod_id: usize) -> Self {
        IndexState { entries: self.entries, alive: self.alive.remove(pod_id) }
    }

    pub open spec fn cleaned(self, pod_id: usize) -> Self {
        IndexState { entries: shard::cleaned_in(self.entries, pod_id), alive: self.alive }
    }
}

/// An index from block hashes to the pods that hold the block, spread over [`SHARDS`] shards.
pub struct ShardedBlockIndexer {
    shards: Vec<Shard>,
    alive: HostBitmap,
}

impl View for ShardedBlockIndexer {
    type V = IndexState;

    closed spec fn view(&self) -> IndexState {
        IndexState { entries: self.merged(), alive: self.alive@ }
    }
}

impl ShardedBlockIndexer {
    /// All shards as one map: each hash is looked up in its own shard.
    spec fn merged(&self) -> Map<BlockHash, Set<usize>> {
        Map::new(
            |hash: BlockHash| self.shards@[fibonacci_shard(hash)]@.contains_key(hash),
            |hash: BlockHash| self.shards@[fibonacci_shard(hash)]@[hash],
        )
    }

    /// There are [`SHARDS`] shards, and every entry is in the shard of its hash.
    pub closed spec fn wf(&self) -> bool {
        &&& self.shards@.len() == SHARDS
        &&& forall|i: int, hash: BlockHash|
            0 <= i < SHARDS && (#[trigger] self.shards@[i]@.contains_key(hash)) ==> i
                == fibonacci_shard(hash)
    }

    /// An index without entries, in which the first `pod_count` pods are alive.
    pub fn new(pod_count: usize) -> (indexer: Self)
        ensures
            indexer.wf(),
            indexer@.entries == Map::<BlockHash, Set<usize>>::empty(),
            indexer@.alive == Set::new(|pod_id: usize| pod_id < pod_count && pod_id < MAX_PODS),
    {
        let mut shards: Vec<Shard> = Vec::new();
        let mut i: usize = 0;
        while i < SHARDS
            invariant
                i <= SHARDS,
                shards@.len() == i,
                forall|k: int|
                    0 <= k < i ==> (#[trigger] shards@[k])@ == Map::<
                        BlockHash,
                        Set<usize>,
                    >::empty(),
            decreases SHARDS - i,
        {
            shards.push(Shard::new());
            i = i + 1;
        }
        let indexer = Self { shards, alive: HostBitmap::full_for_count(pod_count) };
        proof {
            assert forall|hash: BlockHash| !(#[trigger] indexer.merged().contains_key(hash)) by {
                lemma_fibonacci_shard(hash);
            }
            assert(indexer@.entries =~= Map::<BlockHash, Set<usize>>::empty());
        }
        indexer
    }

    /// Records that `pod_id` holds the block of `cumulative_hash`.
    pub fn register(&mut self, pod_id: usize, cumulative_hash: BlockHash)
        requires
            old(self).wf(),
        ensures
            final(self).wf(),
            final(self)@ == old(self)@.registered(pod_id, cumulative_hash),
    {
        let shard: usize = shard_for_fibonacci(cumulative_hash);
        self.shards[shard].register(pod_id, cumulative_hash);
        proof {
            lemma_all_fibonacci_shards();
            assert(self@ =~= old(self)@.registered(pod_id, cumulative_hash));
        }
    }

    /// Records that `pod_id` no longer holds the block of `cumulative_hash`.
    pub fn evict(&mut self, pod_id: usize, cumulative_hash: BlockHash)
        requires
            old(self).wf(),
        ensures
            final(self).wf(),
            final(self)@ == old(self)@.evicted(pod_id, cumulative_hash),
    {
        let shard: usize = shard_for_fibonacci(cumulative_hash);
        self.shards[shard].evict(pod_id, cumulative_hash);
        proof {
            lemma_all_fibonacci_shards();
            assert(self@ =~= old(self)@.evicted(pod_id, cumulative_hash));
        }
    }

    /// Records that `pod_id` is dead. Its entries stay, and are masked on reading.
    pub fn shutdown(&mut self, pod_id: usize)
        requires
            old(self).wf(),
        ensures
            final(self).wf(),
            final(self)@ == old(self)@.shut_down(pod_id),
    {
        self.alive.clear(pod_id);
    }

    /// The pods that hold the block of `cumulative_hash`, dead or alive.
    pub fn owners(&self, cumulative_hash: BlockHash) -> (owners: HostBitmap)
        requires
            self.wf(),
        ensures
            owners@ == self@.owners(cumulative_hash),
    {
        let shard: usize = shard_for_fibonacci(cumulative_hash);
        self.shards[shard].owners(cumulative_hash)
    }

    /// The living pods that hold the block of `cumulative_hash`.
    pub fn owners_alive(&self, cumulative_hash: BlockHash) -> (owners: HostBitmap)
        requires
            self.wf(),
        ensures
            owners@ == self@.owners_alive(cumulative_hash),
    {
        self.owners(cumulative_hash).and(self.alive())
    }

    /// The living pods.
    pub fn alive(&self) -> (alive: HostBitmap)
        ensures
            alive@ == self@.alive,
    {
        self.alive
    }

    /// Strikes `pod_id` from every entry.
    pub fn cleanup_dead_pod(&mut self, pod_id: usize)
        requires
            old(self).wf(),
        ensures
            final(self).wf(),
            final(self)@ == old(self)@.cleaned(pod_id),
    {
        let mut i: usize = 0;
        while i < self.shards.len()
            invariant
                i <= SHARDS,
                self.shards@.len() == SHARDS,
                old(self).shards@.len() == SHARDS,
                self.alive == old(self).alive,
                forall|k: int|
                    0 <= k < i ==> (#[trigger] self.shards@[k])@ == shard::cleaned_in(
                        old(self).shards@[k]@,
                        pod_id,
                    ),
                forall|k: int|
                    i <= k < SHARDS ==> (#[trigger] self.shards@[k])@ == old(self).shards@[k]@,
            decreases SHARDS - i,
        {
            self.shards[i].cleanup_dead_pod(pod_id);
            i = i + 1;
        }
        proof {
            lemma_all_fibonacci_shards();
            assert forall|k: int, hash: BlockHash|
                0 <= k < SHARDS && (#[trigger] self.shards@[k]@.contains_key(hash)) implies k
                == fibonacci_shard(hash) by {
                assert(old(self).shards@[k]@.contains_key(hash));
            }
            assert(self@ =~= old(self)@.cleaned(pod_id));
        }
    }

    /// How many entries each shard holds.
    pub fn shard_entry_counts(&self) -> (counts: Vec<usize>)
        requires
            self.wf(),
        ensures
            are_entry_counts(self@.entries.dom(), counts@),
    {
        let mut counts: Vec<usize> = Vec::with_capacity(self.shards.len());
        let mut i: usize = 0;
        while i < self.shards.len()
            invariant
                self.wf(),
                i <= SHARDS,
                counts@.len() == i,
                forall|k: int|
                    0 <= k < i ==> is_entry_count(
                        self@.entries.dom(),
                        k,
                        #[trigger] counts@[k] as nat,
                    ),
            decreases SHARDS - i,
        {
            counts.push(self.entry_count(i));
            i = i + 1;
        }
        counts
    }

    /// Takes the index apart: its shards, each with the entries that belong into it, and the
    /// living pods.
    pub fn into_shards(self) -> (parts: (Vec<Shard>, HostBitmap))
        requires
            self.wf(),
        ensures
            parts.0@.len() == SHARDS,
            forall|i: int|
                0 <= i < SHARDS ==> (#[trigger] parts.0@[i])@ == self@.entries.restrict(
                    hashes_of_shard(self@.entries.dom(), i),
                ),
            parts.1@ == self@.alive,
    {
        proof {
            assert forall|i: int| 0 <= i < SHARDS implies (#[trigger] self.shards@[i])@
                == self@.entries.restrict(hashes_of_shard(self@.entries.dom(), i)) by {
                assert(self.shards@[i]@ =~= self@.entries.restrict(
                    hashes_of_shard(self@.entries.dom(), i),
                ));
            }
        }
        (self.shards, self.alive)
    }

    /// How many entries a shard holds.
    fn entry_count(&self, shard: usize) -> (count: usize)
        requires
            self.wf(),
            shard < SHARDS,
        ensures
            is_entry_count(self@.entries.dom(), shard as int, count as nat),
    {
        proof {
            assert(self.shards@[shard as int]@.dom() =~= hashes_of_shard(
                self@.entries.dom(),
                shard as int,
            ));
        }
        self.shards[shard].len()
    }
}

/// Those of `hashes` that belong into shard `shard`.
pub open spec fn hashes_of_shard(hashes: Set<BlockHash>, shard: int) -> Set<BlockHash> {
    hashes.filter(|hash: BlockHash| fibonacci_shard(hash) == shard)
}

/// Whether `count` of `hashes` belong into shard `shard`.
pub open spec fn is_entry_count(hashes: Set<BlockHash>, shard: int, count: nat) -> bool {
    hashes_of_shard(hashes, shard).finite() && hashes_of_shard(hashes, shard).len() == count
}

/// Whether `counts` tells how many of `hashes` belong into each shard.
pub open spec fn are_entry_counts(hashes: Set<BlockHash>, counts: Seq<usize>) -> bool {
    &&& counts.len() == SHARDS
    &&& forall|i: int|
        0 <= i < SHARDS ==> is_entry_count(hashes, i, #[trigger] counts[i] as nat)
}

/// The owners of `hash` where pod `p` holds the first `limits[p]` blocks of `chain`.
pub open spec fn holders(chain: Seq<BlockHash>, limits: Seq<nat>, hash: BlockHash) -> Set<usize> {
    Set::new(
        |pod_id: usize|
            pod_id < limits.len() && chain.take(limits[pod_id as int] as int).contains(hash),
    )
}

/// The entries where pod `p` holds the first `limits[p]` blocks of `chain`, and nothing else is
/// held.
pub open spec fn held_entries(chain: Seq<BlockHash>, limits: Seq<nat>) -> Map<
    BlockHash,
    Set<usize>,
> {
    Map::new(
        |hash: BlockHash| holders(chain, limits, hash) != Set::<usize>::empty(),
        |hash: BlockHash| holders(chain, limits, hash),
    )
}

/// Where there is no pod, nothing is held.
pub(crate) proof fn lemma_nothing_held(chain: Seq<BlockHash>)
    ensures
        held_entries(chain, Seq::<nat>::empty()) == Map::<BlockHash, Set<usize>>::empty(),
{
    assert forall|h: BlockHash| #[trigger]
        holders(chain, Seq::<nat>::empty(), h) == Set::<usize>::empty() by {
        assert(holders(chain, Seq::<nat>::empty(), h) =~= Set::<usize>::empty());
    }
    assert(held_entries(chain, Seq::<nat>::empty()) =~= Map::<BlockHash, Set<usize>>::empty());
}

/// A pod that takes one block more into its cache holds one block more.
pub(crate) proof fn lemma_register_next(
    chain: Seq<BlockHash>,
    limits: Seq<nat>,
    pod_id: usize,
    k: nat,
)
    requires
        k < chain.len(),
        pod_id == limits.len(),
        pod_id < MAX_PODS,
    ensures
        shard::registered_in(held_entries(chain, limits.push(k)), pod_id, chain[k as int])
            == held_entries(chain, limits.push(k + 1)),
{
    let before = limits.push(k);
    let after = limits.push(k + 1);
    let hash = chain[k as int];
    assert(chain.take((k + 1) as int) =~= chain.take(k as int).push(hash));
    assert(chain.take((k + 1) as int)[k as int] == hash);
    assert forall|h: BlockHash| #[trigger]
        holders(chain, after, h) == if h == hash {
            holders(chain, before, h).insert(pod_id)
        } else {
            holders(chain, before, h)
        } by {
        assert forall|p: usize| #[trigger]
            holders(chain, after, h).contains(p) <==> holders(chain, before, h).contains(p) || (h
                == hash && p == pod_id) by {
            if p < pod_id {
                assert(before[p as int] == limits[p as int] && after[p as int]
                    == limits[p as int]);
            } else if p == pod_id {
                let few = chain.take(k as int);
                let more = chain.take((k + 1) as int);
                if few.contains(h) {
                    let i = choose|i: int| 0 <= i < few.len() && few[i] == h;
                    assert(more[i] == h);
                }
                if more.contains(h) && h != hash {
                    let i = choose|i: int| 0 <= i < more.len() && more[i] == h;
                    assert(few[i] == h);
                }
            }
        }
        if h == hash {
            assert(holders(chain, after, h) =~= holders(chain, before, h).insert(pod_id));
        } else {
            assert(holders(chain, after, h) =~= holders(chain, before, h));
        }
    }
    assert(holders(chain, after, hash).contains(pod_id));
    assert(shard::registered_in(held_entries(chain, before), pod_id, hash) =~= held_entries(
        chain,
        after,
    ));
}

/// A pod that holds nothing changes nothing.
pub(crate) proof fn lemma_no_blocks(chain: Seq<BlockHash>, limits: Seq<nat>)
    ensures
        held_entries(chain, limits.push(0)) == held_entries(chain, limits),
{
    assert(chain.take(0) =~= Seq::<BlockHash>::empty());
    assert forall|h: BlockHash| #[trigger]
        holders(chain, limits.push(0), h) == holders(chain, limits, h) by {
        assert(holders(chain, limits.push(0), h) =~= holders(chain, limits, h));
    }
    assert(held_entries(chain, limits.push(0)) =~= held_entries(chain, limits));
}

/// The depth to which each candidate holds the prefixes of `cumulative_hashes`, by pod id.
pub fn longest_prefix_lengths_for_candidates(
    indexer: &ShardedBlockIndexer,
    cumulative_hashes: &[BlockHash],
    candidate_pods: HostBitmap,
) -> (lengths: Vec<usize>)
    requires
        indexer.wf(),
    ensures
        lengths@.len() == MAX_PODS,
        forall|pod_id: int|
            0 <= pod_id < MAX_PODS ==> #[trigger] lengths@[pod_id] == search::prefix_depth(
                indexer@,
                cumulative_hashes@,
                candidate_pods@,
                pod_id as usize,
            ),
{
    let mut lengths: Vec<usize> = vec![0; MAX_PODS];
    let mut stack: Vec<SearchFrame> = Vec::with_capacity(
        cumulative_hashes.len().saturating_add(1),
    );
    proof {
        candidate_pods.lemma_members_fit();
    }
    longest_prefix_lengths_into(
        indexer,
        cumulative_hashes,
        candidate_pods,
        &mut lengths,
        &mut stack,
    );
    lengths
}

/// Writes the depth to which each candidate holds the prefixes of `cumulative_hashes` into
/// `lengths`, by pod id. `stack` is scratch space.
pub fn longest_prefix_lengths_into(
    indexer: &ShardedBlockIndexer,
    cumulative_hashes: &[BlockHash],
    candidate_pods: HostBitmap,
    lengths: &mut [usize],
    stack: &mut Vec<SearchFrame>,
)
    requires
        indexer.wf(),
        search::pods_fit(candidate_pods@.intersect(indexer@.alive), old(lengths)@.len()),
    ensures
        final(stack)@.len() == 0,
        final(lengths)@.len() == old(lengths)@.len(),
        forall|pod_id: int|
            0 <= pod_id < final(lengths)@.len() ==> #[trigger] final(lengths)@[pod_id]
                == search::prefix_depth(
                indexer@,
                cumulative_hashes@,
                candidate_pods@,
                pod_id as usize,
            ),
{
    let pods = candidate_pods.and(indexer.alive());
    proof {
        search::lemma_index_is_source(indexer, cumulative_hashes@);
    }
    search::search(indexer, cumulative_hashes, pods, lengths, stack, false);
}

/// The depths that a query came to, and the work that it took.
#[derive(Clone, Debug)]
pub struct PrefixMatchDebug {
    pub lengths: Vec<usize>,
    pub frames_processed: usize,
    pub shard_lookups: usize,
    pub bitmap_intersections: usize,
}

/// As [`longest_prefix_lengths_for_candidates`], with counts of the work done.
pub fn longest_prefix_lengths_debug(
    indexer: &ShardedBlockIndexer,
    cumulative_hashes: &[BlockHash],
    candidate_pods: HostBitmap,
) -> (matched: PrefixMatchDebug)
    requires
        indexer.wf(),
    ensures
        matched.lengths@.len() == MAX_PODS,
        forall|pod_id: int|
            0 <= pod_id < MAX_PODS ==> #[trigger] matched.lengths@[pod_id] == search::prefix_depth(
                indexer@,
                cumulative_hashes@,
                candidate_pods@,
                pod_id as usize,
            ),
        matched.shard_lookups == search::prefix_probes(
            indexer@,
            cumulative_hashes@,
            candidate_pods@,
        ),
        matched.frames_processed == 1 + 2 * matched.shard_lookups,
        matched.bitmap_intersections == 1 + 2 * matched.shard_lookups,
{
    let mut lengths: Vec<usize> = vec![0; MAX_PODS];
    let mut stack: Vec<SearchFrame> = Vec::new();
    let pods = candidate_pods.and(indexer.alive());
    proof {
        candidate_pods.lemma_members_fit();
        search::lemma_index_is_source(indexer, cumulative_hashes@);
    }
    let counts = search::search(
        indexer,
        cumulative_hashes,
        pods,
        &mut lengths,
        &mut stack,
        false,
    );
    PrefixMatchDebug {
        lengths,
        frames_processed: counts.frames,
        shard_lookups: counts.lookups,
        bitmap_intersections: 1 + 2 * counts.lookups,
    }
}

/// Every hash has a shard.
pub proof fn lemma_fibonacci_shard(hash: BlockHash)
    ensures
        0 <= fibonacci_shard(hash) < SHARDS,
{
}

proof fn lemma_all_fibonacci_shards()
    ensures
        forall|hash: BlockHash| 0 <= #[trigger] fibonacci_shard(hash) < SHARDS,
{
    assert forall|hash: BlockHash| 0 <= #[trigger] fibonacci_shard(hash) < SHARDS by {
        lemma_fibonacci_shard(hash);
    }
}

/// The shard of a hash stands in the eight bits below the 64th of its product with the multiplier,
/// whatever stands above and below them.
pub proof fn lemma_fibonacci_shard_of_product(hash: BlockHash, above: int, shard: int, below: int)
    requires
        hash * 0x9E3779B97F4A7C15 == above * 0x1_0000_0000_0000_0000 + shard * 0x100_0000_0000_0000
            + below,
        0 <= shard < 256,
        0 <= below < 0x100_0000_0000_0000,
    ensures
        fibonacci_shard(hash) == shard,
{
    let size: int = 0x1_0000_0000_0000_0000;
    let low = shard * 0x100_0000_0000_0000 + below;
    vstd::arithmetic::div_mod::lemma_mod_multiples_vanish(above, low, size);
    vstd::arithmetic::div_mod::lemma_small_mod(low as nat, size as nat);
    assert((hash * 0x9E3779B97F4A7C15) % size == low);
}

/// By its low bits a hash is in the shard that is left when it is taken apart into 256s.
pub proof fn lemma_low_bits_shard_of_rest(hash: BlockHash, times: int, shard: int)
    requires
        hash == 256 * times + shard,
        0 <= shard < 256,
    ensures
        low_bits_shard(hash) == shard,
{
}

/// Where pods hold prefixes of a chain, a pod holds just those hashes that stand before its limit.
pub proof fn lemma_held_owners(
    index: IndexState,
    chain: Seq<BlockHash>,
    limits: Seq<nat>,
    hash: BlockHash,
    pod_id: usize,
)
    requires
        index.entries == held_entries(chain, limits),
        pod_id < limits.len() ==> limits[pod_id as int] <= chain.len(),
    ensures
        index.owners(hash).contains(pod_id) <==> pod_id < limits.len() && exists|k: int|
            0 <= k < limits[pod_id as int] && #[trigger] chain[k] == hash,
        index.entries.contains_key(hash) <==> exists|p: usize| index.owners(hash).contains(p),
{
    let owners = holders(chain, limits, hash);
    assert(index.owners(hash) =~= owners);
    if pod_id < limits.len() {
        let held = chain.take(limits[pod_id as int] as int);
        if held.contains(hash) {
            let k = choose|k: int| 0 <= k < held.len() && held[k] == hash;
            assert(chain[k] == hash);
        }
        if exists|k: int| 0 <= k < limits[pod_id as int] && #[trigger] chain[k] == hash {
            let k = choose|k: int| 0 <= k < limits[pod_id as int] && #[trigger] chain[k] == hash;
            assert(held[k] == hash);
        }
    }
    if owners != Set::<usize>::empty() {
        assert(exists|p: usize| owners.contains(p)) by {
            if forall|p: usize| !owners.contains(p) {
                assert(owners =~= Set::<usize>::empty());
            }
        }
    }
}

} // verus!
