//! One shard of the block index: which pods hold which block.

use std::collections::HashMap;

use vstd::prelude::*;

use crate::bitmap::{HostBitmap, MAX_PODS};
use crate::hash::BlockHash;
use crate::seq_lemmas;

verus! {

broadcast use vstd::std_specs::hash::group_hash_axioms;

/// `pods` with `pod_id` added, where it fits into a bitmap.
pub open spec fn add_pod(pods: Set<usize>, pod_id: usize) -> Set<usize> {
    if pod_id < MAX_PODS {
        pods.insert(pod_id)
    } else {
        pods
    }
}

/// The owners that `entries` gives to `hash`: nobody where there is no entry.
pub open spec fn owners_in(entries: Map<BlockHash, Set<usize>>, hash: BlockHash) -> Set<usize> {
    if entries.contains_key(hash) {
        entries[hash]
    } else {
        Set::empty()
    }
}

/// `entries` after `pod_id` has taken `hash` into its cache. There is an entry for `hash` from
/// then on, also where the pod id does not fit.
pub open spec fn registered_in(
    entries: Map<BlockHash, Set<usize>>,
    pod_id: usize,
    hash: BlockHash,
) -> Map<BlockHash, Set<usize>> {
    entries.insert(hash, add_pod(owners_in(entries, hash), pod_id))
}

/// `entries` after `pod_id` has dropped `hash` from its cache. An entry that is left without
/// owners goes.
pub open spec fn evicted_in(
    entries: Map<BlockHash, Set<usize>>,
    pod_id: usize,
    hash: BlockHash,
) -> Map<BlockHash, Set<usize>> {
    if !entries.contains_key(hash) {
        entries
    } else if entries[hash].remove(pod_id) == Set::<usize>::empty() {
        entries.remove(hash)
    } else {
        entries.insert(hash, entries[hash].remove(pod_id))
    }
}

/// `entries` after `pod_id` has been struck from each of them. Entries that are left without
/// owners go.
pub open spec fn cleaned_in(entries: Map<BlockHash, Set<usize>>, pod_id: usize) -> Map<
    BlockHash,
    Set<usize>,
> {
    Map::new(
        |hash: BlockHash|
            entries.contains_key(hash) && entries[hash].remove(pod_id) != Set::<usize>::empty(),
        |hash: BlockHash| entries[hash].remove(pod_id),
    )
}

/// A map from block hashes to the pods that hold the block.
pub struct Shard {
    blocks: HashMap<BlockHash, HostBitmap>,
}

impl View for Shard {
    type V = Map<BlockHash, Set<usize>>;

    closed spec fn view(&self) -> Map<BlockHash, Set<usize>> {
        self.blocks@.map_values(|owners: HostBitmap| owners@)
    }
}

impl Shard {
    /// The shard without entries.
    pub fn new() -> (shard: Self)
        ensures
            shard@ == Map::<BlockHash, Set<usize>>::empty(),
    {
        let shard = Self { blocks: HashMap::new() };
        assert(shard@ =~= Map::<BlockHash, Set<usize>>::empty());
        shard
    }

    /// Records that `pod_id` holds `hash`.
    pub fn register(&mut self, pod_id: usize, hash: BlockHash)
        ensures
            final(self)@ == registered_in(old(self)@, pod_id, hash),
    {
        self.blocks.entry(hash).or_insert(HostBitmap::empty()).set(pod_id);
        assert(self@ =~= registered_in(old(self)@, pod_id, hash));
    }

    /// Records that `pod_id` no longer holds `hash`.
    pub fn evict(&mut self, pod_id: usize, hash: BlockHash)
        ensures
            final(self)@ == evicted_in(old(self)@, pod_id, hash),
    {
        let found: Option<HostBitmap> = match self.blocks.get(&hash) {
            Some(owners) => Some(*owners),
            None => None,
        };
        if let Some(owners) = found {
            let mut owners = owners;
            owners.clear(pod_id);
            if owners.is_empty() {
                self.blocks.remove(&hash);
            } else {
                self.blocks.insert(hash, owners);
            }
        }
        assert(self@ =~= evicted_in(old(self)@, pod_id, hash));
    }

    /// The pods that hold `hash`.
    pub fn owners(&self, hash: BlockHash) -> (owners: HostBitmap)
        ensures
            owners@ == owners_in(self@, hash),
    {
        match self.blocks.get(&hash) {
            Some(owners) => *owners,
            None => HostBitmap::empty(),
        }
    }

    /// How many entries there are.
    pub fn len(&self) -> (count: usize)
        ensures
            self@.dom().finite(),
            count == self@.dom().len(),
    {
        assert(self@.dom() =~= self.blocks@.dom());
        self.blocks.len()
    }

    /// Strikes `pod_id` from every entry.
    pub fn cleanup_dead_pod(&mut self, pod_id: usize)
        ensures
            final(self)@ == cleaned_in(old(self)@, pod_id),
    {
        let mut hashes: Vec<BlockHash> = Vec::new();
        for hash in keys: self.blocks.keys()
            invariant
                hashes@.len() == keys.index(),
                forall|i: int| 0 <= i < hashes@.len() ==> hashes@[i] == *keys.seq()[i],
        {
            hashes.push(*hash);
        }
        assert(forall|hash: BlockHash| old(self)@.contains_key(hash) ==> hashes@.contains(hash));
        let mut i: usize = 0;
        while i < hashes.len()
            invariant
                i <= hashes@.len(),
                forall|hash: BlockHash| #[trigger]
                    self@.contains_key(hash) <==> {
                        if hashes@.take(i as int).contains(hash) {
                            cleaned_in(old(self)@, pod_id).contains_key(hash)
                        } else {
                            old(self)@.contains_key(hash)
                        }
                    },
                forall|hash: BlockHash| #[trigger]
                    self@.contains_key(hash) ==> self@[hash] == {
                        if hashes@.take(i as int).contains(hash) {
                            old(self)@[hash].remove(pod_id)
                        } else {
                            old(self)@[hash]
                        }
                    },
            decreases hashes@.len() - i,
        {
            self.evict(pod_id, hashes[i]);
            proof {
                seq_lemmas::lemma_take_contains(hashes@, i as int);
                assert(old(self)@[hashes@[i as int]].remove(pod_id).remove(pod_id) =~= old(
                    self,
                )@[hashes@[i as int]].remove(pod_id));
            }
            i = i + 1;
        }
        assert(hashes@.take(hashes@.len() as int) =~= hashes@);
        assert(self@ =~= cleaned_in(old(self)@, pod_id));
    }
}

} // verus!
