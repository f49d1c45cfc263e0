//! The search for the depth to which each pod holds a chain of blocks: whole groups of pods are
//! bisected at once.
//!
//! A chain is seen as the sequence of the pod sets that own its blocks. The depth of a pod is a
//! count of blocks: depth `d` stands for the prefix made of the first `d` of them.

use vstd::arithmetic::power2::*;
use vstd::prelude::*;

use crate::bitmap;
use crate::bitmap::{HostBitmap, MAX_PODS};
use crate::hash::BlockHash;
use crate::indexer::{IndexState, ShardedBlockIndexer};
use crate::seq_lemmas;

verus! {

/// The depth that bisection between `low` and `high` finds for `pod_id`: a probe goes on above
/// where the pod owns the last block of the probed prefix, and below where it does not.
pub open spec fn bisected_depth(
    owners: Seq<Set<usize>>,
    pod_id: usize,
    low: nat,
    high: nat,
) -> nat
    decreases high - low,
{
    if low >= high {
        low
    } else {
        let probe = (low + high + 1) / 2;
        if owners[probe - 1].contains(pod_id) {
            bisected_depth(owners, pod_id, probe as nat, high)
        } else {
            bisected_depth(owners, pod_id, low, (probe - 1) as nat)
        }
    }
}

/// How many lookups it takes to bisect all of `pods` between `low` and `high`: one for each
/// group of pods that is not settled yet.
pub open spec fn probes(owners: Seq<Set<usize>>, pods: Set<usize>, low: nat, high: nat) -> nat
    decreases high - low,
{
    if low >= high || pods == Set::<usize>::empty() {
        0
    } else {
        let probe = (low + high + 1) / 2;
        let above = pods.intersect(owners[probe - 1]);
        1 + probes(owners, above, probe as nat, high) + probes(
            owners,
            pods.difference(above),
            low,
            (probe - 1) as nat,
        )
    }
}

/// How many groups of pods come up in the bisection of `pods` between `low` and `high`, where
/// groups without pods are not followed.
pub open spec fn groups(owners: Seq<Set<usize>>, pods: Set<usize>, low: nat, high: nat) -> nat
    decreases high - low,
{
    if pods == Set::<usize>::empty() {
        0
    } else if low >= high {
        1
    } else {
        let probe = (low + high + 1) / 2;
        let above = pods.intersect(owners[probe - 1]);
        1 + groups(owners, above, probe as nat, high) + groups(
            owners,
            pods.difference(above),
            low,
            (probe - 1) as nat,
        )
    }
}

/// Whether `depth` is the longest prefix of the chain of which `pod_id` owns every block.
pub open spec fn is_longest_prefix(owners: Seq<Set<usize>>, pod_id: usize, depth: nat) -> bool {
    &&& depth <= owners.len()
    &&& forall|k: int| 0 <= k < depth ==> (#[trigger] owners[k]).contains(pod_id)
    &&& depth < owners.len() ==> !owners[depth as int].contains(pod_id)
}

/// How many leading blocks of the chain `pod_id` owns in a row.
pub open spec fn leading_run(owners: Seq<Set<usize>>, pod_id: usize) -> nat
    decreases owners.len(),
{
    if owners.len() == 0 {
        0
    } else {
        let run = leading_run(owners.drop_last(), pod_id);
        if run == owners.len() - 1 && owners.last().contains(pod_id) {
            run + 1
        } else {
            run
        }
    }
}

/// Whether `pod_id` owns every block before a block that it owns.
pub open spec fn prefix_closed(owners: Seq<Set<usize>>, pod_id: usize) -> bool {
    forall|i: int, j: int|
        0 <= i <= j < owners.len() && (#[trigger] owners[j]).contains(pod_id) ==> (
        #[trigger] owners[i]).contains(pod_id)
}

/// The leading run is the longest prefix that the pod owns.
pub proof fn lemma_leading_run(owners: Seq<Set<usize>>, pod_id: usize)
    ensures
        is_longest_prefix(owners, pod_id, leading_run(owners, pod_id)),
    decreases owners.len(),
{
    if owners.len() > 0 {
        let shorter = owners.drop_last();
        lemma_leading_run(shorter, pod_id);
        let run = leading_run(shorter, pod_id);
        assert forall|k: int| 0 <= k < run implies (#[trigger] owners[k]).contains(pod_id) by {
            assert(shorter[k].contains(pod_id));
        }
        if run < shorter.len() {
            assert(shorter[run as int] == owners[run as int]);
        }
    }
}

/// A pod has only one longest prefix.
pub proof fn lemma_longest_prefix_unique(
    owners: Seq<Set<usize>>,
    pod_id: usize,
    a: nat,
    b: nat,
)
    requires
        is_longest_prefix(owners, pod_id, a),
        is_longest_prefix(owners, pod_id, b),
    ensures
        a == b,
{
    if a < b {
        assert(owners[a as int].contains(pod_id));
    }
    if b < a {
        assert(owners[b as int].contains(pod_id));
    }
}

/// Bisection ends at a drop-off: the pod owns the last block of the depth it finds, and not the
/// next one.
pub proof fn lemma_bisection_ends_at_drop_off(
    owners: Seq<Set<usize>>,
    pod_id: usize,
    low: nat,
    high: nat,
)
    requires
        low <= high <= owners.len(),
    ensures
        low <= bisected_depth(owners, pod_id, low, high) <= high,
        bisected_depth(owners, pod_id, low, high) > low ==> owners[bisected_depth(
            owners,
            pod_id,
            low,
            high,
        ) - 1].contains(pod_id),
        bisected_depth(owners, pod_id, low, high) < high ==> !owners[bisected_depth(
            owners,
            pod_id,
            low,
            high,
        ) as int].contains(pod_id),
    decreases high - low,
{
    if low < high {
        let probe = (low + high + 1) / 2;
        if owners[probe - 1].contains(pod_id) {
            lemma_bisection_ends_at_drop_off(owners, pod_id, probe as nat, high);
        } else {
            lemma_bisection_ends_at_drop_off(owners, pod_id, low, (probe - 1) as nat);
        }
    }
}

/// Where a pod owns every block before a block that it owns, bisection finds the longest prefix
/// of the chain that the pod owns.
pub proof fn lemma_bisection_finds_longest_prefix(owners: Seq<Set<usize>>, pod_id: usize)
    requires
        prefix_closed(owners, pod_id),
    ensures
        is_longest_prefix(owners, pod_id, bisected_depth(owners, pod_id, 0, owners.len())),
        bisected_depth(owners, pod_id, 0, owners.len()) == leading_run(owners, pod_id),
{
    let depth = bisected_depth(owners, pod_id, 0, owners.len());
    lemma_bisection_ends_at_drop_off(owners, pod_id, 0, owners.len());
    if depth > 0 {
        assert(owners[depth - 1].contains(pod_id));
    }
    assert(is_longest_prefix(owners, pod_id, depth));
    lemma_leading_run(owners, pod_id);
    lemma_longest_prefix_unique(owners, pod_id, depth, leading_run(owners, pod_id));
}

/// Whether each block that bisection between `low` and `high` probes on its way to `depth` is one
/// that `pod_id` owns just where it is within that depth.
pub open spec fn probes_agree(
    owners: Seq<Set<usize>>,
    pod_id: usize,
    low: nat,
    high: nat,
    depth: nat,
) -> bool
    decreases high - low,
{
    if low >= high {
        true
    } else {
        let probe = (low + high + 1) / 2;
        &&& owners[probe - 1].contains(pod_id) <==> probe <= depth
        &&& if probe <= depth {
            probes_agree(owners, pod_id, probe as nat, high, depth)
        } else {
            probes_agree(owners, pod_id, low, (probe - 1) as nat, depth)
        }
    }
}

/// Bisection finds a depth just where the blocks that it probes on its way agree with it.
pub proof fn lemma_bisection_finds_depth(
    owners: Seq<Set<usize>>,
    pod_id: usize,
    low: nat,
    high: nat,
    depth: nat,
)
    requires
        low <= depth <= high <= owners.len(),
    ensures
        bisected_depth(owners, pod_id, low, high) == depth <==> probes_agree(
            owners,
            pod_id,
            low,
            high,
            depth,
        ),
    decreases high - low,
{
    if low < high {
        let probe = (low + high + 1) / 2;
        lemma_bisection_ends_at_drop_off(owners, pod_id, probe as nat, high);
        lemma_bisection_ends_at_drop_off(owners, pod_id, low, (probe - 1) as nat);
        if probe <= depth {
            lemma_bisection_finds_depth(owners, pod_id, probe as nat, high, depth);
        } else {
            lemma_bisection_finds_depth(owners, pod_id, low, (probe - 1) as nat, depth);
        }
    }
}

/// A group of pods whose depth is known to lie between two bounds. Both bounds are depths, not
/// indexes of blocks.
#[derive(Clone, Copy, Debug)]
pub struct SearchFrame {
    pub min_prefix_depth: usize,
    pub max_prefix_depth: usize,
    pub candidate_pods: HostBitmap,
}

impl SearchFrame {
    /// The depth to be looked up next for the pods of the frame.
    pub open spec fn probe(self) -> int {
        (self.min_prefix_depth + self.max_prefix_depth + 1) / 2
    }

    /// The part of the frame that owns the probed prefix.
    pub open spec fn is_above(self, owners: Set<usize>, part: SearchFrame) -> bool {
        &&& part.min_prefix_depth == self.probe()
        &&& part.max_prefix_depth == self.max_prefix_depth
        &&& part.candidate_pods@ == self.candidate_pods@.intersect(owners)
    }

    /// The part of the frame that does not own the probed prefix.
    pub open spec fn is_below(self, owners: Set<usize>, part: SearchFrame) -> bool {
        &&& part.min_prefix_depth == self.min_prefix_depth
        &&& part.max_prefix_depth == self.probe() - 1
        &&& part.candidate_pods@ == self.candidate_pods@.difference(owners)
    }

    /// The depth to be looked up next for the pods of the frame.
    pub fn probe_prefix_depth(&self) -> (depth: usize)
        requires
            self.min_prefix_depth < self.max_prefix_depth,
        ensures
            depth == self.probe(),
            self.min_prefix_depth < depth <= self.max_prefix_depth,
    {
        self.max_prefix_depth - (self.max_prefix_depth - self.min_prefix_depth) / 2
    }

    /// Parts the frame by what was looked up for its probe: those who own the probed prefix, and
    /// the rest.
    pub fn split(&self, pods_with_probe_prefix: HostBitmap) -> (parts: (SearchFrame, SearchFrame))
        requires
            self.min_prefix_depth < self.max_prefix_depth,
        ensures
            self.is_above(pods_with_probe_prefix@, parts.0),
            self.is_below(pods_with_probe_prefix@, parts.1),
    {
        let probe_prefix_depth: usize = self.probe_prefix_depth();
        let pods_at_or_above_probe = self.candidate_pods.and(pods_with_probe_prefix);
        let pods_below_probe = self.candidate_pods.minus(pods_at_or_above_probe);
        assert(pods_below_probe@ =~= self.candidate_pods@.difference(pods_with_probe_prefix@));
        (
            SearchFrame {
                min_prefix_depth: probe_prefix_depth,
                max_prefix_depth: self.max_prefix_depth,
                candidate_pods: pods_at_or_above_probe,
            },
            SearchFrame {
                min_prefix_depth: self.min_prefix_depth,
                max_prefix_depth: probe_prefix_depth - 1,
                candidate_pods: pods_below_probe,
            },
        )
    }
}

/// `depths` with `depth` written for each of `pods`.
pub open spec fn with_depth(depths: Seq<usize>, pods: Set<usize>, depth: usize) -> Seq<usize> {
    Seq::new(
        depths.len(),
        |i: int|
            if pods.contains(i as usize) {
                depth
            } else {
                depths[i]
            },
    )
}

/// Whether each of `pods` has a place among `len` depths.
pub open spec fn pods_fit(pods: Set<usize>, len: nat) -> bool {
    forall|pod_id: usize| #[trigger] pods.contains(pod_id) ==> pod_id < len
}

/// Writes `depth` for each of `pods`.
fn write_depth(depths: &mut [usize], pods: HostBitmap, depth: usize)
    requires
        pods_fit(pods@, old(depths)@.len()),
    ensures
        final(depths)@ == with_depth(old(depths)@, pods@, depth),
{
    let members = pods.iter_set_bits();
    proof {
        bitmap::lemma_ascending(pods@);
        pods.lemma_members_fit();
    }
    let mut i: usize = 0;
    while i < members.len()
        invariant
            i <= members@.len(),
            depths@.len() == old(depths)@.len(),
            pods_fit(pods@, old(depths)@.len()),
            forall|pod_id: usize| #[trigger] members@.contains(pod_id) ==> pods@.contains(pod_id),
            forall|k: int|
                0 <= k < depths@.len() ==> #[trigger] depths@[k] == if members@.take(
                    i as int,
                ).contains(k as usize) {
                    depth
                } else {
                    old(depths)@[k]
                },
        decreases members@.len() - i,
    {
        let pod_id: usize = members[i];
        assert(members@.contains(pod_id));
        depths[pod_id] = depth;
        proof {
            seq_lemmas::lemma_take_contains(members@, i as int);
        }
        i = i + 1;
    }
    assert(members@.take(members@.len() as int) =~= members@);
    assert(depths@ =~= with_depth(old(depths)@, pods@, depth));
}

/// Sets every depth to zero.
pub(crate) fn clear_depths(depths: &mut [usize])
    ensures
        final(depths)@ == Seq::new(old(depths)@.len(), |i: int| 0usize),
{
    let mut i: usize = 0;
    while i < depths.len()
        invariant
            i <= depths@.len(),
            depths@.len() == old(depths)@.len(),
            forall|k: int| 0 <= k < i ==> depths@[k] == 0,
        decreases depths@.len() - i,
    {
        depths[i] = 0;
        i = i + 1;
    }
    assert(depths@ =~= Seq::new(old(depths)@.len(), |i: int| 0usize));
}

/// The pod sets that own the blocks of `chain`, among the living pods of `index`.
pub open spec fn chain_owners(index: IndexState, chain: Seq<BlockHash>) -> Seq<Set<usize>> {
    Seq::new(chain.len(), |i: int| index.owners_alive(chain[i]))
}

/// The depth that a search over `pods` ends with for `pod_id`.
pub open spec fn searched_depth(
    owners: Seq<Set<usize>>,
    pods: Set<usize>,
    pod_id: usize,
) -> nat {
    if pods.contains(pod_id) {
        bisected_depth(owners, pod_id, 0, owners.len())
    } else {
        0
    }
}

/// The depth to which a query gives `pod_id` the prefixes of `chain`: living candidates are
/// bisected, and everybody else has depth zero.
pub open spec fn prefix_depth(
    index: IndexState,
    chain: Seq<BlockHash>,
    candidates: Set<usize>,
    pod_id: usize,
) -> nat {
    searched_depth(chain_owners(index, chain), candidates.intersect(index.alive), pod_id)
}

/// How many lookups such a query makes.
pub open spec fn prefix_probes(
    index: IndexState,
    chain: Seq<BlockHash>,
    candidates: Set<usize>,
) -> nat {
    probes(chain_owners(index, chain), candidates.intersect(index.alive), 0, chain.len())
}

/// No depth is beyond the chain.
pub proof fn lemma_prefix_depth_bound(
    index: IndexState,
    chain: Seq<BlockHash>,
    candidates: Set<usize>,
    pod_id: usize,
)
    ensures
        prefix_depth(index, chain, candidates, pod_id) <= chain.len(),
{
    lemma_bisection_ends_at_drop_off(chain_owners(index, chain), pod_id, 0, chain.len());
}

/// Whether a frame holds nothing but pods of `pods`, between bounds that keep their depth.
spec fn frame_sound(owners: Seq<Set<usize>>, pods: Set<usize>, frame: SearchFrame) -> bool {
    &&& frame.min_prefix_depth <= frame.max_prefix_depth <= owners.len()
    &&& forall|pod_id: usize| #[trigger]
        frame.candidate_pods@.contains(pod_id) ==> pods.contains(pod_id) && bisected_depth(
            owners,
            pod_id,
            frame.min_prefix_depth as nat,
            frame.max_prefix_depth as nat,
        ) == bisected_depth(owners, pod_id, 0, owners.len())
}

/// Whether some frame still holds `pod_id`.
spec fn pending(stack: Seq<SearchFrame>, pod_id: usize) -> bool {
    exists|i: int| 0 <= i < stack.len() && (#[trigger] stack[i]).candidate_pods@.contains(pod_id)
}

/// What holds all through a search over `pods`: each pod is in one frame at most, and whoever is
/// in none has its depth.
spec fn search_sound(
    owners: Seq<Set<usize>>,
    pods: Set<usize>,
    stack: Seq<SearchFrame>,
    depths: Seq<usize>,
) -> bool {
    &&& pods_fit(pods, depths.len())
    &&& forall|i: int| 0 <= i < stack.len() ==> frame_sound(owners, pods, #[trigger] stack[i])
    &&& forall|i: int, j: int, pod_id: usize|
        0 <= i < j < stack.len() && #[trigger] stack[i].candidate_pods@.contains(pod_id)
            ==> !#[trigger] stack[j].candidate_pods@.contains(pod_id)
    &&& forall|pod_id: usize|
        pod_id < depths.len() && !(#[trigger] pending(stack, pod_id)) ==> depths[pod_id as int]
            == searched_depth(owners, pods, pod_id)
}

/// How many lookups the frames of a stack still take.
spec fn stack_probes(owners: Seq<Set<usize>>, stack: Seq<SearchFrame>) -> nat
    decreases stack.len(),
{
    if stack.len() == 0 {
        0
    } else {
        let frame = stack.last();
        stack_probes(owners, stack.drop_last()) + probes(
            owners,
            frame.candidate_pods@,
            frame.min_prefix_depth as nat,
            frame.max_prefix_depth as nat,
        )
    }
}

/// How many groups with pods the frames of a stack still come to.
spec fn stack_groups(owners: Seq<Set<usize>>, stack: Seq<SearchFrame>) -> nat
    decreases stack.len(),
{
    if stack.len() == 0 {
        0
    } else {
        let frame = stack.last();
        stack_groups(owners, stack.drop_last()) + groups(
            owners,
            frame.candidate_pods@,
            frame.min_prefix_depth as nat,
            frame.max_prefix_depth as nat,
        )
    }
}

/// What is left to be done for a stack: it shrinks with each step.
spec fn stack_work(stack: Seq<SearchFrame>) -> nat
    decreases stack.len(),
{
    if stack.len() == 0 {
        0
    } else {
        let frame = stack.last();
        stack_work(stack.drop_last()) + (2 * (frame.max_prefix_depth - frame.min_prefix_depth)
            + 1) as nat
    }
}

/// Settling the last frame keeps a search sound.
proof fn lemma_settle(
    owners: Seq<Set<usize>>,
    pods: Set<usize>,
    stack: Seq<SearchFrame>,
    depths: Seq<usize>,
)
    requires
        search_sound(owners, pods, stack, depths),
        stack.len() > 0,
    ensures
        stack.last().candidate_pods@ == Set::<usize>::empty() ==> search_sound(
            owners,
            pods,
            stack.drop_last(),
            depths,
        ),
        stack.last().min_prefix_depth == stack.last().max_prefix_depth ==> search_sound(
            owners,
            pods,
            stack.drop_last(),
            with_depth(depths, stack.last().candidate_pods@, stack.last().min_prefix_depth),
        ),
{
    let frame = stack.last();
    let rest = stack.drop_last();
    assert(frame_sound(owners, pods, stack[stack.len() - 1]));
    assert forall|i: int| 0 <= i < rest.len() implies frame_sound(
        owners,
        pods,
        #[trigger] rest[i],
    ) by {
        assert(rest[i] == stack[i]);
    }
    assert forall|pod_id: usize| #[trigger] pending(stack, pod_id) implies pending(rest, pod_id)
        || frame.candidate_pods@.contains(pod_id) by {
        let i = choose|i: int|
            0 <= i < stack.len() && (#[trigger] stack[i]).candidate_pods@.contains(pod_id);
        if i < rest.len() {
            assert(rest[i].candidate_pods@.contains(pod_id));
        }
    }
    assert forall|i: int, j: int, pod_id: usize|
        0 <= i < j < rest.len() && #[trigger] rest[i].candidate_pods@.contains(
            pod_id,
        ) implies !#[trigger] rest[j].candidate_pods@.contains(pod_id) by {
        assert(rest[i] == stack[i] && rest[j] == stack[j]);
    }
    if frame.candidate_pods@ == Set::<usize>::empty() {
        assert forall|pod_id: usize|
            pod_id < depths.len() && !(#[trigger] pending(
                rest,
                pod_id,
            )) implies depths[pod_id as int] == searched_depth(owners, pods, pod_id) by {
            assert(!pending(stack, pod_id));
        }
    }
    if frame.min_prefix_depth == frame.max_prefix_depth {
        let written = with_depth(depths, frame.candidate_pods@, frame.min_prefix_depth);
        assert forall|pod_id: usize|
            pod_id < written.len() && !(#[trigger] pending(
                rest,
                pod_id,
            )) implies written[pod_id as int] == searched_depth(owners, pods, pod_id) by {
            assert(pending(stack, pod_id) ==> frame.candidate_pods@.contains(pod_id));
        }
    }
}

/// The stack with the last frame replaced by its parts, of which one that holds no pods may be
/// left out.
spec fn split_stack(
    stack: Seq<SearchFrame>,
    above: SearchFrame,
    below: SearchFrame,
    keep_above: bool,
    keep_below: bool,
) -> Seq<SearchFrame> {
    let base = stack.drop_last();
    let with_above = if keep_above {
        base.push(above)
    } else {
        base
    };
    if keep_below {
        with_above.push(below)
    } else {
        with_above
    }
}

/// Splitting the last frame by the owners of its probe keeps a search sound.
proof fn lemma_split(
    owners: Seq<Set<usize>>,
    pods: Set<usize>,
    stack: Seq<SearchFrame>,
    depths: Seq<usize>,
    above: SearchFrame,
    below: SearchFrame,
    keep_above: bool,
    keep_below: bool,
)
    requires
        search_sound(owners, pods, stack, depths),
        stack.len() > 0,
        stack.last().min_prefix_depth < stack.last().max_prefix_depth,
        stack.last().is_above(owners[stack.last().probe() - 1], above),
        stack.last().is_below(owners[stack.last().probe() - 1], below),
        !keep_above ==> above.candidate_pods@ == Set::<usize>::empty(),
        !keep_below ==> below.candidate_pods@ == Set::<usize>::empty(),
    ensures
        search_sound(
            owners,
            pods,
            split_stack(stack, above, below, keep_above, keep_below),
            depths,
        ),
{
    let frame = stack.last();
    let base = stack.drop_last();
    let next = split_stack(stack, above, below, keep_above, keep_below);
    let n = base.len() as int;
    assert(frame_sound(owners, pods, stack[stack.len() - 1]));
    assert forall|pod_id: usize| #[trigger]
        above.candidate_pods@.contains(pod_id) implies pods.contains(pod_id) && bisected_depth(
        owners,
        pod_id,
        above.min_prefix_depth as nat,
        above.max_prefix_depth as nat,
    ) == bisected_depth(owners, pod_id, 0, owners.len()) by {
        assert(frame.candidate_pods@.contains(pod_id));
    }
    assert forall|pod_id: usize| #[trigger]
        below.candidate_pods@.contains(pod_id) implies pods.contains(pod_id) && bisected_depth(
        owners,
        pod_id,
        below.min_prefix_depth as nat,
        below.max_prefix_depth as nat,
    ) == bisected_depth(owners, pod_id, 0, owners.len()) by {
        assert(frame.candidate_pods@.contains(pod_id));
    }
    assert(frame_sound(owners, pods, above));
    assert(frame_sound(owners, pods, below));
    assert forall|i: int| 0 <= i < n implies next[i] == stack[i] by {}
    assert forall|i: int| n <= i < next.len() implies next[i] == above || next[i] == below by {}
    assert forall|i: int| 0 <= i < next.len() implies frame_sound(
        owners,
        pods,
        #[trigger] next[i],
    ) by {
        if i < n {
            assert(next[i] == stack[i]);
        }
    }
    assert forall|i: int, j: int, pod_id: usize|
        0 <= i < j < next.len() && #[trigger] next[i].candidate_pods@.contains(
            pod_id,
        ) implies !#[trigger] next[j].candidate_pods@.contains(pod_id) by {
        if j < n {
            assert(next[i] == stack[i] && next[j] == stack[j]);
        } else if i < n {
            assert(next[i] == stack[i]);
            assert(!stack[stack.len() - 1].candidate_pods@.contains(pod_id));
            assert(next[j] == above || next[j] == below);
        } else {
            assert(next[i] == above && next[j] == below);
            assert(above.candidate_pods@.contains(pod_id));
            assert(!below.candidate_pods@.contains(pod_id));
        }
    }
    assert forall|pod_id: usize| #[trigger] pending(stack, pod_id) implies pending(
        next,
        pod_id,
    ) by {
        let i = choose|i: int|
            0 <= i < stack.len() && (#[trigger] stack[i]).candidate_pods@.contains(pod_id);
        if i < n {
            assert(next[i].candidate_pods@.contains(pod_id));
        } else {
            if above.candidate_pods@.contains(pod_id) {
                assert(next[n] == above);
            } else {
                assert(below.candidate_pods@.contains(pod_id));
                assert(next[next.len() - 1] == below);
            }
        }
    }
    assert forall|pod_id: usize|
        pod_id < depths.len() && !(#[trigger] pending(next, pod_id)) implies depths[pod_id as int]
        == searched_depth(owners, pods, pod_id) by {
        assert(!pending(stack, pod_id));
    }
}

/// What splitting the last frame leaves to be done.
proof fn lemma_split_work(
    owners: Seq<Set<usize>>,
    stack: Seq<SearchFrame>,
    above: SearchFrame,
    below: SearchFrame,
    keep_above: bool,
    keep_below: bool,
)
    requires
        stack.len() > 0,
        stack.last().min_prefix_depth < stack.last().max_prefix_depth,
        stack.last().candidate_pods@ != Set::<usize>::empty(),
        stack.last().is_above(owners[stack.last().probe() - 1], above),
        stack.last().is_below(owners[stack.last().probe() - 1], below),
        !keep_above ==> above.candidate_pods@ == Set::<usize>::empty(),
        !keep_below ==> below.candidate_pods@ == Set::<usize>::empty(),
    ensures
        stack_work(split_stack(stack, above, below, keep_above, keep_below)) < stack_work(stack),
        stack_probes(owners, stack) == 1 + stack_probes(
            owners,
            split_stack(stack, above, below, keep_above, keep_below),
        ),
        stack_groups(owners, stack) == 1 + stack_groups(
            owners,
            split_stack(stack, above, below, keep_above, keep_below),
        ),
{
    let frame = stack.last();
    let base = stack.drop_last();
    let with_above = if keep_above {
        base.push(above)
    } else {
        base
    };
    let next = split_stack(stack, above, below, keep_above, keep_below);
    let probe_owners = owners[frame.probe() - 1];
    assert(frame.candidate_pods@.difference(frame.candidate_pods@.intersect(probe_owners))
        =~= frame.candidate_pods@.difference(probe_owners));
    let above_low = above.min_prefix_depth as nat;
    let above_high = above.max_prefix_depth as nat;
    let below_low = below.min_prefix_depth as nat;
    let below_high = below.max_prefix_depth as nat;
    if keep_above {
        assert(with_above.drop_last() =~= base);
        assert(with_above.last() == above);
    } else {
        assert(probes(owners, above.candidate_pods@, above_low, above_high) == 0);
        assert(groups(owners, above.candidate_pods@, above_low, above_high) == 0);
    }
    assert(stack_probes(owners, with_above) == stack_probes(owners, base) + probes(
        owners,
        above.candidate_pods@,
        above_low,
        above_high,
    ));
    assert(stack_groups(owners, with_above) == stack_groups(owners, base) + groups(
        owners,
        above.candidate_pods@,
        above_low,
        above_high,
    ));
    assert(stack_work(with_above) <= stack_work(base) + 2 * (above_high - above_low) + 1);
    if keep_below {
        assert(next.drop_last() =~= with_above);
        assert(next.last() == below);
    } else {
        assert(probes(owners, below.candidate_pods@, below_low, below_high) == 0);
        assert(groups(owners, below.candidate_pods@, below_low, below_high) == 0);
    }
    assert(stack_probes(owners, next) == stack_probes(owners, with_above) + probes(
        owners,
        below.candidate_pods@,
        below_low,
        below_high,
    ));
    assert(stack_groups(owners, next) == stack_groups(owners, with_above) + groups(
        owners,
        below.candidate_pods@,
        below_low,
        below_high,
    ));
    assert(stack_work(next) <= stack_work(with_above) + 2 * (below_high - below_low) + 1);
    assert(stack_work(stack) == stack_work(base) + 2 * (frame.max_prefix_depth
        - frame.min_prefix_depth) + 1);
}

/// How many binary digits `n` has.
pub open spec fn binary_digits(n: nat) -> nat
    decreases n,
{
    if n == 0 {
        0
    } else {
        1 + binary_digits(n / 2)
    }
}

proof fn lemma_binary_digits_monotonic(a: nat, b: nat)
    requires
        a <= b,
    ensures
        binary_digits(a) <= binary_digits(b),
    decreases b,
{
    if a > 0 {
        lemma_binary_digits_monotonic(a / 2, b / 2);
    }
}

/// A number below a power of two has no more digits than its exponent says.
proof fn lemma_binary_digits_bound(n: nat, exponent: nat)
    requires
        n < pow2(exponent),
    ensures
        binary_digits(n) <= exponent,
    decreases exponent,
{
    if exponent == 0 {
        lemma2_to64();
    } else if n > 0 {
        lemma_pow2_unfold(exponent);
        lemma_binary_digits_bound(n / 2, (exponent - 1) as nat);
    }
}

proof fn lemma_binary_digits_of_usize(n: usize)
    ensures
        binary_digits(n as nat) <= 64,
{
    lemma2_to64();
    lemma_binary_digits_bound(n as nat, 64);
}

/// A number has as many binary digits as it takes powers of two to get beyond it.
pub proof fn lemma_binary_digits(n: nat)
    ensures
        n < pow2(binary_digits(n)),
        n > 0 ==> binary_digits(n) > 0 && pow2((binary_digits(n) - 1) as nat) <= n,
        n == 0 ==> binary_digits(n) == 0,
    decreases n,
{
    lemma2_to64();
    if n > 0 {
        let half = n / 2;
        lemma_binary_digits(half);
        lemma_pow2_unfold(binary_digits(n));
        if half > 0 {
            lemma_pow2_unfold(binary_digits(half));
        }
    }
}

/// A search takes at most one lookup for each block of the chain.
pub proof fn lemma_probes_at_most_blocks(
    owners: Seq<Set<usize>>,
    pods: Set<usize>,
    low: nat,
    high: nat,
)
    requires
        low <= high,
    ensures
        probes(owners, pods, low, high) <= high - low,
    decreases high - low,
{
    if low < high && pods != Set::<usize>::empty() {
        let probe = (low + high + 1) / 2;
        let above = pods.intersect(owners[probe - 1]);
        lemma_probes_at_most_blocks(owners, above, probe as nat, high);
        lemma_probes_at_most_blocks(owners, pods.difference(above), low, (probe - 1) as nat);
    }
}

/// A search takes at most as many lookups for each pod as the length of the chain has binary
/// digits.
pub proof fn lemma_probes_logarithmic(
    owners: Seq<Set<usize>>,
    pods: Set<usize>,
    low: nat,
    high: nat,
)
    requires
        low <= high,
        pods.finite(),
    ensures
        probes(owners, pods, low, high) <= pods.len() * binary_digits((high - low) as nat),
    decreases high - low,
{
    if low < high && pods != Set::<usize>::empty() {
        let probe = (low + high + 1) / 2;
        let above = pods.intersect(owners[probe - 1]);
        let below = pods.difference(above);
        let half = ((high - low) / 2) as nat;
        lemma_probes_logarithmic(owners, above, probe as nat, high);
        lemma_probes_logarithmic(owners, below, low, (probe - 1) as nat);
        lemma_binary_digits_monotonic((high - probe) as nat, half);
        lemma_binary_digits_monotonic((probe - 1 - low) as nat, half);
        assert(above.union(below) =~= pods);
        assert(above.disjoint(below));
        vstd::set_lib::lemma_set_disjoint_lens(above, below);
        assert(pods.len() >= 1) by {
            if pods.len() == 0 {
                pods.lemma_len0_is_empty();
            }
        }
        let digits = binary_digits(half) as int;
        let a = above.len() as int;
        let b = below.len() as int;
        let above_digits = binary_digits((high - probe) as nat) as int;
        let below_digits = binary_digits((probe - 1 - low) as nat) as int;
        assert(1 + a * above_digits + b * below_digits <= (a + b) * (1 + digits))
            by (nonlinear_arith)
            requires
                above_digits <= digits,
                below_digits <= digits,
                a >= 0,
                b >= 0,
                a + b >= 1,
        ;
    } else {
        assert(pods.len() * binary_digits((high - low) as nat) >= 0) by (nonlinear_arith);
    }
}

/// How many lookups the frames of a stack can still take, whatever the answers are.
spec fn stack_bound(stack: Seq<SearchFrame>) -> nat
    decreases stack.len(),
{
    if stack.len() == 0 {
        0
    } else {
        let frame = stack.last();
        stack_bound(stack.drop_last()) + frame.candidate_pods@.len() * binary_digits(
            (frame.max_prefix_depth - frame.min_prefix_depth) as nat,
        )
    }
}

/// At the beginning of a search the bound is small.
proof fn lemma_bound_small(pods: HostBitmap, len: usize)
    ensures
        pods@.len() * binary_digits(len as nat) <= MAX_PODS * 64,
{
    pods.lemma_members_fit();
    lemma_binary_digits_of_usize(len);
    let digits = binary_digits(len as nat) as int;
    let n = pods@.len() as int;
    assert(n * digits <= 256 * 64) by (nonlinear_arith)
        requires
            0 <= n <= 256,
            0 <= digits <= 64,
    ;
}

/// Splitting the last frame takes one off the bound at least, whoever `owners` may be.
proof fn lemma_split_bound(
    stack: Seq<SearchFrame>,
    owners: Set<usize>,
    above: SearchFrame,
    below: SearchFrame,
    keep_above: bool,
    keep_below: bool,
)
    requires
        stack.len() > 0,
        stack.last().min_prefix_depth < stack.last().max_prefix_depth,
        stack.last().candidate_pods@ != Set::<usize>::empty(),
        stack.last().is_above(owners, above),
        stack.last().is_below(owners, below),
    ensures
        stack_bound(split_stack(stack, above, below, keep_above, keep_below)) + 1 <= stack_bound(
            stack,
        ),
{
    let frame = stack.last();
    let base = stack.drop_last();
    let with_above = if keep_above {
        base.push(above)
    } else {
        base
    };
    let next = split_stack(stack, above, below, keep_above, keep_below);
    let pods = frame.candidate_pods@;
    let low = frame.min_prefix_depth;
    let high = frame.max_prefix_depth;
    let half = ((high - low) / 2) as nat;
    let above_digits = binary_digits((high - above.min_prefix_depth) as nat) as int;
    let below_digits = binary_digits((below.max_prefix_depth - low) as nat) as int;
    lemma_binary_digits_monotonic((high - above.min_prefix_depth) as nat, half);
    lemma_binary_digits_monotonic((below.max_prefix_depth - low) as nat, half);
    frame.candidate_pods.lemma_members_fit();
    assert(above.candidate_pods@.union(below.candidate_pods@) =~= pods);
    assert(above.candidate_pods@.disjoint(below.candidate_pods@));
    vstd::set_lib::lemma_set_disjoint_lens(above.candidate_pods@, below.candidate_pods@);
    assert(pods.len() >= 1) by {
        if pods.len() == 0 {
            pods.lemma_len0_is_empty();
        }
    }
    let digits = binary_digits(half) as int;
    let a = above.candidate_pods@.len() as int;
    let b = below.candidate_pods@.len() as int;
    assert(1 + a * above_digits + b * below_digits <= (a + b) * (1 + digits))
        by (nonlinear_arith)
        requires
            above_digits <= digits,
            below_digits <= digits,
            a >= 0,
            b >= 0,
            a + b >= 1,
    ;
    assert(a * above_digits >= 0 && b * below_digits >= 0) by (nonlinear_arith)
        requires
            a >= 0,
            b >= 0,
            above_digits >= 0,
            below_digits >= 0,
    ;
    if keep_above {
        assert(with_above.drop_last() =~= base);
        assert(with_above.last() == above);
    }
    assert(stack_bound(with_above) <= stack_bound(base) + a * above_digits);
    if keep_below {
        assert(next.drop_last() =~= with_above);
        assert(next.last() == below);
    }
    assert(stack_bound(next) <= stack_bound(with_above) + b * below_digits);
}

/// How much work a search took.
#[derive(Clone, Copy, Debug)]
pub struct SearchCounts {
    /// How many frames were taken off the stack.
    pub frames: usize,
    /// How many times the owners of a block were looked up.
    pub lookups: usize,
}

/// How many frames a search over `pods` takes off the stack. With `prune`, parts without pods are
/// not followed.
pub open spec fn searched_frames(
    owners: Seq<Set<usize>>,
    pods: Set<usize>,
    prune: bool,
) -> nat {
    if !prune {
        2 * probes(owners, pods, 0, owners.len()) + 1
    } else if pods == Set::<usize>::empty() {
        1
    } else {
        groups(owners, pods, 0, owners.len())
    }
}

/// Whether a search over a chain of `chain_len` blocks keeps to `pods`: it has no other pods in
/// its frames, no other pod has a depth, and no depth is beyond the chain.
spec fn confined(
    pods: Set<usize>,
    chain_len: nat,
    stack: Seq<SearchFrame>,
    depths: Seq<usize>,
) -> bool {
    &&& pods_fit(pods, depths.len())
    &&& forall|i: int|
        0 <= i < stack.len() ==> {
            &&& (#[trigger] stack[i]).min_prefix_depth <= stack[i].max_prefix_depth <= chain_len
            &&& stack[i].candidate_pods@.subset_of(pods)
        }
    &&& forall|i: int|
        0 <= i < depths.len() ==> {
            &&& #[trigger] depths[i] <= chain_len
            &&& !pods.contains(i as usize) ==> depths[i] == 0
        }
}

/// A search keeps to its pods when it settles a frame, and there is less to be done then.
proof fn lemma_settle_confined(
    pods: Set<usize>,
    chain_len: nat,
    stack: Seq<SearchFrame>,
    depths: Seq<usize>,
)
    requires
        confined(pods, chain_len, stack, depths),
        stack.len() > 0,
    ensures
        confined(pods, chain_len, stack.drop_last(), depths),
        confined(
            pods,
            chain_len,
            stack.drop_last(),
            with_depth(depths, stack.last().candidate_pods@, stack.last().min_prefix_depth),
        ),
        stack_work(stack.drop_last()) < stack_work(stack),
        stack_bound(stack.drop_last()) <= stack_bound(stack),
{
    let rest = stack.drop_last();
    let frame = stack[stack.len() - 1];
    let digits = binary_digits((frame.max_prefix_depth - frame.min_prefix_depth) as nat);
    assert(rest.push(frame) =~= stack);
    assert forall|i: int| 0 <= i < rest.len() implies {
        &&& (#[trigger] rest[i]).min_prefix_depth <= rest[i].max_prefix_depth <= chain_len
        &&& rest[i].candidate_pods@.subset_of(pods)
    } by {
        assert(rest[i] == stack[i]);
    }
    assert(frame.candidate_pods@.len() * digits >= 0) by (nonlinear_arith);
}

/// A search keeps to its pods when it splits a frame, and there is less to be done then, whoever
/// `owners` may be.
proof fn lemma_split_confined(
    pods: Set<usize>,
    chain_len: nat,
    stack: Seq<SearchFrame>,
    depths: Seq<usize>,
    owners: Set<usize>,
    above: SearchFrame,
    below: SearchFrame,
    keep_above: bool,
    keep_below: bool,
)
    requires
        confined(pods, chain_len, stack, depths),
        stack.len() > 0,
        stack.last().min_prefix_depth < stack.last().max_prefix_depth,
        stack.last().is_above(owners, above),
        stack.last().is_below(owners, below),
    ensures
        confined(
            pods,
            chain_len,
            split_stack(stack, above, below, keep_above, keep_below),
            depths,
        ),
        stack_work(split_stack(stack, above, below, keep_above, keep_below)) < stack_work(stack),
{
    let base = stack.drop_last();
    let with_above = if keep_above {
        base.push(above)
    } else {
        base
    };
    let next = split_stack(stack, above, below, keep_above, keep_below);
    assert(stack[stack.len() - 1] == stack.last());
    assert forall|i: int| 0 <= i < next.len() implies {
        &&& (#[trigger] next[i]).min_prefix_depth <= next[i].max_prefix_depth <= chain_len
        &&& next[i].candidate_pods@.subset_of(pods)
    } by {
        if i < base.len() {
            assert(next[i] == stack[i]);
        } else {
            assert(next[i] == above || next[i] == below);
        }
    }
    if keep_above {
        assert(with_above.drop_last() =~= base);
        assert(with_above.last() == above);
    }
    assert(stack_work(with_above) <= stack_work(base) + 2 * (above.max_prefix_depth
        - above.min_prefix_depth) + 1);
    if keep_below {
        assert(next.drop_last() =~= with_above);
        assert(next.last() == below);
    }
    assert(stack_work(next) <= stack_work(with_above) + 2 * (below.max_prefix_depth
        - below.min_prefix_depth) + 1);
}

/// Where a search looks up who owns a block.
pub trait OwnerSource {
    /// Whether lookups can be made.
    open spec fn ready(&self) -> bool {
        true
    }

    /// Whether every lookup is answered by what `owners_of` says. An index that others update
    /// meanwhile is not steady.
    open spec fn steady(&self) -> bool {
        false
    }

    /// The living owners of a block in a steady source.
    open spec fn owners_of(&self, hash: BlockHash) -> Set<usize> {
        Set::empty()
    }

    /// Looks up the living owners of a block.
    fn look_up(&self, hash: BlockHash) -> (owners: HostBitmap)
        requires
            self.ready(),
        ensures
            self.steady() ==> owners@ == self.owners_of(hash),
    ;
}

impl OwnerSource for ShardedBlockIndexer {
    open spec fn ready(&self) -> bool {
        self.wf()
    }

    open spec fn steady(&self) -> bool {
        true
    }

    open spec fn owners_of(&self, hash: BlockHash) -> Set<usize> {
        self@.owners_alive(hash)
    }

    fn look_up(&self, hash: BlockHash) -> (owners: HostBitmap) {
        self.owners_alive(hash)
    }
}

/// The pod sets that own the blocks of `chain` in a steady source.
pub open spec fn source_owners<S: OwnerSource>(source: &S, chain: Seq<BlockHash>) -> Seq<
    Set<usize>,
> {
    Seq::new(chain.len(), |i: int| source.owners_of(chain[i]))
}

/// An index is a steady source of what it records.
pub proof fn lemma_index_is_source(indexer: &ShardedBlockIndexer, chain: Seq<BlockHash>)
    ensures
        indexer.steady(),
        source_owners(indexer, chain) == chain_owners(indexer@, chain),
{
    assert(source_owners(indexer, chain) =~= chain_owners(indexer@, chain));
}

/// Finds the depth of each of `pods` in `chain`, and leaves the depth of everybody else at zero.
/// In a steady source the depths and the work are those of grouped bisection. Whatever a source
/// answers, nobody else gets a depth, no depth is beyond the chain, and the work is bounded.
pub fn search<S: OwnerSource>(
    source: &S,
    chain: &[BlockHash],
    pods: HostBitmap,
    depths: &mut [usize],
    stack: &mut Vec<SearchFrame>,
    prune: bool,
) -> (counts: SearchCounts)
    requires
        source.ready(),
        pods_fit(pods@, old(depths)@.len()),
    ensures
        final(stack)@.len() == 0,
        final(depths)@.len() == old(depths)@.len(),
        forall|i: int|
            0 <= i < final(depths)@.len() ==> {
                &&& #[trigger] final(depths)@[i] <= chain@.len()
                &&& !pods@.contains(i as usize) ==> final(depths)@[i] == 0
                &&& source.steady() ==> final(depths)@[i] == searched_depth(
                    source_owners(source, chain@),
                    pods@,
                    i as usize,
                )
            },
        source.steady() ==> {
            &&& counts.lookups == probes(
                source_owners(source, chain@),
                pods@,
                0,
                chain@.len(),
            )
            &&& counts.frames == searched_frames(source_owners(source, chain@), pods@, prune)
        },
        counts.lookups <= pods@.len() * binary_digits(chain@.len()) <= MAX_PODS * 64,
        counts.frames <= 2 * counts.lookups + 1,
{
    let ghost owners = source_owners(source, chain@);
    let ghost total = probes(owners, pods@, 0, owners.len());
    let ghost bound = pods@.len() * binary_digits(chain@.len());
    let mut counts = SearchCounts { frames: 0, lookups: 0 };
    clear_depths(depths);
    stack.clear();
    stack.push(
        SearchFrame { min_prefix_depth: 0, max_prefix_depth: chain.len(), candidate_pods: pods },
    );
    proof {
        lemma_bound_small(pods, chain.len());
        assert(stack@.drop_last() =~= Seq::<SearchFrame>::empty());
        assert(stack@[0].candidate_pods == pods);
        assert(frame_sound(owners, pods@, stack@[0]));
        assert forall|pod_id: usize|
            pod_id < depths@.len() && !(#[trigger] pending(
                stack@,
                pod_id,
            )) implies depths@[pod_id as int] == searched_depth(owners, pods@, pod_id) by {
            assert(!stack@[0].candidate_pods@.contains(pod_id));
        }
        reveal_with_fuel(stack_probes, 2);
        reveal_with_fuel(stack_groups, 2);
        reveal_with_fuel(stack_bound, 2);
    }
    while stack.len() > 0
        invariant
            source.ready(),
            owners == source_owners(source, chain@),
            total == probes(owners, pods@, 0, owners.len()),
            bound == pods@.len() * binary_digits(chain@.len()) <= MAX_PODS * 64,
            depths@.len() == old(depths)@.len(),
            confined(pods@, chain@.len(), stack@, depths@),
            counts.lookups + stack_bound(stack@) <= bound,
            counts.frames + stack@.len() <= 2 * counts.lookups + 1,
            source.steady() ==> search_sound(owners, pods@, stack@, depths@),
            source.steady() ==> counts.lookups + stack_probes(owners, stack@) == total,
            source.steady() && !prune ==> counts.frames + 2 * stack_probes(owners, stack@)
                + stack@.len() == 2 * total + 1,
            prune && pods@ == Set::<usize>::empty() ==> counts.frames + stack@.len() == 1,
            prune && pods@ != Set::<usize>::empty() ==> forall|i: int|
                0 <= i < stack@.len() ==> (#[trigger] stack@[i]).candidate_pods@ != Set::<
                    usize,
                >::empty(),
            source.steady() && prune && pods@ != Set::<usize>::empty() ==> counts.frames
                + stack_groups(owners, stack@) == groups(owners, pods@, 0, owners.len()),
        decreases stack_work(stack@),
    {
        let ghost before = stack@;
        proof {
            let frame = before[before.len() - 1];
            assert(frame.candidate_pods@.subset_of(pods@));
            assert(source.steady() ==> frame_sound(owners, pods@, frame));
            lemma_settle_confined(pods@, chain@.len(), before, depths@);
            if source.steady() {
                lemma_settle(owners, pods@, before, depths@);
            }
        }
        let popped = stack.pop();
        counts.frames = counts.frames + 1;
        if let Some(frame) = popped {
            if frame.candidate_pods.is_empty() {
                // Nobody is left in this group.
            } else if frame.min_prefix_depth == frame.max_prefix_depth {
                write_depth(depths, frame.candidate_pods, frame.min_prefix_depth);
            } else {
                let probe_prefix_depth: usize = frame.probe_prefix_depth();
                let pods_with_probe_prefix = source.look_up(chain[probe_prefix_depth - 1]);
                counts.lookups = counts.lookups + 1;
                let (above, below) = frame.split(pods_with_probe_prefix);
                let keep_above: bool = !prune || !above.candidate_pods.is_empty();
                let keep_below: bool = !prune || !below.candidate_pods.is_empty();
                proof {
                    lemma_split_confined(
                        pods@,
                        chain@.len(),
                        before,
                        depths@,
                        pods_with_probe_prefix@,
                        above,
                        below,
                        keep_above,
                        keep_below,
                    );
                    lemma_split_bound(
                        before,
                        pods_with_probe_prefix@,
                        above,
                        below,
                        keep_above,
                        keep_below,
                    );
                    if source.steady() {
                        assert(pods_with_probe_prefix@ == owners[frame.probe() - 1]);
                        lemma_split(
                            owners,
                            pods@,
                            before,
                            depths@,
                            above,
                            below,
                            keep_above,
                            keep_below,
                        );
                        lemma_split_work(owners, before, above, below, keep_above, keep_below);
                    }
                }
                if keep_above {
                    stack.push(above);
                }
                if keep_below {
                    stack.push(below);
                }
                assert(stack@ == split_stack(before, above, below, keep_above, keep_below));
            }
        }
    }
    assert forall|i: int|
        0 <= i < depths.len() && source.steady() implies #[trigger] depths@[i]
        == searched_depth(owners, pods@, i as usize) by {
        assert(!pending(stack@, i as usize));
    }
    counts
}

/// Bisection looks at nothing before its range: it finds the same in what is left of the chain.
proof fn lemma_skipped_blocks(
    owners: Seq<Set<usize>>,
    pods: Set<usize>,
    pod_id: usize,
    skipped: nat,
    low: nat,
    high: nat,
)
    requires
        low <= high,
        skipped + high <= owners.len(),
    ensures
        bisected_depth(owners, pod_id, skipped + low, skipped + high) == skipped + bisected_depth(
            owners.skip(skipped as int),
            pod_id,
            low,
            high,
        ),
        probes(owners, pods, skipped + low, skipped + high) == probes(
            owners.skip(skipped as int),
            pods,
            low,
            high,
        ),
        groups(owners, pods, skipped + low, skipped + high) == groups(
            owners.skip(skipped as int),
            pods,
            low,
            high,
        ),
    decreases high - low,
{
    if low < high {
        let rest = owners.skip(skipped as int);
        let probe = (low + high + 1) / 2;
        assert((skipped + low + skipped + high + 1) / 2 == skipped + probe);
        assert(owners[skipped + probe - 1] == rest[probe - 1]);
        let above = pods.intersect(rest[probe - 1]);
        let below = pods.difference(above);
        lemma_skipped_blocks(owners, above, pod_id, skipped, probe as nat, high);
        lemma_skipped_blocks(owners, below, pod_id, skipped, low, (probe - 1) as nat);
    }
}

/// Bisection looks at nothing behind its range.
proof fn lemma_blocks_behind(
    owners: Seq<Set<usize>>,
    pods: Set<usize>,
    pod_id: usize,
    count: int,
    low: nat,
    high: nat,
)
    requires
        low <= high <= count <= owners.len(),
    ensures
        bisected_depth(owners, pod_id, low, high) == bisected_depth(
            owners.take(count),
            pod_id,
            low,
            high,
        ),
        probes(owners, pods, low, high) == probes(owners.take(count), pods, low, high),
        groups(owners, pods, low, high) == groups(owners.take(count), pods, low, high),
    decreases high - low,
{
    if low < high {
        let part = owners.take(count);
        let probe = (low + high + 1) / 2;
        assert(owners[probe - 1] == part[probe - 1]);
        let above = pods.intersect(part[probe - 1]);
        let below = pods.difference(above);
        lemma_blocks_behind(owners, above, pod_id, count, probe as nat, high);
        lemma_blocks_behind(owners, below, pod_id, count, low, (probe - 1) as nat);
    }
}

/// The block in the middle of a chain decides, or the one behind the middle where two are there.
/// Whoever owns it has all blocks up to it and what is found in the rest of the chain, and whoever
/// does not has what is found in the part before it.
pub proof fn lemma_middle_block_decides(owners: Seq<Set<usize>>, pod_id: usize, middle: int)
    requires
        owners.len() > 0,
        2 * middle == owners.len() || 2 * middle == owners.len() + 1,
    ensures
        owners[middle - 1].contains(pod_id) ==> bisected_depth(owners, pod_id, 0, owners.len())
            == middle + bisected_depth(
            owners.skip(middle),
            pod_id,
            0,
            owners.skip(middle).len(),
        ),
        !owners[middle - 1].contains(pod_id) ==> bisected_depth(owners, pod_id, 0, owners.len())
            == bisected_depth(
            owners.take(middle - 1),
            pod_id,
            0,
            owners.take(middle - 1).len(),
        ),
{
    let n = owners.len();
    lemma_skipped_blocks(owners, Set::empty(), pod_id, middle as nat, 0, (n - middle) as nat);
    lemma_blocks_behind(owners, Set::empty(), pod_id, middle - 1, 0, (middle - 1) as nat);
}

/// The lookups of a search, and the groups that come up in it, are those of one lookup in the
/// middle and of a search on each side: in the rest of the chain for those who own the block in the
/// middle, and in the part before it for the others.
pub proof fn lemma_search_by_halves(owners: Seq<Set<usize>>, pods: Set<usize>, middle: int)
    requires
        owners.len() > 0,
        2 * middle == owners.len() || 2 * middle == owners.len() + 1,
        pods != Set::<usize>::empty(),
    ensures
        ({
            let above = pods.intersect(owners[middle - 1]);
            let below = pods.difference(owners[middle - 1]);
            let rest = owners.skip(middle);
            let part = owners.take(middle - 1);
            &&& probes(owners, pods, 0, owners.len()) == 1 + probes(rest, above, 0, rest.len())
                + probes(part, below, 0, part.len())
            &&& groups(owners, pods, 0, owners.len()) == 1 + groups(rest, above, 0, rest.len())
                + groups(part, below, 0, part.len())
        }),
{
    let n = owners.len();
    let above = pods.intersect(owners[middle - 1]);
    let below = pods.difference(owners[middle - 1]);
    assert(pods.difference(above) =~= below);
    lemma_skipped_blocks(owners, above, 0, middle as nat, 0, (n - middle) as nat);
    lemma_blocks_behind(owners, below, 0, middle - 1, 0, (middle - 1) as nat);
}

} // verus!
