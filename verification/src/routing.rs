//! Routing in phases: prepare a request, filter the pods, score them, pick, and execute.

use vstd::prelude::*;

use crate::bitmap;
use crate::bitmap::{HostBitmap, MAX_PODS};
use crate::hash;
use crate::hash::BlockHash;
use crate::indexer;
use crate::indexer::{IndexState, ShardedBlockIndexer};
use crate::search;
use crate::text;
use crate::types::{
    ExecutionPlan, FilteredCandidates, Mode, PickedPod, Pod, PodRole, PreparedRequest, RouteResult,
    ScoredCandidate,
};

verus! {

/// Hashes the prompt of a request.
pub fn prepare(prompt: &str) -> (prepared: PreparedRequest)
    ensures
        prepared.prompt@ == prompt@,
        prepared.cumulative_hashes@ == hash::prompt_chain(prompt@),
{
    PreparedRequest {
        prompt: prompt.to_owned(),
        cumulative_hashes: hash::prompt_to_cumulative_hashes(prompt),
    }
}

/// Whether a pod of role `role` can do what is `wanted`.
pub open spec fn serves(role: PodRole, wanted: PodRole) -> bool {
    role == wanted || role == PodRole::Both
}

/// The ids of the pods that can do what is `wanted`, as far as they fit into a bitmap.
pub open spec fn role_pods(pods: Seq<Pod>, wanted: PodRole) -> Set<usize> {
    Set::new(
        |pod_id: usize|
            pod_id < MAX_PODS && exists|i: int|
                0 <= i < pods.len() && (#[trigger] pods[i]).id == pod_id && serves(
                    pods[i].role,
                    wanted,
                ),
    )
}

/// The pods that can do what is `wanted`.
pub fn role_candidates(pods: &[Pod], wanted: PodRole) -> (candidates: HostBitmap)
    ensures
        candidates@ == role_pods(pods@, wanted),
{
    let mut candidates = HostBitmap::empty();
    let mut i: usize = 0;
    while i < pods.len()
        invariant
            i <= pods@.len(),
            forall|pod_id: usize| #[trigger]
                candidates@.contains(pod_id) <==> role_pods(pods@.take(i as int), wanted).contains(
                    pod_id,
                ),
        decreases pods@.len() - i,
    {
        let pod = &pods[i];
        let matching: bool = match wanted {
            PodRole::Both => pod.role == PodRole::Both,
            PodRole::Prefill => pod.role == PodRole::Prefill || pod.role == PodRole::Both,
            PodRole::Decode => pod.role == PodRole::Decode || pod.role == PodRole::Both,
        };
        let ghost before = candidates@;
        if matching {
            candidates.set(pod.id);
        }
        proof {
            let few = pods@.take(i as int);
            let more = pods@.take(i + 1);
            assert(more[i as int] == *pod);
            assert forall|pod_id: usize| #[trigger]
                candidates@.contains(pod_id) <==> role_pods(more, wanted).contains(pod_id) by {
                if role_pods(few, wanted).contains(pod_id) {
                    let k = choose|k: int|
                        0 <= k < few.len() && (#[trigger] few[k]).id == pod_id && serves(
                            few[k].role,
                            wanted,
                        );
                    assert(more[k] == few[k]);
                }
                if role_pods(more, wanted).contains(pod_id) {
                    let k = choose|k: int|
                        0 <= k < more.len() && (#[trigger] more[k]).id == pod_id && serves(
                            more[k].role,
                            wanted,
                        );
                    if k < i {
                        assert(few[k] == more[k]);
                    }
                }
                assert(before.contains(pod_id) <==> role_pods(few, wanted).contains(pod_id));
            }
        }
        i = i + 1;
    }
    assert(pods@.take(pods@.len() as int) =~= pods@);
    assert(candidates@ =~= role_pods(pods@, wanted));
    candidates
}

/// The roles that a request needs in `mode`.
pub open spec fn roles_needed(mode: Mode) -> Seq<PodRole> {
    match mode {
        Mode::Single => seq![PodRole::Both],
        Mode::Disaggregated => seq![PodRole::Prefill, PodRole::Decode],
    }
}

/// The living pods that can do what is `wanted`.
pub open spec fn living_pods(index: IndexState, pods: Seq<Pod>, wanted: PodRole) -> Set<usize> {
    role_pods(pods, wanted).intersect(index.alive)
}

/// Finds the living pods for each role that a request needs.
pub fn filter(pods: &[Pod], indexer: &ShardedBlockIndexer, mode: Mode) -> (filtered: Vec<
    FilteredCandidates,
>)
    ensures
        filtered@.len() == roles_needed(mode).len(),
        forall|i: int|
            0 <= i < filtered@.len() ==> {
                &&& (#[trigger] filtered@[i]).role == roles_needed(mode)[i]
                &&& filtered@[i].candidate_pods@ == living_pods(
                    indexer@,
                    pods@,
                    roles_needed(mode)[i],
                )
            },
{
    match mode {
        Mode::Single => vec![
            FilteredCandidates {
                role: PodRole::Both,
                candidate_pods: role_candidates(pods, PodRole::Both).and(indexer.alive()),
            },
        ],
        Mode::Disaggregated => vec![
            FilteredCandidates {
                role: PodRole::Prefill,
                candidate_pods: role_candidates(pods, PodRole::Prefill).and(indexer.alive()),
            },
            FilteredCandidates {
                role: PodRole::Decode,
                candidate_pods: role_candidates(pods, PodRole::Decode).and(indexer.alive()),
            },
        ],
    }
}

/// What a pod gets for its place besides its cache: a decoding pod gets one point where some
/// other pod does more than decode.
pub open spec fn bonus(pods: Seq<Pod>, pod_id: usize, role: PodRole, mode: Mode) -> nat {
    if mode == Mode::Disaggregated && role == PodRole::Decode && exists|i: int|
        0 <= i < pods.len() && (#[trigger] pods[i]).role != PodRole::Decode && pods[i].id
            != pod_id {
        1
    } else {
        0
    }
}

/// What a pod gets for its place besides its cache.
pub fn locality_bonus(pods: &[Pod], pod_id: usize, role: PodRole, mode: Mode) -> (points: usize)
    ensures
        points == bonus(pods@, pod_id, role, mode),
{
    if mode == Mode::Disaggregated && role == PodRole::Decode {
        let mut i: usize = 0;
        while i < pods.len()
            invariant
                mode == Mode::Disaggregated,
                role == PodRole::Decode,
                i <= pods@.len(),
                forall|k: int|
                    0 <= k < i ==> !((#[trigger] pods@[k]).role != PodRole::Decode && pods@[k].id
                        != pod_id),
            decreases pods@.len() - i,
        {
            if pods[i].role != PodRole::Decode && pods[i].id != pod_id {
                return 1;
            }
            i = i + 1;
        }
    }
    0
}

/// The score of `pod_id` among `candidates` for a role: a hundred points for each block of the
/// prefix that it holds, and its bonus.
pub open spec fn score_of(
    index: IndexState,
    chain: Seq<BlockHash>,
    pods: Seq<Pod>,
    mode: Mode,
    candidates: Set<usize>,
    role: PodRole,
    pod_id: usize,
) -> nat {
    search::prefix_depth(index, chain, candidates, pod_id) * 100 + bonus(pods, pod_id, role, mode)
}

/// Whether `scored` are the candidates for a role in ascending order, each with its score.
pub open spec fn is_scored(
    index: IndexState,
    chain: Seq<BlockHash>,
    pods: Seq<Pod>,
    mode: Mode,
    candidates: Set<usize>,
    role: PodRole,
    scored: Seq<ScoredCandidate>,
) -> bool {
    let members = bitmap::ascending(candidates);
    &&& scored.len() == members.len()
    &&& forall|k: int|
        0 <= k < scored.len() ==> {
            &&& (#[trigger] scored[k]).pod_id == members[k]
            &&& scored[k].prefix_len == search::prefix_depth(index, chain, candidates, members[k])
            &&& scored[k].score == score_of(
                index,
                chain,
                pods,
                mode,
                candidates,
                role,
                members[k],
            )
        }
}

/// Whether the scores of all `candidates` fit.
pub open spec fn role_scores_fit(
    index: IndexState,
    chain: Seq<BlockHash>,
    pods: Seq<Pod>,
    mode: Mode,
    candidates: Set<usize>,
    role: PodRole,
) -> bool {
    forall|pod_id: usize|
        candidates.contains(pod_id) ==> #[trigger] score_of(
            index,
            chain,
            pods,
            mode,
            candidates,
            role,
            pod_id,
        ) <= usize::MAX
}

/// Whether all scores fit. They do where the chain is not absurdly long.
pub open spec fn scores_fit(
    index: IndexState,
    chain: Seq<BlockHash>,
    pods: Seq<Pod>,
    mode: Mode,
    filtered: Seq<FilteredCandidates>,
) -> bool {
    ||| chain.len() * 100 < usize::MAX
    ||| forall|i: int|
        0 <= i < filtered.len() ==> role_scores_fit(
            index,
            chain,
            pods,
            mode,
            (#[trigger] filtered[i]).candidate_pods@,
            filtered[i].role,
        )
}

/// Scores the candidates of one role.
fn score_role(
    indexer: &ShardedBlockIndexer,
    chain: &[BlockHash],
    pods: &[Pod],
    candidates: &FilteredCandidates,
    mode: Mode,
) -> (scored: Vec<ScoredCandidate>)
    requires
        indexer.wf(),
        role_scores_fit(
            indexer@,
            chain@,
            pods@,
            mode,
            candidates.candidate_pods@,
            candidates.role,
        ),
    ensures
        is_scored(
            indexer@,
            chain@,
            pods@,
            mode,
            candidates.candidate_pods@,
            candidates.role,
            scored@,
        ),
{
    let prefix_lengths = indexer::longest_prefix_lengths_for_candidates(
        indexer,
        chain,
        candidates.candidate_pods,
    );
    let members = candidates.candidate_pods.iter_set_bits();
    let mut scored: Vec<ScoredCandidate> = Vec::with_capacity(members.len());
    proof {
        bitmap::lemma_ascending(candidates.candidate_pods@);
    }
    let mut i: usize = 0;
    while i < members.len()
        invariant
            i <= members@.len(),
            members@ == bitmap::ascending(candidates.candidate_pods@),
            forall|pod_id: usize| #[trigger]
                members@.contains(pod_id) ==> candidates.candidate_pods@.contains(pod_id) && pod_id
                    < MAX_PODS,
            role_scores_fit(
                indexer@,
                chain@,
                pods@,
                mode,
                candidates.candidate_pods@,
                candidates.role,
            ),
            prefix_lengths@.len() == MAX_PODS,
            forall|pod_id: int|
                0 <= pod_id < MAX_PODS ==> #[trigger] prefix_lengths@[pod_id]
                    == search::prefix_depth(
                    indexer@,
                    chain@,
                    candidates.candidate_pods@,
                    pod_id as usize,
                ),
            scored@.len() == i,
            forall|k: int|
                0 <= k < i ==> {
                    &&& (#[trigger] scored@[k]).pod_id == members@[k]
                    &&& scored@[k].prefix_len == search::prefix_depth(
                        indexer@,
                        chain@,
                        candidates.candidate_pods@,
                        members@[k],
                    )
                    &&& scored@[k].score == score_of(
                        indexer@,
                        chain@,
                        pods@,
                        mode,
                        candidates.candidate_pods@,
                        candidates.role,
                        members@[k],
                    )
                },
        decreases members@.len() - i,
    {
        let pod_id: usize = members[i];
        assert(members@.contains(pod_id));
        let prefix_len: usize = prefix_lengths[pod_id];
        let locality: usize = locality_bonus(pods, pod_id, candidates.role, mode);
        assert(score_of(
            indexer@,
            chain@,
            pods@,
            mode,
            candidates.candidate_pods@,
            candidates.role,
            pod_id,
        ) <= usize::MAX);
        scored.push(ScoredCandidate { pod_id, prefix_len, score: prefix_len * 100 + locality });
        i = i + 1;
    }
    scored
}

/// Scores the candidates of each role.
pub fn score(
    indexer: &ShardedBlockIndexer,
    prepared: &PreparedRequest,
    pods: &[Pod],
    filtered: &[FilteredCandidates],
    mode: Mode,
) -> (scored: Vec<Vec<ScoredCandidate>>)
    requires
        indexer.wf(),
        scores_fit(indexer@, prepared.cumulative_hashes@, pods@, mode, filtered@),
    ensures
        scored@.len() == filtered@.len(),
        forall|i: int|
            0 <= i < filtered@.len() ==> is_scored(
                indexer@,
                prepared.cumulative_hashes@,
                pods@,
                mode,
                filtered@[i].candidate_pods@,
                filtered@[i].role,
                #[trigger] scored@[i]@,
            ),
{
    let ghost chain = prepared.cumulative_hashes@;
    let mut scored: Vec<Vec<ScoredCandidate>> = Vec::with_capacity(filtered.len());
    let mut i: usize = 0;
    while i < filtered.len()
        invariant
            i <= filtered@.len(),
            indexer.wf(),
            chain == prepared.cumulative_hashes@,
            scores_fit(indexer@, chain, pods@, mode, filtered@),
            scored@.len() == i,
            forall|k: int|
                0 <= k < i ==> is_scored(
                    indexer@,
                    chain,
                    pods@,
                    mode,
                    filtered@[k].candidate_pods@,
                    filtered@[k].role,
                    #[trigger] scored@[k]@,
                ),
        decreases filtered@.len() - i,
    {
        proof {
            let candidates = filtered@[i as int];
            assert forall|pod_id: usize|
                candidates.candidate_pods@.contains(pod_id) implies #[trigger] score_of(
                indexer@,
                chain,
                pods@,
                mode,
                candidates.candidate_pods@,
                candidates.role,
                pod_id,
            ) <= usize::MAX by {
                search::lemma_prefix_depth_bound(
                    indexer@,
                    chain,
                    candidates.candidate_pods@,
                    pod_id,
                );
            }
        }
        scored.push(
            score_role(indexer, prepared.cumulative_hashes.as_slice(), pods, &filtered[i], mode),
        );
        i = i + 1;
    }
    scored
}

/// Whether pod `a` is preferred to pod `b` by their scores, or is the same: one that is near goes
/// before one that is not, then the higher score, then the smaller id.
pub open spec fn ranks(
    near: Set<usize>,
    a: usize,
    a_score: nat,
    b: usize,
    b_score: nat,
) -> bool {
    if near.contains(a) != near.contains(b) {
        near.contains(a)
    } else if a_score != b_score {
        a_score > b_score
    } else {
        a <= b
    }
}

/// Whether the candidate at `k` ranks with all of `scores`.
pub open spec fn is_top(scores: Seq<ScoredCandidate>, near: Set<usize>, k: int) -> bool {
    &&& 0 <= k < scores.len()
    &&& forall|j: int|
        0 <= j < scores.len() ==> ranks(
            near,
            scores[k].pod_id,
            scores[k].score as nat,
            (#[trigger] scores[j]).pod_id,
            scores[j].score as nat,
        )
}

/// Whether `pod_id` is the pod to pick out of `scores`.
pub open spec fn is_pick(scores: Seq<ScoredCandidate>, near: Set<usize>, pod_id: usize) -> bool {
    exists|k: int| #[trigger] is_top(scores, near, k) && scores[k].pod_id == pod_id
}

/// There is one pod to pick at most.
pub proof fn lemma_pick_unique(
    scores: Seq<ScoredCandidate>,
    near: Set<usize>,
    a: usize,
    b: usize,
)
    requires
        is_pick(scores, near, a),
        is_pick(scores, near, b),
    ensures
        a == b,
{
}

/// Picks the candidate with the highest score, and of several the one with the smallest id.
pub fn pick_best(scores: &[ScoredCandidate]) -> (picked: Option<PickedPod>)
    ensures
        picked is None <==> scores@.len() == 0,
        picked matches Some(picked) ==> is_pick(scores@, Set::empty(), picked.pod_id),
{
    if scores.len() == 0 {
        return None;
    }
    let mut top: usize = 0;
    let mut i: usize = 1;
    while i < scores.len()
        invariant
            top < i <= scores@.len(),
            forall|j: int|
                0 <= j < i ==> ranks(
                    Set::empty(),
                    scores@[top as int].pod_id,
                    scores@[top as int].score as nat,
                    (#[trigger] scores@[j]).pod_id,
                    scores@[j].score as nat,
                ),
        decreases scores@.len() - i,
    {
        if scores[i].score > scores[top].score || (scores[i].score == scores[top].score
            && scores[i].pod_id <= scores[top].pod_id) {
            top = i;
        }
        i = i + 1;
    }
    assert(is_top(scores@, Set::empty(), top as int));
    Some(PickedPod { pod_id: scores[top].pod_id })
}

/// The node of the first pod in the list with id `pod_id`.
pub open spec fn node_of(pods: Seq<Pod>, pod_id: usize) -> Option<Seq<char>>
    decreases pods.len(),
{
    if pods.len() == 0 {
        None
    } else if pods[0].id == pod_id {
        Some(pods[0].node@)
    } else {
        node_of(pods.skip(1), pod_id)
    }
}

/// The pods on `node`.
pub open spec fn pods_on(pods: Seq<Pod>, node: Seq<char>) -> Set<usize> {
    Set::new(|pod_id: usize| node_of(pods, pod_id) == Some(node))
}

/// Finds the node of a pod.
fn find_node(pods: &[Pod], pod_id: usize) -> (node: Option<&'static str>)
    ensures
        match node {
            Some(node) => node_of(pods@, pod_id) == Some(node@),
            None => node_of(pods@, pod_id) is None,
        },
{
    let mut i: usize = 0;
    assert(pods@.skip(0) =~= pods@);
    while i < pods.len()
        invariant
            i <= pods@.len(),
            node_of(pods@, pod_id) == node_of(pods@.skip(i as int), pod_id),
        decreases pods@.len() - i,
    {
        assert(pods@.skip(i as int).skip(1) =~= pods@.skip(i + 1));
        if pods[i].id == pod_id {
            return Some(pods[i].node);
        }
        i = i + 1;
    }
    None
}

/// Whether a pod is on `node`.
fn is_on_node(pods: &[Pod], pod_id: usize, node: &str) -> (near: bool)
    ensures
        near == pods_on(pods@, node@).contains(pod_id),
{
    match find_node(pods, pod_id) {
        Some(own) => text::same_text(own, node),
        None => false,
    }
}

/// Picks a candidate on the node of `prefill_pod` if there is one, and among those that are left
/// the one with the highest score, and of several the one with the smallest id.
pub fn pick_decode(pods: &[Pod], scores: &[ScoredCandidate], prefill_pod: usize) -> (picked: Option<
    PickedPod,
>)
    ensures
        picked is None <==> node_of(pods@, prefill_pod) is None || scores@.len() == 0,
        picked matches Some(picked) ==> is_pick(
            scores@,
            pods_on(pods@, node_of(pods@, prefill_pod)->0),
            picked.pod_id,
        ),
{
    let node = match find_node(pods, prefill_pod) {
        Some(node) => node,
        None => {
            return None;
        },
    };
    if scores.len() == 0 {
        return None;
    }
    let ghost near = pods_on(pods@, node@);
    let mut top: usize = 0;
    let mut top_near: bool = is_on_node(pods, scores[0].pod_id, node);
    let mut i: usize = 1;
    while i < scores.len()
        invariant
            near == pods_on(pods@, node@),
            top < i <= scores@.len(),
            top_near == near.contains(scores@[top as int].pod_id),
            forall|j: int|
                0 <= j < i ==> ranks(
                    near,
                    scores@[top as int].pod_id,
                    scores@[top as int].score as nat,
                    (#[trigger] scores@[j]).pod_id,
                    scores@[j].score as nat,
                ),
        decreases scores@.len() - i,
    {
        let next_near: bool = is_on_node(pods, scores[i].pod_id, node);
        let preferred: bool = if next_near != top_near {
            next_near
        } else if scores[i].score != scores[top].score {
            scores[i].score > scores[top].score
        } else {
            scores[i].pod_id <= scores[top].pod_id
        };
        if preferred {
            top = i;
            top_near = next_near;
        }
        i = i + 1;
    }
    assert(is_top(scores@, near, top as int));
    Some(PickedPod { pod_id: scores[top].pod_id })
}

/// Whether `plan` is what the scores of the needed roles lead to: the best pod, or the best pod
/// for the prefill and the best one for the decoding, for which the node of the first counts
/// most. There is no plan where a role has no candidate or the node of the prefilling pod is not
/// known.
pub open spec fn is_plan(
    pods: Seq<Pod>,
    scored: Seq<Vec<ScoredCandidate>>,
    mode: Mode,
    plan: Option<ExecutionPlan>,
) -> bool {
    match (mode, plan) {
        (Mode::Single, None) => scored[0]@.len() == 0,
        (Mode::Single, Some(ExecutionPlan::Single { pod_id })) => is_pick(
            scored[0]@,
            Set::empty(),
            pod_id,
        ),
        (Mode::Disaggregated, None) => {
            ||| scored[0]@.len() == 0
            ||| exists|prefill_pod: usize| #[trigger]
                is_pick(scored[0]@, Set::empty(), prefill_pod) && (node_of(
                    pods,
                    prefill_pod,
                ) is None || scored[1]@.len() == 0)
        },
        (Mode::Disaggregated, Some(ExecutionPlan::Disaggregated { prefill_pod, decode_pod })) => {
            &&& is_pick(scored[0]@, Set::empty(), prefill_pod)
            &&& node_of(pods, prefill_pod) is Some
            &&& is_pick(scored[1]@, pods_on(pods, node_of(pods, prefill_pod)->0), decode_pod)
        },
        _ => false,
    }
}

/// Picks the pods that execute a request.
pub fn pick(pods: &[Pod], scored: &[Vec<ScoredCandidate>], mode: Mode) -> (plan: Option<
    ExecutionPlan,
>)
    requires
        scored@.len() >= 1,
        mode == Mode::Disaggregated && scored@[0]@.len() > 0 ==> scored@.len() >= 2,
    ensures
        is_plan(pods@, scored@, mode, plan),
{
    match mode {
        Mode::Single => match pick_best(scored[0].as_slice()) {
            None => None,
            Some(single) => Some(ExecutionPlan::Single { pod_id: single.pod_id }),
        },
        Mode::Disaggregated => match pick_best(scored[0].as_slice()) {
            None => None,
            Some(prefill) => match pick_decode(pods, scored[1].as_slice(), prefill.pod_id) {
                None => None,
                Some(decode) => Some(
                    ExecutionPlan::Disaggregated {
                        prefill_pod: prefill.pod_id,
                        decode_pod: decode.pod_id,
                    },
                ),
            },
        },
    }
}

/// The scores lead to one plan only.
pub proof fn lemma_plan_unique(
    pods: Seq<Pod>,
    scored: Seq<Vec<ScoredCandidate>>,
    mode: Mode,
    a: Option<ExecutionPlan>,
    b: Option<ExecutionPlan>,
)
    requires
        is_plan(pods, scored, mode, a),
        is_plan(pods, scored, mode, b),
    ensures
        a == b,
{
}

/// What a pod that executes a request alone answers.
pub open spec fn single_text(pod_id: usize) -> Seq<char> {
    "mock single response from pod "@ + text::decimal(pod_id as nat)
}

/// The name under which a prefilling pod hands its cache on.
pub open spec fn transfer_name(pod_id: usize) -> Seq<char> {
    "cache-transfer-from-pod-"@ + text::decimal(pod_id as nat)
}

/// What a decoding pod answers.
pub open spec fn decode_text(pod_id: usize, transfer_id: Seq<char>) -> Seq<char> {
    "mock decode response from pod "@ + text::decimal(pod_id as nat) + " using "@ + transfer_id
}

/// The pod that a transfer comes from: the number behind the last dash of its name.
pub open spec fn transfer_source(transfer_id: Seq<char>) -> Option<usize> {
    match text::after_last(transfer_id, '-') {
        None => None,
        Some(tail) => match text::read_number(tail, usize::MAX as nat) {
            Ok(pod_id) => Some(pod_id as usize),
            Err(_) => None,
        },
    }
}

/// Executes a request on one pod.
pub fn single_execution(pod_id: usize) -> (result: RouteResult)
    ensures
        result.prefill_pod is None,
        result.decode_pod is None,
        result.response_pod == Some(pod_id),
        result.text@ == single_text(pod_id),
{
    let mut text = "mock single response from pod ".to_owned();
    text::push_decimal(&mut text, pod_id as u64);
    RouteResult { prefill_pod: None, decode_pod: None, response_pod: Some(pod_id), text }
}

/// Prefills the cache of a pod, and names the transfer of what it holds.
pub fn prefill_execution(pod_id: usize) -> (transfer_id: String)
    ensures
        transfer_id@ == transfer_name(pod_id),
{
    let mut transfer_id = "cache-transfer-from-pod-".to_owned();
    text::push_decimal(&mut transfer_id, pod_id as u64);
    transfer_id
}

/// Decodes on a pod, from the cache that was handed on under `transfer_id`.
pub fn decode_execution(pod_id: usize, transfer_id: &str) -> (result: RouteResult)
    ensures
        result.prefill_pod == transfer_source(transfer_id@),
        result.decode_pod == Some(pod_id),
        result.response_pod == Some(pod_id),
        result.text@ == decode_text(pod_id, transfer_id@),
{
    let prefill_pod: Option<usize> = match text::tail_after_last(transfer_id, '-') {
        None => None,
        Some(tail) => {
            proof {
                text::lemma_number_bound(tail@, usize::MAX as nat);
            }
            match text::parse_number(tail.as_str(), usize::MAX as u64) {
                Ok(source) => Some(source as usize),
                Err(_) => None,
            }
        },
    };
    let mut text = "mock decode response from pod ".to_owned();
    text::push_decimal(&mut text, pod_id as u64);
    text.append(" using ");
    text.append(transfer_id);
    RouteResult { prefill_pod, decode_pod: Some(pod_id), response_pod: Some(pod_id), text }
}

/// A transfer comes from the pod that named it.
pub proof fn lemma_transfer_source(pod_id: usize)
    ensures
        transfer_source(transfer_name(pod_id)) == Some(pod_id),
{
    reveal_strlit("cache-transfer-from-pod-");
    let number = text::decimal(pod_id as nat);
    let head = "cache-transfer-from-pod-"@.drop_last();
    text::lemma_decimal_digits(pod_id as nat);
    assert(!number.contains('-')) by {
        assert(forall|i: int| 0 <= i < number.len() ==> text::is_digit(#[trigger] number[i]));
    }
    assert(transfer_name(pod_id) =~= head.push('-') + number);
    text::lemma_after_last(head, '-', number);
    text::lemma_decimal_reads_back(pod_id as nat, usize::MAX as nat);
}

/// Executes a request as planned.
pub fn execute(plan: &ExecutionPlan) -> (result: RouteResult)
    ensures
        match *plan {
            ExecutionPlan::Single { pod_id } => {
                &&& result.prefill_pod is None
                &&& result.decode_pod is None
                &&& result.response_pod == Some(pod_id)
                &&& result.text@ == single_text(pod_id)
            },
            ExecutionPlan::Disaggregated { prefill_pod, decode_pod } => {
                &&& result.prefill_pod == Some(prefill_pod)
                &&& result.decode_pod == Some(decode_pod)
                &&& result.response_pod == Some(decode_pod)
                &&& result.text@ == decode_text(decode_pod, transfer_name(prefill_pod))
            },
        },
{
    match plan {
        ExecutionPlan::Single { pod_id } => single_execution(*pod_id),
        ExecutionPlan::Disaggregated { prefill_pod, decode_pod } => {
            let transfer_id = prefill_execution(*prefill_pod);
            proof {
                lemma_transfer_source(*prefill_pod);
            }
            decode_execution(*decode_pod, transfer_id.as_str())
        },
    }
}

/// How many blocks of a chain of `len` the pods of a warm index hold: the first holds the whole
/// chain, the second its first block.
pub open spec fn warm_limits(len: nat) -> Seq<nat> {
    seq![len, if len == 0 { 0 } else { 1 }]
}

/// An index with the blocks of `prompt` in the caches of the first two pods.
pub fn warm_indexer(prompt: &str, pods: &[Pod]) -> (indexer: ShardedBlockIndexer)
    ensures
        indexer.wf(),
        indexer@.entries == indexer::held_entries(
            hash::prompt_chain(prompt@),
            warm_limits(hash::prompt_chain(prompt@).len()),
        ),
        indexer@.alive == Set::new(|pod_id: usize| pod_id < pods@.len() && pod_id < MAX_PODS),
{
    let mut indexer = ShardedBlockIndexer::new(pods.len());
    let hashes = hash::prompt_to_cumulative_hashes(prompt);
    let ghost chain = hashes@;
    let ghost none = Seq::<nat>::empty();
    let ghost alive = indexer@.alive;
    proof {
        indexer::lemma_nothing_held(chain);
        indexer::lemma_no_blocks(chain, none);
    }
    let mut i: usize = 0;
    while i < hashes.len()
        invariant
            i <= hashes@.len(),
            chain == hashes@,
            none == Seq::<nat>::empty(),
            indexer.wf(),
            indexer@.entries == indexer::held_entries(chain, none.push(i as nat)),
            indexer@.alive == alive,
        decreases hashes@.len() - i,
    {
        proof {
            indexer::lemma_register_next(chain, none, 0, i as nat);
        }
        indexer.register(0, hashes[i]);
        i = i + 1;
    }
    let ghost all = none.push(chain.len());
    proof {
        indexer::lemma_no_blocks(chain, all);
    }
    if hashes.len() > 0 {
        proof {
            indexer::lemma_register_next(chain, all, 1, 0);
        }
        indexer.register(1, hashes[0]);
        assert(all.push(1) =~= warm_limits(chain.len()));
    } else {
        assert(all.push(0) =~= warm_limits(chain.len()));
    }
    indexer
}

/// The pods of the benchmark.
pub open spec fn benchmark_pods() -> Seq<Pod> {
    seq![
        Pod { id: 0, role: PodRole::Both, node: "node-a" },
        Pod { id: 1, role: PodRole::Prefill, node: "node-b" },
        Pod { id: 2, role: PodRole::Prefill, node: "node-b" },
        Pod { id: 3, role: PodRole::Decode, node: "node-c" },
        Pod { id: 4, role: PodRole::Prefill, node: "node-e" },
        Pod { id: 5, role: PodRole::Decode, node: "node-f" },
        Pod { id: 6, role: PodRole::Decode, node: "node-g" },
        Pod { id: 7, role: PodRole::Decode, node: "node-h" },
    ]
}

/// The pods of the benchmark.
pub fn static_pods() -> (pods: Vec<Pod>)
    ensures
        pods@ == benchmark_pods(),
{
    vec![
        Pod::new(0, PodRole::Both, "node-a"),
        Pod::new(1, PodRole::Prefill, "node-b"),
        Pod::new(2, PodRole::Prefill, "node-b"),
        Pod::new(3, PodRole::Decode, "node-c"),
        Pod::new(4, PodRole::Prefill, "node-e"),
        Pod::new(5, PodRole::Decode, "node-f"),
        Pod::new(6, PodRole::Decode, "node-g"),
        Pod::new(7, PodRole::Decode, "node-h"),
    ]
}

/// Whether `pod_id` is the living pod to take a role in a request with the cumulative hashes
/// `chain`.
pub open spec fn is_best(
    index: IndexState,
    chain: Seq<BlockHash>,
    pods: Seq<Pod>,
    mode: Mode,
    role: PodRole,
    near: Set<usize>,
    pod_id: usize,
) -> bool {
    let candidates = living_pods(index, pods, role);
    &&& candidates.contains(pod_id)
    &&& forall|other: usize| #[trigger]
        candidates.contains(other) ==> ranks(
            near,
            pod_id,
            score_of(index, chain, pods, mode, candidates, role, pod_id),
            other,
            score_of(index, chain, pods, mode, candidates, role, other),
        )
}

/// Whether `plan` is the route of a request with the cumulative hashes `chain`: the best living
/// pod, or the best living pod for the prefill and the best one for the decoding, for which the
/// node of the first counts most. There is no route just where a role finds no living pod.
pub open spec fn is_route(
    index: IndexState,
    chain: Seq<BlockHash>,
    pods: Seq<Pod>,
    mode: Mode,
    plan: Option<ExecutionPlan>,
) -> bool {
    match (mode, plan) {
        (Mode::Single, None) => living_pods(index, pods, PodRole::Both) == Set::<usize>::empty(),
        (Mode::Single, Some(ExecutionPlan::Single { pod_id })) => is_best(
            index,
            chain,
            pods,
            mode,
            PodRole::Both,
            Set::empty(),
            pod_id,
        ),
        (Mode::Disaggregated, None) => {
            ||| living_pods(index, pods, PodRole::Prefill) == Set::<usize>::empty()
            ||| living_pods(index, pods, PodRole::Decode) == Set::<usize>::empty()
        },
        (Mode::Disaggregated, Some(ExecutionPlan::Disaggregated { prefill_pod, decode_pod })) => {
            &&& is_best(index, chain, pods, mode, PodRole::Prefill, Set::empty(), prefill_pod)
            &&& node_of(pods, prefill_pod) is Some
            &&& is_best(
                index,
                chain,
                pods,
                mode,
                PodRole::Decode,
                pods_on(pods, node_of(pods, prefill_pod)->0),
                decode_pod,
            )
        },
        _ => false,
    }
}

/// What is picked out of the scores of the living pods is the best of them.
proof fn lemma_pick_is_best(
    index: IndexState,
    chain: Seq<BlockHash>,
    pods: Seq<Pod>,
    mode: Mode,
    role: PodRole,
    scored: Seq<ScoredCandidate>,
    near: Set<usize>,
    pod_id: usize,
)
    requires
        is_scored(index, chain, pods, mode, living_pods(index, pods, role), role, scored),
    ensures
        is_pick(scored, near, pod_id) ==> is_best(index, chain, pods, mode, role, near, pod_id),
        scored.len() == 0 <==> living_pods(index, pods, role) == Set::<usize>::empty(),
{
    let candidates = living_pods(index, pods, role);
    let members = bitmap::ascending(candidates);
    bitmap::lemma_ascending(candidates);
    assert forall|k: int| 0 <= k < members.len() implies candidates.contains(members[k]) by {
        assert(members.contains(members[k]));
    }
    if scored.len() == 0 {
        assert(candidates =~= Set::<usize>::empty()) by {
            assert forall|other: usize| !candidates.contains(other) by {
                if candidates.contains(other) {
                    assert(members.contains(other));
                }
            }
        }
    } else {
        assert(candidates.contains(members[0]));
    }
    if is_pick(scored, near, pod_id) {
        let k = choose|k: int| #[trigger] is_top(scored, near, k) && scored[k].pod_id == pod_id;
        assert forall|other: usize| #[trigger] candidates.contains(other) implies ranks(
            near,
            pod_id,
            score_of(index, chain, pods, mode, candidates, role, pod_id),
            other,
            score_of(index, chain, pods, mode, candidates, role, other),
        ) by {
            assert(members.contains(other));
            let j = choose|j: int| 0 <= j < members.len() && members[j] == other;
            assert(scored[j].pod_id == other);
        }
    }
}

/// A pod of the list has a node.
proof fn lemma_node_of(pods: Seq<Pod>, i: int)
    requires
        0 <= i < pods.len(),
    ensures
        node_of(pods, pods[i].id) is Some,
    decreases pods.len(),
{
    if pods[0].id != pods[i].id {
        assert(pods.skip(1)[i - 1] == pods[i]);
        lemma_node_of(pods.skip(1), i - 1);
    }
}

/// To filter the pods, score them and pick by the scores gives the route of the request.
pub proof fn lemma_phases_find_route(
    index: IndexState,
    chain: Seq<BlockHash>,
    pods: Seq<Pod>,
    mode: Mode,
    scored: Seq<Vec<ScoredCandidate>>,
    plan: Option<ExecutionPlan>,
)
    requires
        scored.len() == roles_needed(mode).len(),
        forall|i: int|
            0 <= i < scored.len() ==> is_scored(
                index,
                chain,
                pods,
                mode,
                living_pods(index, pods, roles_needed(mode)[i]),
                roles_needed(mode)[i],
                #[trigger] scored[i]@,
            ),
        is_plan(pods, scored, mode, plan),
    ensures
        is_route(index, chain, pods, mode, plan),
{
    let first_role = roles_needed(mode)[0];
    let first = scored[0]@;
    assert forall|pod_id: usize| #[trigger] is_pick(first, Set::empty(), pod_id) implies is_best(
        index,
        chain,
        pods,
        mode,
        first_role,
        Set::empty(),
        pod_id,
    ) && node_of(pods, pod_id) is Some by {
        lemma_pick_is_best(index, chain, pods, mode, first_role, first, Set::empty(), pod_id);
        assert(role_pods(pods, first_role).contains(pod_id));
        let i = choose|i: int|
            0 <= i < pods.len() && (#[trigger] pods[i]).id == pod_id && serves(
                pods[i].role,
                first_role,
            );
        lemma_node_of(pods, i);
    }
    lemma_pick_is_best(index, chain, pods, mode, first_role, first, Set::empty(), 0);
    if mode == Mode::Disaggregated {
        let second_role = roles_needed(mode)[1];
        let second = scored[1]@;
        lemma_pick_is_best(index, chain, pods, mode, second_role, second, Set::empty(), 0);
        if let Some(ExecutionPlan::Disaggregated { prefill_pod, decode_pod }) = plan {
            let near = pods_on(pods, node_of(pods, prefill_pod)->0);
            lemma_pick_is_best(
                index,
                chain,
                pods,
                mode,
                second_role,
                second,
                near,
                decode_pod,
            );
        }
    }
}

/// A request has one route only.
pub proof fn lemma_route_unique(
    index: IndexState,
    chain: Seq<BlockHash>,
    pods: Seq<Pod>,
    mode: Mode,
    a: Option<ExecutionPlan>,
    b: Option<ExecutionPlan>,
)
    requires
        is_route(index, chain, pods, mode, a),
        is_route(index, chain, pods, mode, b),
    ensures
        a == b,
{
}

/// A route leads over living pods that can do what is wanted of them.
pub proof fn lemma_route_is_served(
    index: IndexState,
    chain: Seq<BlockHash>,
    pods: Seq<Pod>,
    mode: Mode,
    plan: ExecutionPlan,
)
    requires
        is_route(index, chain, pods, mode, Some(plan)),
    ensures
        match plan {
            ExecutionPlan::Single { pod_id } => {
                &&& mode == Mode::Single
                &&& index.alive.contains(pod_id)
                &&& role_pods(pods, PodRole::Both).contains(pod_id)
            },
            ExecutionPlan::Disaggregated { prefill_pod, decode_pod } => {
                &&& mode == Mode::Disaggregated
                &&& index.alive.contains(prefill_pod)
                &&& index.alive.contains(decode_pod)
                &&& role_pods(pods, PodRole::Prefill).contains(prefill_pod)
                &&& role_pods(pods, PodRole::Decode).contains(decode_pod)
            },
        },
{
}

/// The pod that answers alone, or that prefills, is the one that holds the longest prefix of the
/// prompt among the living pods for its role, and of several the one with the smallest id.
pub proof fn lemma_route_is_cache_hot(
    index: IndexState,
    chain: Seq<BlockHash>,
    pods: Seq<Pod>,
    mode: Mode,
    plan: ExecutionPlan,
    other: usize,
)
    requires
        is_route(index, chain, pods, mode, Some(plan)),
        living_pods(index, pods, roles_needed(mode)[0]).contains(other),
    ensures
        ({
            let candidates = living_pods(index, pods, roles_needed(mode)[0]);
            let picked = match plan {
                ExecutionPlan::Single { pod_id } => pod_id,
                ExecutionPlan::Disaggregated { prefill_pod, .. } => prefill_pod,
            };
            let picked_depth = search::prefix_depth(index, chain, candidates, picked);
            let other_depth = search::prefix_depth(index, chain, candidates, other);
            other_depth < picked_depth || (other_depth == picked_depth && picked <= other)
        }),
{
}

/// Decoding happens on the node of the prefill wherever a living pod can decode there.
pub proof fn lemma_decode_is_local(
    index: IndexState,
    chain: Seq<BlockHash>,
    pods: Seq<Pod>,
    prefill_pod: usize,
    decode_pod: usize,
    other: usize,
)
    requires
        is_route(
            index,
            chain,
            pods,
            Mode::Disaggregated,
            Some(ExecutionPlan::Disaggregated { prefill_pod, decode_pod }),
        ),
        living_pods(index, pods, PodRole::Decode).contains(other),
        node_of(pods, other) == node_of(pods, prefill_pod),
    ensures
        node_of(pods, decode_pod) == node_of(pods, prefill_pod),
{
}

/// The pods of the benchmark provide a route as long as the one that can do everything lives, and
/// there are counters for all of them.
pub proof fn lemma_benchmark_pods_route(
    index: IndexState,
    chain: Seq<BlockHash>,
    mode: Mode,
    plan: Option<ExecutionPlan>,
)
    requires
        index.alive.contains(0),
        is_route(index, chain, benchmark_pods(), mode, plan),
    ensures
        match plan {
            None => false,
            Some(ExecutionPlan::Single { pod_id }) => pod_id < benchmark_pods().len(),
            Some(ExecutionPlan::Disaggregated { prefill_pod, decode_pod }) => prefill_pod
                < benchmark_pods().len() && decode_pod < benchmark_pods().len(),
        },
{
    let pods = benchmark_pods();
    assert(pods[0].id == 0);
    assert(living_pods(index, pods, PodRole::Both).contains(0));
    assert(living_pods(index, pods, PodRole::Prefill).contains(0));
    assert(living_pods(index, pods, PodRole::Decode).contains(0));
    assert forall|i: int| 0 <= i < pods.len() implies (#[trigger] pods[i]).id < pods.len() by {}
}

/// Counts the pod that answered.
pub fn count_response(selected: &mut [usize], result: &RouteResult)
    requires
        result.response_pod matches Some(pod_id) ==> pod_id < old(selected)@.len() && old(
            selected,
        )@[pod_id as int] < usize::MAX,
    ensures
        final(selected)@ == match result.response_pod {
            Some(pod_id) => old(selected)@.update(
                pod_id as int,
                (old(selected)@[pod_id as int] + 1) as usize,
            ),
            None => old(selected)@,
        },
{
    if let Some(pod_id) = result.response_pod {
        selected[pod_id] = selected[pod_id] + 1;
    }
}

/// The pods for a role are the living ones of the list that have this role or both, as far as they
/// have a place in a bitmap.
pub proof fn lemma_living_pods(
    index: IndexState,
    pods: Seq<Pod>,
    wanted: PodRole,
    pod_id: usize,
)
    ensures
        living_pods(index, pods, wanted).contains(pod_id) <==> {
            &&& index.alive.contains(pod_id)
            &&& pod_id < 256
            &&& exists|i: int|
                0 <= i < pods.len() && (#[trigger] pods[i]).id == pod_id && (pods[i].role == wanted
                    || pods[i].role == PodRole::Both)
        },
{
}

/// A request needs one pod that does both, or one that prefills and then one that decodes.
pub proof fn lemma_roles_needed(mode: Mode)
    ensures
        mode == Mode::Single ==> roles_needed(mode).len() == 1 && roles_needed(mode)[0]
            == PodRole::Both,
        mode == Mode::Disaggregated ==> roles_needed(mode).len() == 2 && roles_needed(mode)[0]
            == PodRole::Prefill && roles_needed(mode)[1] == PodRole::Decode,
{
}

/// Among scored candidates each candidate is found once, in ascending order. A score is a hundred
/// points for each block of the prefix, and one more just for a decoding pod of a disaggregated
/// request where another pod than itself does more than decode.
pub proof fn lemma_scored_candidates(
    index: IndexState,
    chain: Seq<BlockHash>,
    pods: Seq<Pod>,
    mode: Mode,
    candidates: Set<usize>,
    role: PodRole,
    scored: Seq<ScoredCandidate>,
)
    requires
        is_scored(index, chain, pods, mode, candidates, role, scored),
    ensures
        forall|pod_id: usize|
            pod_id < 256 && candidates.contains(pod_id) ==> exists|k: int|
                0 <= k < scored.len() && (#[trigger] scored[k]).pod_id == pod_id,
        forall|k: int|
            0 <= k < scored.len() ==> candidates.contains((#[trigger] scored[k]).pod_id)
                && scored[k].pod_id < 256,
        forall|j: int, k: int|
            0 <= j < k < scored.len() ==> (#[trigger] scored[j]).pod_id < (
            #[trigger] scored[k]).pod_id,
        forall|k: int|
            0 <= k < scored.len() ==> {
                let peer = exists|i: int|
                    0 <= i < pods.len() && (#[trigger] pods[i]).role != PodRole::Decode
                        && pods[i].id != scored[k].pod_id;
                let extra = mode == Mode::Disaggregated && role == PodRole::Decode && peer;
                &&& (#[trigger] scored[k]).prefix_len == search::prefix_depth(
                    index,
                    chain,
                    candidates,
                    scored[k].pod_id,
                )
                &&& extra ==> scored[k].score == 100 * scored[k].prefix_len + 1
                &&& !extra ==> scored[k].score == 100 * scored[k].prefix_len
            },
{
    let members = bitmap::ascending(candidates);
    bitmap::lemma_ascending(candidates);
    assert forall|k: int| 0 <= k < scored.len() implies candidates.contains(
        (#[trigger] scored[k]).pod_id,
    ) && scored[k].pod_id < 256 by {
        assert(members.contains(members[k]));
    }
    assert forall|pod_id: usize| pod_id < 256 && candidates.contains(pod_id) implies exists|k: int|
        0 <= k < scored.len() && (#[trigger] scored[k]).pod_id == pod_id by {
        assert(members.contains(pod_id));
        let k = choose|k: int| 0 <= k < members.len() && members[k] == pod_id;
        assert(scored[k].pod_id == pod_id);
    }
}

/// What is picked is not behind any of the scores: no other pod is near where it is not, none that
/// is as near has a higher score, and none with the same score has a smaller id.
pub proof fn lemma_pick_is_ahead(
    scores: Seq<ScoredCandidate>,
    near: Set<usize>,
    pod_id: usize,
    j: int,
)
    requires
        is_pick(scores, near, pod_id),
        0 <= j < scores.len(),
    ensures
        exists|k: int|
            {
                &&& 0 <= k < scores.len()
                &&& (#[trigger] scores[k]).pod_id == pod_id
                &&& near.contains(scores[j].pod_id) ==> near.contains(pod_id)
                &&& near.contains(scores[j].pod_id) == near.contains(pod_id) ==> {
                    &&& scores[j].score <= scores[k].score
                    &&& scores[j].score == scores[k].score ==> pod_id <= scores[j].pod_id
                }
            },
{
    let k = choose|k: int| #[trigger] is_top(scores, near, k) && scores[k].pod_id == pod_id;
    assert(ranks(
        near,
        scores[k].pod_id,
        scores[k].score as nat,
        scores[j].pod_id,
        scores[j].score as nat,
    ));
}

/// The node of a pod is that of the first pod in the list with its id, and a pod that is not in the
/// list has none.
pub proof fn lemma_node_of_first(pods: Seq<Pod>, pod_id: usize)
    ensures
        forall|i: int|
            0 <= i < pods.len() && (#[trigger] pods[i]).id == pod_id && (forall|j: int|
                0 <= j < i ==> (#[trigger] pods[j]).id != pod_id) ==> node_of(pods, pod_id) == Some(
                pods[i].node@,
            ),
        (forall|i: int| 0 <= i < pods.len() ==> (#[trigger] pods[i]).id != pod_id) ==> node_of(
            pods,
            pod_id,
        ) is None,
    decreases pods.len(),
{
    if pods.len() > 0 && pods[0].id != pod_id {
        let rest = pods.skip(1);
        lemma_node_of_first(rest, pod_id);
        assert forall|i: int|
            0 <= i < pods.len() && (#[trigger] pods[i]).id == pod_id && (forall|j: int|
                0 <= j < i ==> (#[trigger] pods[j]).id != pod_id) implies node_of(pods, pod_id)
            == Some(pods[i].node@) by {
            assert(rest[i - 1] == pods[i]);
            assert forall|j: int| 0 <= j < i - 1 implies (#[trigger] rest[j]).id != pod_id by {
                assert(rest[j] == pods[j + 1]);
            }
        }
        if forall|i: int| 0 <= i < pods.len() ==> (#[trigger] pods[i]).id != pod_id {
            assert forall|j: int| 0 <= j < rest.len() implies (#[trigger] rest[j]).id
                != pod_id by {
                assert(rest[j] == pods[j + 1]);
            }
        }
    }
}

/// A plan goes by the scores: the first pod has the highest score for its role and the smallest id
/// among equals. The second one is on the node of the first wherever one of its scores is of a pod
/// there. Among the pods that are on that node, or among the others where there is none, it has
/// the highest score and the smallest id among equals.
pub proof fn lemma_plan_goes_by_scores(
    pods: Seq<Pod>,
    scored: Seq<Vec<ScoredCandidate>>,
    mode: Mode,
    plan: ExecutionPlan,
    j: int,
)
    requires
        is_plan(pods, scored, mode, Some(plan)),
    ensures
        ({
            let first = match plan {
                ExecutionPlan::Single { pod_id } => pod_id,
                ExecutionPlan::Disaggregated { prefill_pod, .. } => prefill_pod,
            };
            &&& plan is Single <==> mode == Mode::Single
            &&& 0 <= j < scored[0]@.len() ==> exists|k: int|
                {
                    &&& 0 <= k < scored[0]@.len()
                    &&& (#[trigger] scored[0]@[k]).pod_id == first
                    &&& scored[0]@[j].score <= scored[0]@[k].score
                    &&& scored[0]@[j].score == scored[0]@[k].score ==> first
                        <= scored[0]@[j].pod_id
                }
        }),
        plan matches ExecutionPlan::Disaggregated { prefill_pod, decode_pod } ==> {
            &&& node_of(pods, prefill_pod) is Some
            &&& 0 <= j < scored[1]@.len() ==> exists|k: int|
                {
                    let own = node_of(pods, decode_pod) == node_of(pods, prefill_pod);
                    let other = node_of(pods, scored[1]@[j].pod_id) == node_of(pods, prefill_pod);
                    &&& 0 <= k < scored[1]@.len()
                    &&& (#[trigger] scored[1]@[k]).pod_id == decode_pod
                    &&& other ==> own
                    &&& own == other ==> {
                        &&& scored[1]@[j].score <= scored[1]@[k].score
                        &&& scored[1]@[j].score == scored[1]@[k].score ==> decode_pod
                            <= scored[1]@[j].pod_id
                    }
                }
        },
{
    let first = match plan {
        ExecutionPlan::Single { pod_id } => pod_id,
        ExecutionPlan::Disaggregated { prefill_pod, .. } => prefill_pod,
    };
    if 0 <= j < scored[0]@.len() {
        lemma_pick_is_ahead(scored[0]@, Set::empty(), first, j);
    }
    if let ExecutionPlan::Disaggregated { prefill_pod, decode_pod } = plan {
        let near = pods_on(pods, node_of(pods, prefill_pod)->0);
        if 0 <= j < scored[1]@.len() {
            lemma_pick_is_ahead(scored[1]@, near, decode_pod, j);
            let other = scored[1]@[j].pod_id;
            assert(near.contains(other) <==> node_of(pods, other) == node_of(pods, prefill_pod));
            assert(near.contains(decode_pod) <==> node_of(pods, decode_pod) == node_of(
                pods,
                prefill_pod,
            ));
        }
    }
}

/// The pod that answers alone, or that prefills, lives and has the role. No other living pod of the
/// list with that role holds a longer prefix of the prompt, and none with a smaller id holds one
/// that is as long.
pub proof fn lemma_first_pod_is_best(
    index: IndexState,
    chain: Seq<BlockHash>,
    pods: Seq<Pod>,
    mode: Mode,
    plan: ExecutionPlan,
    i: int,
)
    requires
        is_route(index, chain, pods, mode, Some(plan)),
    ensures
        ({
            let picked = match plan {
                ExecutionPlan::Single { pod_id } => pod_id,
                ExecutionPlan::Disaggregated { prefill_pod, .. } => prefill_pod,
            };
            let role = match plan {
                ExecutionPlan::Single { .. } => PodRole::Both,
                ExecutionPlan::Disaggregated { .. } => PodRole::Prefill,
            };
            let other = pods[i].id;
            let own_depth = search::prefix_depth(index, chain, index.alive, picked);
            let other_depth = search::prefix_depth(index, chain, index.alive, other);
            &&& plan is Single <==> mode == Mode::Single
            &&& index.alive.contains(picked)
            &&& exists|k: int|
                0 <= k < pods.len() && (#[trigger] pods[k]).id == picked && (pods[k].role == role
                    || pods[k].role == PodRole::Both)
            &&& 0 <= i < pods.len() && (pods[i].role == role || pods[i].role == PodRole::Both)
                && index.alive.contains(other) && other < 256 ==> {
                &&& other_depth <= own_depth
                &&& other_depth == own_depth ==> picked <= other
            }
        }),
{
    let role = roles_needed(mode)[0];
    let candidates = living_pods(index, pods, role);
    if 0 <= i < pods.len() && serves(pods[i].role, role) && index.alive.contains(pods[i].id)
        && pods[i].id < 256 {
        assert(candidates.contains(pods[i].id));
        lemma_route_is_cache_hot(index, chain, pods, mode, plan, pods[i].id);
    }
}

/// The pod that decodes lives and can decode. It is on the node of the prefill wherever another
/// living pod of the list can decode there. Against every other living pod that can decode, and
/// that is as near to the prefill, it holds the longer prefix of the prompt, or as long a one. Then
/// it is not the only one that does more than decode, if the other is not, and as far as they are
/// alike in that it has the smaller id.
pub proof fn lemma_decode_pod_is_best(
    index: IndexState,
    chain: Seq<BlockHash>,
    pods: Seq<Pod>,
    prefill_pod: usize,
    decode_pod: usize,
    i: int,
)
    requires
        is_route(
            index,
            chain,
            pods,
            Mode::Disaggregated,
            Some(ExecutionPlan::Disaggregated { prefill_pod, decode_pod }),
        ),
    ensures
        index.alive.contains(decode_pod),
        exists|k: int|
            0 <= k < pods.len() && (#[trigger] pods[k]).id == decode_pod && (pods[k].role
                == PodRole::Decode || pods[k].role == PodRole::Both),
        ({
            let other = pods[i].id;
            let own_depth = search::prefix_depth(index, chain, index.alive, decode_pod);
            let other_depth = search::prefix_depth(index, chain, index.alive, other);
            let own_local = node_of(pods, decode_pod) == node_of(pods, prefill_pod);
            let other_local = node_of(pods, other) == node_of(pods, prefill_pod);
            let own_peer = exists|k: int|
                0 <= k < pods.len() && (#[trigger] pods[k]).role != PodRole::Decode && pods[k].id
                    != decode_pod;
            let other_peer = exists|k: int|
                0 <= k < pods.len() && (#[trigger] pods[k]).role != PodRole::Decode && pods[k].id
                    != other;
            0 <= i < pods.len() && (pods[i].role == PodRole::Decode || pods[i].role
                == PodRole::Both) && index.alive.contains(other) && other < 256 ==> {
                &&& other_local ==> own_local
                &&& own_local == other_local ==> {
                    &&& other_depth <= own_depth
                    &&& other_depth == own_depth ==> {
                        &&& other_peer ==> own_peer
                        &&& own_peer == other_peer ==> decode_pod <= other
                    }
                }
            }
        }),
{
    let role = PodRole::Decode;
    let mode = Mode::Disaggregated;
    let candidates = living_pods(index, pods, role);
    let near = pods_on(pods, node_of(pods, prefill_pod)->0);
    let other = pods[i].id;
    if 0 <= i < pods.len() && serves(pods[i].role, role) && index.alive.contains(other) && other
        < 256 {
        assert(candidates.contains(other));
        assert(near.contains(other) <==> node_of(pods, other) == node_of(pods, prefill_pod));
        assert(near.contains(decode_pod) <==> node_of(pods, decode_pod) == node_of(
            pods,
            prefill_pod,
        ));
        assert(ranks(
            near,
            decode_pod,
            score_of(index, chain, pods, mode, candidates, role, decode_pod),
            other,
            score_of(index, chain, pods, mode, candidates, role, other),
        ));
    }
}

/// There is no route just where nobody of the list lives and has a role that is needed.
pub proof fn lemma_route_exists(
    index: IndexState,
    chain: Seq<BlockHash>,
    pods: Seq<Pod>,
    mode: Mode,
    plan: Option<ExecutionPlan>,
)
    requires
        is_route(index, chain, pods, mode, plan),
    ensures
        mode == Mode::Single ==> (plan is Some <==> exists|i: int|
            0 <= i < pods.len() && (#[trigger] pods[i]).role == PodRole::Both && pods[i].id < 256
                && index.alive.contains(pods[i].id)),
        mode == Mode::Disaggregated ==> (plan is Some <==> {
            &&& exists|i: int|
                0 <= i < pods.len() && (#[trigger] pods[i]).role != PodRole::Decode && pods[i].id
                    < 256 && index.alive.contains(pods[i].id)
            &&& exists|i: int|
                0 <= i < pods.len() && (#[trigger] pods[i]).role != PodRole::Prefill && pods[i].id
                    < 256 && index.alive.contains(pods[i].id)
        }),
{
    let both = living_pods(index, pods, PodRole::Both);
    let prefill = living_pods(index, pods, PodRole::Prefill);
    let decode = living_pods(index, pods, PodRole::Decode);
    assert forall|i: int|
        0 <= i < pods.len() && (#[trigger] pods[i]).id < 256 && index.alive.contains(
            pods[i].id,
        ) implies {
        &&& pods[i].role == PodRole::Both ==> both.contains(pods[i].id)
        &&& pods[i].role != PodRole::Decode ==> prefill.contains(pods[i].id)
        &&& pods[i].role != PodRole::Prefill ==> decode.contains(pods[i].id)
    } by {}
}

/// In a warm index the first pod holds every block of the prompt, the second one the first block,
/// and nobody holds anything else.
pub proof fn lemma_warm_owners(
    index: IndexState,
    chain: Seq<BlockHash>,
    hash: BlockHash,
    pod_id: usize,
)
    requires
        index.entries == indexer::held_entries(chain, warm_limits(chain.len())),
    ensures
        index.owners(hash).contains(pod_id) <==> {
            ||| pod_id == 0 && chain.contains(hash)
            ||| pod_id == 1 && chain.len() > 0 && chain[0] == hash
        },
{
    let limits = warm_limits(chain.len());
    assert(index.owners(hash) =~= indexer::holders(chain, limits, hash));
    assert(chain.take(chain.len() as int) =~= chain);
    if chain.len() > 0 {
        let first = chain.take(1);
        assert(first[0] == chain[0]);
        assert(first.contains(hash) <==> hash == chain[0]);
    }
}

/// What is answered and how a transfer is named: fixed words, and the pods in decimal, whatever
/// digits without leading zeros are read as the number of the pod.
pub proof fn lemma_answers(pod_id: usize, digits: Seq<char>, transfer_id: Seq<char>)
    requires
        digits.len() > 0,
        digits.len() > 1 ==> digits[0] != '0',
        forall|i: int| 0 <= i < digits.len() ==> '0' <= #[trigger] digits[i] <= '9',
        text::digits_value(digits) == pod_id,
    ensures
        single_text(pod_id) == "mock single response from pod "@ + digits,
        transfer_name(pod_id) == "cache-transfer-from-pod-"@ + digits,
        decode_text(pod_id, transfer_id) == "mock decode response from pod "@ + digits + " using "@
            + transfer_id,
{
    text::lemma_decimal_is_unique(digits);
}

/// A transfer comes from the pod whose number stands behind the last dash, and from nobody where
/// there is no dash or no number behind it.
pub proof fn lemma_transfer_names_its_source(head: Seq<char>, tail: Seq<char>)
    requires
        !tail.contains('-'),
    ensures
        transfer_source(tail) is None,
        forall|pod_id: usize|
            transfer_source(head.push('-') + tail) == Some(pod_id) <==> text::read_number(
                tail,
                usize::MAX as nat,
            ) == Ok::<nat, text::NumberError>(pod_id as nat),
        (forall|pod_id: usize| transfer_source(head.push('-') + tail) != Some(pod_id))
            <==> transfer_source(head.push('-') + tail) is None,
{
    text::lemma_after_last(head, '-', tail);
    text::lemma_no_separator(tail, '-');
    text::lemma_number_bound(tail, usize::MAX as nat);
    if let Some(pod_id) = transfer_source(head.push('-') + tail) {
        assert(transfer_source(head.push('-') + tail) == Some(pod_id));
    }
}

/// There is no plan only where a role has no scores, or where the pod with the highest score for
/// the prefill, and the smallest id among equals, is not in the list.
pub proof fn lemma_no_plan(pods: Seq<Pod>, scored: Seq<Vec<ScoredCandidate>>, mode: Mode)
    requires
        is_plan(pods, scored, mode, None),
    ensures
        mode == Mode::Single ==> scored[0]@.len() == 0,
        mode == Mode::Disaggregated ==> {
            ||| scored[0]@.len() == 0
            ||| scored[1]@.len() == 0
            ||| exists|k: int|
                {
                    &&& 0 <= k < scored[0]@.len()
                    &&& forall|i: int|
                        0 <= i < pods.len() ==> (#[trigger] pods[i]).id != (
                        #[trigger] scored[0]@[k]).pod_id
                    &&& forall|j: int|
                        0 <= j < scored[0]@.len() ==> {
                            &&& (#[trigger] scored[0]@[j]).score <= scored[0]@[k].score
                            &&& scored[0]@[j].score == scored[0]@[k].score ==> scored[0]@[k].pod_id
                                <= scored[0]@[j].pod_id
                        }
                }
        },
{
    if mode == Mode::Disaggregated && scored[0]@.len() > 0 && scored[1]@.len() > 0 {
        let first = scored[0]@;
        let prefill_pod = choose|prefill_pod: usize| #[trigger]
            is_pick(first, Set::empty(), prefill_pod) && node_of(pods, prefill_pod) is None;
        let k = choose|k: int| #[trigger]
            is_top(first, Set::empty(), k) && first[k].pod_id == prefill_pod;
        assert forall|i: int| 0 <= i < pods.len() implies (#[trigger] pods[i]).id
            != first[k].pod_id by {
            if pods[i].id == prefill_pod {
                lemma_node_of(pods, i);
            }
        }
        assert forall|j: int| 0 <= j < first.len() implies {
            &&& (#[trigger] first[j]).score <= first[k].score
            &&& first[j].score == first[k].score ==> first[k].pod_id <= first[j].pod_id
        } by {
            assert(ranks(
                Set::empty(),
                first[k].pod_id,
                first[k].score as nat,
                first[j].pod_id,
                first[j].score as nat,
            ));
        }
    }
}

/// Takes a prompt through all phases: on the route that the index gives it, the pods of the route
/// answer. Without a route there is no answer.
pub fn route(
    indexer: &ShardedBlockIndexer,
    pods: &[Pod],
    prompt: &str,
    mode: Mode,
) -> (outcome: Option<(ExecutionPlan, RouteResult)>)
    requires
        indexer.wf(),
        hash::prompt_chain(prompt@).len() * 100 < usize::MAX,
    ensures
        match outcome {
            None => is_route(indexer@, hash::prompt_chain(prompt@), pods@, mode, None),
            Some((plan, result)) => {
                &&& is_route(indexer@, hash::prompt_chain(prompt@), pods@, mode, Some(plan))
                &&& match plan {
                    ExecutionPlan::Single { pod_id } => {
                        &&& result.prefill_pod is None
                        &&& result.decode_pod is None
                        &&& result.response_pod == Some(pod_id)
                        &&& result.text@ == single_text(pod_id)
                    },
                    ExecutionPlan::Disaggregated { prefill_pod, decode_pod } => {
                        &&& result.prefill_pod == Some(prefill_pod)
                        &&& result.decode_pod == Some(decode_pod)
                        &&& result.response_pod == Some(decode_pod)
                        &&& result.text@ == decode_text(decode_pod, transfer_name(prefill_pod))
                    },
                }
            },
        },
{
    let prepared = prepare(prompt);
    let filtered = filter(pods, indexer, mode);
    let scored = score(indexer, &prepared, pods, filtered.as_slice(), mode);
    let plan = pick(pods, scored.as_slice(), mode);
    proof {
        lemma_phases_find_route(
            indexer@,
            hash::prompt_chain(prompt@),
            pods@,
            mode,
            scored@,
            plan,
        );
    }
    match plan {
        None => None,
        Some(plan) => {
            let result = execute(&plan);
            Some((plan, result))
        },
    }
}

} // verus!
