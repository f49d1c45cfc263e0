use cache_aware_routing::hash::prompt_to_cumulative_hashes;
use cache_aware_routing::indexer::{longest_prefix_lengths_for_candidates, ShardedBlockIndexer};
use cache_aware_routing::routing::{
    count_response, decode_execution, execute, filter, locality_bonus, pick, pick_best,
    pick_decode, prefill_execution, prepare, role_candidates, score, single_execution, static_pods,
    warm_indexer,
};
use cache_aware_routing::types::{
    ExecutionPlan, Mode, Pod, PodRole, RouteResult, ScoredCandidate,
};

fn scored(scores: &[(usize, usize)]) -> Vec<ScoredCandidate> {
    scores
        .iter()
        .map(|(pod_id, score)| ScoredCandidate {
            pod_id: *pod_id,
            prefix_len: score / 100,
            score: *score,
        })
        .collect()
}

fn plan_for(
    indexer: &ShardedBlockIndexer,
    pods: &[Pod],
    prompt: &str,
    mode: Mode,
) -> Option<ExecutionPlan> {
    let prepared = prepare(prompt);
    let filtered = filter(pods, indexer, mode);
    let scores = score(indexer, &prepared, pods, &filtered, mode);
    pick(pods, &scores, mode)
}

#[test]
fn prepared_request_has_prompt_and_hashes() {
    let prepared = prepare("a b c d e");
    assert_eq!(prepared.prompt, "a b c d e");
    assert_eq!(
        prepared.cumulative_hashes,
        prompt_to_cumulative_hashes("a b c d e")
    );
}

#[test]
fn static_pods_are_eight_on_seven_nodes() {
    let pods = static_pods();
    let listed: Vec<(usize, PodRole, &str)> =
        pods.iter().map(|pod| (pod.id, pod.role, pod.node)).collect();
    assert_eq!(
        listed,
        vec![
            (0, PodRole::Both, "node-a"),
            (1, PodRole::Prefill, "node-b"),
            (2, PodRole::Prefill, "node-b"),
            (3, PodRole::Decode, "node-c"),
            (4, PodRole::Prefill, "node-e"),
            (5, PodRole::Decode, "node-f"),
            (6, PodRole::Decode, "node-g"),
            (7, PodRole::Decode, "node-h"),
        ]
    );
}

#[test]
fn candidates_for_both_roles_do_both() {
    let pods = vec![
        Pod::new(3, PodRole::Prefill, "n"),
        Pod::new(300, PodRole::Both, "n"),
        Pod::new(4, PodRole::Both, "n"),
    ];
    assert_eq!(role_candidates(&pods, PodRole::Both).iter_set_bits(), vec![4]);
    assert_eq!(
        role_candidates(&pods, PodRole::Prefill).iter_set_bits(),
        vec![3, 4]
    );
    assert_eq!(
        role_candidates(&pods, PodRole::Decode).iter_set_bits(),
        vec![4]
    );
    assert!(role_candidates(&[], PodRole::Both).is_empty());
}

#[test]
fn filter_leaves_dead_pods_out() {
    let pods = static_pods();
    let mut indexer = ShardedBlockIndexer::new(pods.len());
    indexer.shutdown(1);
    indexer.shutdown(6);
    let filtered = filter(&pods, &indexer, Mode::Disaggregated);
    assert_eq!(filtered.len(), 2);
    assert_eq!(filtered[0].role, PodRole::Prefill);
    assert_eq!(filtered[0].candidate_pods.iter_set_bits(), vec![0, 2, 4]);
    assert_eq!(filtered[1].role, PodRole::Decode);
    assert_eq!(filtered[1].candidate_pods.iter_set_bits(), vec![0, 3, 5, 7]);

    let filtered = filter(&pods, &indexer, Mode::Single);
    assert_eq!(filtered.len(), 1);
    assert_eq!(filtered[0].role, PodRole::Both);
    assert_eq!(filtered[0].candidate_pods.iter_set_bits(), vec![0]);
}

#[test]
fn bonus_goes_to_decoders_with_a_peer_that_does_more() {
    let pods = static_pods();
    assert_eq!(locality_bonus(&pods, 3, PodRole::Decode, Mode::Disaggregated), 1);
    assert_eq!(locality_bonus(&pods, 0, PodRole::Decode, Mode::Disaggregated), 1);
    assert_eq!(locality_bonus(&pods, 3, PodRole::Prefill, Mode::Disaggregated), 0);
    assert_eq!(locality_bonus(&pods, 3, PodRole::Decode, Mode::Single), 0);

    let lonely = vec![
        Pod::new(0, PodRole::Both, "n"),
        Pod::new(1, PodRole::Decode, "n"),
    ];
    assert_eq!(locality_bonus(&lonely, 0, PodRole::Decode, Mode::Disaggregated), 0);
    assert_eq!(locality_bonus(&lonely, 1, PodRole::Decode, Mode::Disaggregated), 1);
}

#[test]
fn scores_weigh_blocks_a_hundred_times_and_add_the_bonus() {
    let pods = static_pods();
    let prompt = "a b c d e f g h i";
    let hashes = prompt_to_cumulative_hashes(prompt);
    let mut indexer = ShardedBlockIndexer::new(pods.len());
    indexer.register(3, hashes[0]);
    indexer.register(3, hashes[1]);
    indexer.register(4, hashes[0]);
    let prepared = prepare(prompt);
    let filtered = filter(&pods, &indexer, Mode::Disaggregated);
    let scores = score(&indexer, &prepared, &pods, &filtered, Mode::Disaggregated);
    let listed: Vec<Vec<(usize, usize, usize)>> = scores
        .iter()
        .map(|role| role.iter().map(|s| (s.pod_id, s.prefix_len, s.score)).collect())
        .collect();
    assert_eq!(
        listed,
        vec![
            vec![(0, 0, 0), (1, 0, 0), (2, 0, 0), (4, 1, 100)],
            vec![(0, 0, 1), (3, 2, 201), (5, 0, 1), (6, 0, 1), (7, 0, 1)],
        ]
    );
}

#[test]
fn best_pod_has_the_highest_score_and_then_the_smallest_id() {
    assert!(pick_best(&[]).is_none());
    assert_eq!(pick_best(&scored(&[(4, 100)])).unwrap().pod_id, 4);
    assert_eq!(
        pick_best(&scored(&[(1, 100), (2, 300), (3, 200)])).unwrap().pod_id,
        2
    );
    assert_eq!(
        pick_best(&scored(&[(9, 300), (2, 300), (3, 300)])).unwrap().pod_id,
        2
    );
}

#[test]
fn decoder_on_the_prefill_node_goes_first() {
    let pods = vec![
        Pod::new(0, PodRole::Prefill, "node-a"),
        Pod::new(1, PodRole::Decode, "node-b"),
        Pod::new(2, PodRole::Decode, "node-a"),
        Pod::new(3, PodRole::Decode, "node-a"),
        Pod::new(0, PodRole::Prefill, "node-b"),
    ];
    let scores = scored(&[(1, 900), (2, 100), (3, 200), (99, 1000)]);
    assert_eq!(pick_decode(&pods, &scores, 0).unwrap().pod_id, 3);
    assert_eq!(pick_decode(&pods, &scores, 1).unwrap().pod_id, 1);
    assert!(pick_decode(&pods, &scores, 77).is_none());
    assert!(pick_decode(&pods, &[], 0).is_none());

    let strangers = scored(&[(50, 3), (40, 7), (30, 7)]);
    assert_eq!(pick_decode(&pods, &strangers, 0).unwrap().pod_id, 30);
}

#[test]
fn no_plan_without_candidates() {
    let pods = static_pods();
    assert!(pick(&pods, &[vec![]], Mode::Single).is_none());
    assert!(pick(&pods, &[vec![]], Mode::Disaggregated).is_none());
    assert!(pick(&pods, &[scored(&[(0, 1)]), vec![]], Mode::Disaggregated).is_none());
    assert!(pick(&pods, &[scored(&[(80, 1)]), scored(&[(0, 1)])], Mode::Disaggregated).is_none());
}

#[test]
fn route_takes_the_pod_with_the_longest_prefix() {
    let pods = static_pods();
    let prompt = "a b c d e f g h i";
    let hashes = prompt_to_cumulative_hashes(prompt);
    let mut indexer = ShardedBlockIndexer::new(pods.len());
    indexer.register(1, hashes[0]);
    indexer.register(2, hashes[0]);
    indexer.register(2, hashes[1]);
    indexer.register(4, hashes[0]);
    indexer.register(4, hashes[1]);
    assert!(matches!(
        plan_for(&indexer, &pods, prompt, Mode::Disaggregated),
        Some(ExecutionPlan::Disaggregated { prefill_pod: 2, decode_pod: 0 })
    ));
    indexer.shutdown(2);
    assert!(matches!(
        plan_for(&indexer, &pods, prompt, Mode::Disaggregated),
        Some(ExecutionPlan::Disaggregated { prefill_pod: 4, decode_pod: 0 })
    ));
    indexer.shutdown(0);
    assert!(matches!(
        plan_for(&indexer, &pods, prompt, Mode::Disaggregated),
        Some(ExecutionPlan::Disaggregated { prefill_pod: 4, decode_pod: 3 })
    ));
    assert!(plan_for(&indexer, &pods, prompt, Mode::Single).is_none());
}

#[test]
fn execution_names_the_pods() {
    let single = single_execution(12);
    assert_eq!(single.prefill_pod, None);
    assert_eq!(single.decode_pod, None);
    assert_eq!(single.response_pod, Some(12));
    assert_eq!(single.text, "mock single response from pod 12");

    assert_eq!(prefill_execution(305), "cache-transfer-from-pod-305");

    let decode = decode_execution(4, "cache-transfer-from-pod-305");
    assert_eq!(decode.prefill_pod, Some(305));
    assert_eq!(decode.decode_pod, Some(4));
    assert_eq!(decode.response_pod, Some(4));
    assert_eq!(
        decode.text,
        "mock decode response from pod 4 using cache-transfer-from-pod-305"
    );

    assert_eq!(decode_execution(1, "nothing").prefill_pod, None);
    assert_eq!(decode_execution(1, "pod-x").prefill_pod, None);
    assert_eq!(decode_execution(1, "pod-").prefill_pod, None);
    assert_eq!(decode_execution(1, "pod-+7").prefill_pod, Some(7));
}

#[test]
fn plans_are_executed_on_the_planned_pods() {
    let result = execute(&ExecutionPlan::Single { pod_id: 3 });
    assert_eq!(result.response_pod, Some(3));
    assert_eq!(result.text, "mock single response from pod 3");

    let result = execute(&ExecutionPlan::Disaggregated {
        prefill_pod: usize::MAX,
        decode_pod: 5,
    });
    assert_eq!(result.prefill_pod, Some(usize::MAX));
    assert_eq!(result.decode_pod, Some(5));
    assert_eq!(result.response_pod, Some(5));
    assert_eq!(
        result.text,
        format!(
            "mock decode response from pod 5 using cache-transfer-from-pod-{}",
            usize::MAX
        )
    );
}

#[test]
fn warm_index_holds_the_prompt_in_the_first_pods() {
    let pods = static_pods();
    let prompt = "the cat sat on the table near the window";
    let hashes = prompt_to_cumulative_hashes(prompt);
    let indexer = warm_indexer(prompt, &pods);
    assert_eq!(indexer.alive().iter_set_bits(), (0..8).collect::<Vec<_>>());
    assert_eq!(indexer.owners(hashes[0]).iter_set_bits(), vec![0, 1]);
    assert_eq!(indexer.owners(hashes[1]).iter_set_bits(), vec![0]);
    assert_eq!(indexer.owners(hashes[2]).iter_set_bits(), vec![0]);
    assert_eq!(indexer.shard_entry_counts().iter().sum::<usize>(), 3);
    let lengths = longest_prefix_lengths_for_candidates(&indexer, &hashes, indexer.alive());
    assert_eq!(lengths[..8], [3, 1, 0, 0, 0, 0, 0, 0]);

    let empty = warm_indexer("", &pods);
    assert_eq!(empty.shard_entry_counts().iter().sum::<usize>(), 0);
}

#[test]
fn shared_blocks_of_another_prompt_are_found() {
    let pods = static_pods();
    let indexer = warm_indexer("the cat sat on the table near the window", &pods);
    let hashes = prompt_to_cumulative_hashes("the cat sat on the table near the door at night");
    let lengths = longest_prefix_lengths_for_candidates(&indexer, &hashes, indexer.alive());
    assert_eq!(lengths[..3], [2, 1, 0]);
}

#[test]
fn static_pods_provide_a_route() {
    let pods = static_pods();
    let indexer = warm_indexer("hello", &pods);
    assert!(plan_for(&indexer, &pods, "hello", Mode::Single).is_some());
    assert!(plan_for(&indexer, &pods, "", Mode::Disaggregated).is_some());
}

#[test]
fn responses_are_counted_by_pod() {
    let mut selected = [0usize; 8];
    count_response(&mut selected, &single_execution(3));
    count_response(&mut selected, &single_execution(3));
    count_response(&mut selected, &single_execution(0));
    count_response(&mut selected, &RouteResult::default());
    assert_eq!(selected, [1, 0, 0, 2, 0, 0, 0, 0]);
}

#[test]
fn default_result_is_empty() {
    let result = RouteResult::default();
    assert_eq!(result.prefill_pod, None);
    assert_eq!(result.decode_pod, None);
    assert_eq!(result.response_pod, None);
    assert_eq!(result.text, "");
}
