//! What the router passes from one phase to the next.

use vstd::prelude::*;

use crate::bitmap::HostBitmap;
use crate::hash::BlockHash;

verus! {

/// Whether one pod serves a request, or one prefills and another decodes.
#[derive(Clone, Copy, Debug, PartialEq, Eq, Structural)]
pub enum Mode {
    Single,
    Disaggregated,
}

/// What a benchmark run is asked to do.
#[derive(Clone, Debug)]
pub struct Config {
    pub mode: Mode,
    pub prompt: String,
    pub hits: usize,
}

/// What a pod can do, or what is wanted of one.
#[derive(Clone, Copy, Debug, PartialEq, Eq, Structural)]
pub enum PodRole {
    Prefill,
    Decode,
    Both,
}

/// A pod, on a node of the cluster.
#[derive(Clone, Debug)]
pub struct Pod {
    pub id: usize,
    pub role: PodRole,
    pub node: &'static str,
}

impl Pod {
    pub fn new(id: usize, role: PodRole, node: &'static str) -> (pod: Self)
        ensures
            pod == (Pod { id, role, node }),
    {
        Self { id, role, node }
    }
}

/// A request with the cumulative hashes of its prompt.
#[derive(Clone, Debug)]
pub struct PreparedRequest {
    pub prompt: String,
    pub cumulative_hashes: Vec<BlockHash>,
}

/// The pods that can take a role in a request.
#[derive(Clone, Debug)]
pub struct FilteredCandidates {
    pub role: PodRole,
    pub candidate_pods: HostBitmap,
}

/// A candidate with the length of the prefix that it holds, and its score.
#[derive(Clone, Debug)]
pub struct ScoredCandidate {
    pub pod_id: usize,
    pub prefix_len: usize,
    pub score: usize,
}

/// The pod that was picked for a role.
#[derive(Clone, Debug)]
pub struct PickedPod {
    pub pod_id: usize,
}

/// Which pods execute a request.
#[derive(Clone, Debug)]
pub enum ExecutionPlan {
    Single { pod_id: usize },
    Disaggregated { prefill_pod: usize, decode_pod: usize },
}

/// What came of the execution of a request.
#[derive(Clone, Debug)]
pub struct RouteResult {
    pub prefill_pod: Option<usize>,
    pub decode_pod: Option<usize>,
    pub response_pod: Option<usize>,
    pub text: String,
}

impl Default for RouteResult {
    fn default() -> (result: Self)
        ensures
            result.prefill_pod is None,
            result.decode_pod is None,
            result.response_pod is None,
            result.text@ == Seq::<char>::empty(),
    {
        Self { prefill_pod: None, decode_pod: None, response_pod: None, text: String::new() }
    }
}

} // verus!
