//! The execution engine as a state machine. The caller drives it: `start_all`
//! (or `start_nodes`), then, wave after wave, `begin_wave` hands out the jobs
//! of a wave, the caller performs the provider calls of the wave concurrently,
//! and `finish_wave` takes the results back. Every transition is recorded in
//! an append-only event log.

use vstd::prelude::*;
use crate::context::{prompt_text, system_prompt_text, ContextBuilder};
use crate::events::{ExecutionEvent, NodeProgress};
use crate::model::{LLMProvider, NodeStatus, Project};
use crate::planner::{
    ready, in_wave, lemma_indices_members, lemma_waves_respect_dependencies, wave_members,
    depends_on, scheduled, ExecutionPlan, ExecutionWave,
};
use crate::provider::{
    create_provider, error_text, provider_configured, provider_for, provider_name,
    GenerationRequest, GenerationResponse, LLMError, Provider,
};
use crate::text::{strip_code_blocks, stripped};

verus! {

/// Credentials for the providers.
#[derive(Debug, Clone)]
pub struct ApiKeys {
    pub anthropic: Option<String>,
    pub openai: Option<String>,
    pub ollama_base_url: Option<String>,
}

impl Default for ApiKeys {
    fn default() -> (r: ApiKeys)
        ensures
            r.anthropic.is_none() && r.openai.is_none() && r.ollama_base_url.is_none(),
    {
        ApiKeys { anthropic: None, openai: None, ollama_base_url: None }
    }
}

pub open spec fn key_for(keys: ApiKeys, provider: LLMProvider) -> Option<String> {
    match provider {
        LLMProvider::Anthropic => keys.anthropic,
        LLMProvider::OpenAI => keys.openai,
        LLMProvider::Ollama => None,
    }
}

impl ApiKeys {
    /// The credential for a provider; the local provider needs none.
    pub fn get_for_provider(&self, provider: &LLMProvider) -> (r: Option<String>)
        ensures
            r == key_for(*self, *provider),
    {
        match provider {
            LLMProvider::Anthropic => self.anthropic.clone(),
            LLMProvider::OpenAI => self.openai.clone(),
            LLMProvider::Ollama => None,
        }
    }
}

/// Credentials as a user interface submits them; empty strings mean absent.
#[derive(Debug, Clone)]
pub struct ApiKeysInput {
    pub anthropic: Option<String>,
    pub openai: Option<String>,
    pub ollama_base_url: Option<String>,
}

/// `None` for an absent or empty string.
pub open spec fn non_empty(s: Option<String>) -> Option<String> {
    match s {
        Some(v) => if v@.len() > 0 {
            Some(v)
        } else {
            None
        },
        None => None,
    }
}

fn keep_non_empty(s: Option<String>) -> (r: Option<String>)
    ensures
        r == non_empty(s),
{
    match s {
        Some(v) => if v.as_str().is_empty() {
            None
        } else {
            Some(v)
        },
        None => None,
    }
}

impl From<ApiKeysInput> for ApiKeys {
    fn from(input: ApiKeysInput) -> (r: ApiKeys) {
        ApiKeys {
            anthropic: keep_non_empty(input.anthropic),
            openai: keep_non_empty(input.openai),
            ollama_base_url: keep_non_empty(input.ollama_base_url),
        }
    }
}

impl vstd::std_specs::convert::FromSpecImpl<ApiKeysInput> for ApiKeys {
    open spec fn obeys_from_spec() -> bool {
        true
    }

    open spec fn from_spec(input: ApiKeysInput) -> ApiKeys {
        ApiKeys {
            anthropic: non_empty(input.anthropic),
            openai: non_empty(input.openai),
            ollama_base_url: non_empty(input.ollama_base_url),
        }
    }
}

/// The result of generating one node.
#[derive(Debug, Clone)]
pub struct NodeResult {
    pub node_id: String,
    pub success: bool,
    pub generated_code: Option<String>,
    pub error_message: Option<String>,
}

impl NodeResult {
    /// The result of a provider call: on success the content with any
    /// surrounding code fence removed, on failure the error's description.
    pub fn from_outcome(node_id: String, outcome: Result<GenerationResponse, LLMError>) -> (r: NodeResult)
        ensures
            r.node_id == node_id,
            r.success == outcome is Ok,
            match outcome {
                Ok(resp) => (r.generated_code matches Some(c) && c@ == stripped(resp.content@))
                    && r.error_message is None,
                Err(e) => r.generated_code is None && (r.error_message matches Some(m) && m@
                    == error_text(e)),
            },
    {
        match outcome {
            Ok(resp) => NodeResult {
                node_id,
                success: true,
                generated_code: Some(strip_code_blocks(resp.content.as_str())),
                error_message: None,
            },
            Err(e) => NodeResult {
                node_id,
                success: false,
                generated_code: None,
                error_message: Some(e.to_string()),
            },
        }
    }

    fn failure(node_id: String, message: String) -> (r: NodeResult)
        ensures
            r.node_id == node_id && !r.success && r.generated_code is None && r.error_message
                == Some(message),
    {
        NodeResult { node_id, success: false, generated_code: None, error_message: Some(message) }
    }
}

/// The work for one node of a wave: a result decided without a call, or a
/// provider call to make.
#[derive(Debug, Clone)]
pub enum NodeJob {
    Decided(NodeResult),
    Call { node_id: String, provider: Provider, request: GenerationRequest },
}

impl NodeJob {
    /// The id of the node the job is for.
    pub fn node_id(&self) -> (r: &String)
        ensures
            r == (match *self {
                NodeJob::Decided(res) => res.node_id,
                NodeJob::Call { node_id, .. } => node_id,
            }),
    {
        match self {
            NodeJob::Decided(res) => &res.node_id,
            NodeJob::Call { node_id, .. } => node_id,
        }
    }
}

/// The event reports a terminal status (complete or error) for `id`.
pub open spec fn terminal_for(ev: ExecutionEvent, id: Seq<char>) -> bool {
    ev matches ExecutionEvent::NodeUpdate(np) && np.node_id@ == id && (np.status
        == NodeStatus::Complete || np.status == NodeStatus::Error)
}

/// The event reports that generation of `id` starts.
pub open spec fn generating_for(ev: ExecutionEvent, id: Seq<char>) -> bool {
    ev matches ExecutionEvent::NodeUpdate(np) && np.node_id@ == id && np.status
        == NodeStatus::Generating
}

/// Some event before index `j` reports a terminal status for `id`.
pub open spec fn finished_before(events: Seq<ExecutionEvent>, j: int, id: Seq<char>) -> bool {
    exists|i: int| 0 <= i < j && i < events.len() && #[trigger] terminal_for(events[i], id)
}

/// For every dependency `s -> t` of `p`, each event that starts `t` comes
/// after an event that reports a terminal status for `s`.
pub open spec fn dependencies_finish_first(p: Project, events: Seq<ExecutionEvent>) -> bool {
    forall|j: int, s: Seq<char>, t: Seq<char>|
        0 <= j < events.len() && #[trigger] generating_for(events[j], t) && #[trigger] p.links(s, t)
            ==> finished_before(events, j, s)
}

/// No two nodes share an id.
pub open spec fn ids_unique(p: Project) -> bool {
    p.node_ids_unique()
}

/// The job for a node: an error decided before any call (the node is missing,
/// or its provider lacks a credential), or the call to make.
pub open spec fn job_for(p: Project, keys: ApiKeys, id: String, job: NodeJob) -> bool {
    if !p.has_node(id@) {
        job matches NodeJob::Decided(r) && r.node_id == id && !r.success && r.generated_code is None
            && (r.error_message matches Some(m) && m@ == "Node '"@ + id@ + "' not found"@)
    } else {
        let n = p.nodes@[crate::cycle::first_index(p, id@)];
        let provider = provider_for(n.llm_config, key_for(keys, n.llm_config.provider));
        if !provider_configured(provider) {
            job matches NodeJob::Decided(r) && r.node_id == id && !r.success && r.generated_code
                is None && (r.error_message matches Some(m) && m@ == provider_name(provider)
                + " is not configured. Please set your API key in Settings."@)
        } else {
            job matches NodeJob::Call { node_id, provider: called, request } && node_id == id
                && called == provider && request.prompt@ == prompt_text(p, n)
                && (request.system_prompt matches Some(sp) && sp@ == system_prompt_text(n))
                && request.max_tokens == Some(4096u32) && request.temperature_milli == Some(
                700u32,
            )
        }
    }
}

/// Sets the status of the first node with id `node_id`, stores the code when
/// one is given, and sets or clears its error message.
fn set_node_state(
    project: &mut Project,
    node_id: &String,
    status: NodeStatus,
    code: Option<String>,
    error: Option<String>,
)
    ensures
        final(project).edges == old(project).edges,
        final(project).manifest == old(project).manifest,
        final(project).project_path == old(project).project_path,
        final(project).nodes@.len() == old(project).nodes@.len(),
        forall|j: int|
            0 <= j < old(project).nodes@.len() && !old(project).is_first_with_id(j, node_id@)
                ==> #[trigger] final(project).nodes@[j] == old(project).nodes@[j],
        forall|j: int|
            #[trigger] old(project).is_first_with_id(j, node_id@) ==> {
                let a = old(project).nodes@[j];
                final(project).nodes@[j] == (crate::model::CodeNode {
                    status,
                    generated_code: match code {
                        Some(c) => Some(c),
                        None => a.generated_code,
                    },
                    error_message: error,
                    ..a
                })
            },
{
    match project.find_node_index(node_id.as_str()) {
        Some(i) => {
            proof {
                assert forall|j: int| #[trigger] project.is_first_with_id(j, node_id@) implies j == i by {
                    crate::cycle::lemma_first_unique(*project, j, i as int, node_id@);
                }
            }
            project.nodes[i].status = status;
            if let Some(c) = code {
                project.nodes[i].generated_code = Some(c);
            }
            project.nodes[i].error_message = error;
        },
        None => {},
    }
}

/// Node `n` belongs to one of the first `next` waves.
pub open spec fn executed_in(wn: Seq<Seq<int>>, next: int, n: int) -> bool {
    exists|w: int, k: int| 0 <= w < next && 0 <= k < wn[w].len() && #[trigger] wn[w][k] == n
}

/// Node `n` belongs to wave `next`, whose jobs are out.
pub open spec fn running_in(wn: Seq<Seq<int>>, next: int, phase: Phase, n: int) -> bool {
    phase == Phase::InWave && exists|k: int| 0 <= k < wn[next].len() && #[trigger] wn[next][k] == n
}

/// `b` is `a` with at most its status, code and error changed.
pub open spec fn same_but_state(a: crate::model::CodeNode, b: crate::model::CodeNode) -> bool {
    b == crate::model::CodeNode {
        status: b.status,
        generated_code: b.generated_code,
        error_message: b.error_message,
        ..a
    }
}

/// `b` is `a` with at most the status, code and error of nodes changed: the
/// manifest, the edges, the directory, the node order and every other node
/// field are kept.
pub open spec fn only_states_changed(a: Project, b: Project) -> bool {
    &&& b.manifest == a.manifest
    &&& b.edges == a.edges
    &&& b.project_path == a.project_path
    &&& b.nodes@.len() == a.nodes@.len()
    &&& forall|i: int| 0 <= i < a.nodes@.len() ==> same_but_state(a.nodes@[i], #[trigger] b.nodes@[i])
}

/// Node `n` of `p` is the first node with one of the ids `ids`.
pub open spec fn first_with_one_of(p: Project, ids: Seq<String>, n: int) -> bool {
    exists|k: int| 0 <= k < ids.len() && p.is_first_with_id(n, (#[trigger] ids[k])@)
}

/// Every status is terminal, generating, or the one the node started with.
pub open spec fn statuses_bounded(project: Project, initial: Project) -> bool {
    forall|n: int|
        0 <= n < project.nodes@.len() ==> {
            let st = (#[trigger] project.nodes@[n]).status;
            st == NodeStatus::Complete || st == NodeStatus::Error || st == NodeStatus::Generating
                || st == initial.nodes@[n].status
        }
}

/// Number of successful results.
pub open spec fn count_success(rs: Seq<NodeResult>) -> nat
    decreases rs.len(),
{
    if rs.len() == 0 {
        0
    } else {
        count_success(rs.drop_last()) + if rs.last().success {
            1nat
        } else {
            0nat
        }
    }
}

/// Sum of the lengths of the waves.
pub open spec fn sum_lens(wn: Seq<Seq<int>>) -> nat
    decreases wn.len(),
{
    if wn.len() == 0 {
        0
    } else {
        sum_lens(wn.drop_last()) + wn.last().len()
    }
}

/// The first `k` waves of the full plan hold as many nodes as are placed
/// after `k` waves.
proof fn lemma_sum_members(p: Project, k: nat)
    ensures
        sum_lens(Seq::new(k, |w: int| wave_members(p, w as nat))) == crate::planner::placed_after(p, k).len(),
    decreases k,
{
    let s = Seq::new(k, |w: int| wave_members(p, w as nat));
    if k == 0 {
        let n = p.nodes@.len() as int;
        crate::planner::lemma_indices_ext(|x: int| scheduled(p, 0).contains(x), |j: int| false, n);
        lemma_indices_members(|j: int| false, n);
        if crate::planner::indices_where(|j: int| false, n).len() > 0 {
            let z = 0int;
            assert((|j: int| false)(crate::planner::indices_where(|j: int| false, n)[z]));
        }
    } else {
        lemma_sum_members(p, (k - 1) as nat);
        assert(s.drop_last() =~= Seq::new((k - 1) as nat, |w: int| wave_members(p, w as nat)));
        crate::planner::lemma_placed_step(p, (k - 1) as nat);
    }
}

/// Each node is terminal once its wave completed, generating while its wave
/// is out, and otherwise as it was at the start.
pub open spec fn statuses_ok_for(
    project: Project,
    initial: Project,
    wn: Seq<Seq<int>>,
    next: int,
    phase: Phase,
) -> bool {
    forall|n: int|
        0 <= n < project.nodes@.len() ==> {
            let st = (#[trigger] project.nodes@[n]).status;
            if executed_in(wn, next, n) {
                st == NodeStatus::Complete || st == NodeStatus::Error
            } else if running_in(wn, next, phase, n) {
                st == NodeStatus::Generating
            } else {
                project.nodes@[n] == initial.nodes@[n]
            }
        }
}

/// Appending an event keeps every earlier terminal report.
proof fn lemma_finished_push(events: Seq<ExecutionEvent>, ev: ExecutionEvent)
    ensures
        forall|j: int, id: Seq<char>| #[trigger] finished_before(events, j, id) ==> finished_before(events.push(ev), j, id),
        forall|id: Seq<char>| #[trigger] finished_before(events, events.len() as int, id) ==> finished_before(
            events.push(ev),
            events.len() + 1 as int,
            id,
        ),
{
    assert forall|j: int, id: Seq<char>| #[trigger] finished_before(events, j, id) implies finished_before(events.push(ev), j, id) by {
        let i = choose|i: int| 0 <= i < j && i < events.len() && #[trigger] terminal_for(events[i], id);
        assert(events.push(ev)[i] == events[i]);
    }
    assert forall|id: Seq<char>| #[trigger] finished_before(events, events.len() as int, id) implies finished_before(
        events.push(ev),
        events.len() + 1 as int,
        id,
    ) by {
        let i = choose|i: int| 0 <= i < events.len() && i < events.len() && #[trigger] terminal_for(events[i], id);
        assert(events.push(ev)[i] == events[i]);
    }
}

/// An event that starts no node, or starts one whose dependencies all
/// finished, keeps the ordering of the log.
proof fn lemma_log_push(p: Project, events: Seq<ExecutionEvent>, ev: ExecutionEvent)
    requires
        dependencies_finish_first(p, events),
        forall|s: Seq<char>, t: Seq<char>|
            #[trigger] generating_for(ev, t) && #[trigger] p.links(s, t) ==> finished_before(
                events,
                events.len() as int,
                s,
            ),
    ensures
        dependencies_finish_first(p, events.push(ev)),
{
    let e2 = events.push(ev);
    lemma_finished_push(events, ev);
    assert forall|j: int, s: Seq<char>, t: Seq<char>|
        0 <= j < e2.len() && #[trigger] generating_for(e2[j], t) && #[trigger] p.links(s, t)
            implies finished_before(e2, j, s) by {
        if j < events.len() {
            assert(e2[j] == events[j]);
            assert(finished_before(events, j, s));
        } else {
            assert(e2[j] == ev);
            assert(finished_before(events, events.len() as int, s));
        }
    }
}

/// A terminal report for `id` is seen after it is appended.
proof fn lemma_terminal_push(events: Seq<ExecutionEvent>, ev: ExecutionEvent, id: Seq<char>)
    requires
        terminal_for(ev, id),
    ensures
        finished_before(events.push(ev), events.len() + 1 as int, id),
{
    assert(events.push(ev)[events.len() as int] == ev);
}

/// Where ids are unique, node `n` is the first with its id.
proof fn lemma_unique_first(p: Project, n: int)
    requires
        ids_unique(p),
        0 <= n < p.nodes@.len(),
    ensures
        p.is_first_with_id(n, p.nodes@[n].id@),
        forall|j: int| #[trigger] p.is_first_with_id(j, p.nodes@[n].id@) ==> j == n,
{
    assert forall|j: int| 0 <= j < n implies #[trigger] p.nodes@[j].id@ != p.nodes@[n].id@ by {
        assert(p.nodes@[j].id@ != p.nodes@[n].id@);
    }
    assert forall|j: int| #[trigger] p.is_first_with_id(j, p.nodes@[n].id@) implies j == n by {
        if j != n {
            assert(p.nodes@[j].id@ != p.nodes@[n].id@);
        }
    }
}

/// Renaming-free status updates keep id uniqueness and the ids.
proof fn lemma_same_ids_unique(p: Project, q: Project)
    requires
        ids_unique(p),
        q.nodes@.len() == p.nodes@.len(),
        forall|i: int| 0 <= i < p.nodes@.len() ==> (#[trigger] q.nodes@[i]).id == p.nodes@[i].id,
    ensures
        ids_unique(q),
{
    assert forall|i: int, j: int|
        0 <= i < q.nodes@.len() && 0 <= j < q.nodes@.len() && i != j implies #[trigger] q.nodes@[i].id@
        != #[trigger] q.nodes@[j].id@ by {
        assert(q.nodes@[i].id == p.nodes@[i].id);
        assert(q.nodes@[j].id == p.nodes@[j].id);
    }
}

/// When wave `w` of a full plan starts, every dependency of its node `n` has
/// finished: it lies in an earlier wave, and earlier waves completed.
proof fn lemma_dependencies_done(
    p: Project,
    wn: Seq<Seq<int>>,
    w: int,
    n: int,
    events: Seq<ExecutionEvent>,
)
    requires
        0 <= w < wn.len(),
        forall|j: int| 0 <= j < wn.len() ==> #[trigger] wn[j] == wave_members(p, j as nat),
        in_wave(p, w as nat, n),
        forall|j: int, k: int|
            0 <= j < w && 0 <= k < wn[j].len() ==> finished_before(
                events,
                events.len() as int,
                p.nodes@[#[trigger] wn[j][k]].id@,
            ),
    ensures
        forall|s: Seq<char>| #[trigger] p.links(s, p.nodes@[n].id@) ==> finished_before(
            events,
            events.len() as int,
            s,
        ),
{
    assert forall|s: Seq<char>| #[trigger] p.links(s, p.nodes@[n].id@) implies finished_before(
        events,
        events.len() as int,
        s,
    ) by {
        crate::cycle::lemma_has_first(p, s);
        let m = crate::cycle::first_index(p, s);
        assert(depends_on(p, n, m));
        lemma_waves_respect_dependencies(p, w as nat, n, m);
        let j = choose|j: nat| j < w && #[trigger] in_wave(p, j, m);
        lemma_indices_members(|x: int| in_wave(p, j, x), p.nodes@.len() as int);
        assert(wn[j as int] == wave_members(p, j));
        assert((|x: int| in_wave(p, j, x))(m));
        assert(wave_members(p, j).contains(m));
        let k = choose|k: int| 0 <= k < wn[j as int].len() && wn[j as int][k] == m;
        assert(finished_before(events, events.len() as int, p.nodes@[wn[j as int][k]].id@));
    }
}

/// A node of wave `w` is in no earlier wave.
proof fn lemma_not_earlier(p: Project, wn: Seq<Seq<int>>, lv: Seq<int>, w: int, k: int)
    requires
        0 <= w < wn.len(),
        0 <= k < wn[w].len(),
        lv.len() == wn.len(),
        forall|a: int| 0 <= a < wn.len() ==> 0 <= #[trigger] lv[a],
        forall|a: int, b: int| 0 <= a < wn.len() && 0 <= b < wn[a].len() ==> in_wave(p, lv[a] as nat, #[trigger] wn[a][b]),
        forall|a: int, v: int| 0 <= a < v < wn.len() ==> #[trigger] lv[a] < #[trigger] lv[v],
    ensures
        !executed_in(wn, w, wn[w][k]),
{
    if executed_in(wn, w, wn[w][k]) {
        let (a, b) = choose|a: int, b: int| 0 <= a < w && 0 <= b < wn[a].len() && #[trigger] wn[a][b] == wn[w][k];
        assert(in_wave(p, lv[a] as nat, wn[a][b]));
        assert(in_wave(p, lv[w] as nat, wn[w][k]));
        crate::planner::lemma_one_wave(p, lv[a] as nat, lv[w] as nat, wn[w][k]);
    }
}

/// Whether `ids` holds `id`.
fn contains_id(ids: &Vec<String>, id: &String) -> (r: bool)
    ensures
        r == crate::validation::strings_view(ids@).contains(id@),
{
    let mut i: usize = 0;
    while i < ids.len()
        invariant
            i <= ids@.len(),
            forall|j: int| 0 <= j < i ==> (#[trigger] ids@[j])@ != id@,
        decreases ids@.len() - i,
    {
        if ids[i] == *id {
            assert(crate::validation::strings_view(ids@)[i as int] == id@);
            return true;
        }
        i += 1;
    }
    proof {
        if crate::validation::strings_view(ids@).contains(id@) {
            let j = choose|j: int| 0 <= j < ids@.len() && crate::validation::strings_view(ids@)[j] == id@;
            assert(ids@[j]@ == id@);
        }
    }
    false
}

/// Once a wave is empty, every later one is.
proof fn lemma_no_wave_after_last(p: Project, k: nat, j: nat)
    requires
        wave_members(p, k).len() == 0,
        k <= j,
    ensures
        wave_members(p, j).len() == 0,
    decreases j - k,
{
    lemma_empty_wave_stable(p, k);
    if k < j {
        lemma_no_wave_after_last(p, k + 1, j);
    }
}

/// An empty wave leaves the schedule as it is.
proof fn lemma_empty_wave_stable(p: Project, k: nat)
    requires
        wave_members(p, k).len() == 0,
    ensures
        scheduled(p, k + 1) == scheduled(p, k),
        wave_members(p, k + 1).len() == 0,
{
    lemma_indices_members(|x: int| in_wave(p, k, x), p.nodes@.len() as int);
    assert forall|n: int| !#[trigger] ready(p, scheduled(p, k), n) by {
        if in_wave(p, k, n) {
            assert((|x: int| in_wave(p, k, x))(n));
            assert(wave_members(p, k).contains(n));
        }
    }
    assert(scheduled(p, k + 1) == scheduled(p, k).union(Set::new(|n: int| ready(p, scheduled(p, k), n))));
    assert(scheduled(p, k + 1) =~= scheduled(p, k));
    crate::planner::lemma_indices_ext(
        |x: int| in_wave(p, k + 1, x),
        |x: int| in_wave(p, k, x),
        p.nodes@.len() as int,
    );
}

/// The job for node `node_id`: its prompt, system prompt and provider,
/// or the error decided without a call.
pub fn prepare_generation(project: &Project, api_keys: &ApiKeys, node_id: &String) -> (r: NodeJob)
    ensures
        job_for(*project, *api_keys, *node_id, r),
{
    let node = match project.find_node_index(node_id.as_str()) {
        Some(i) => &project.nodes[i],
        None => {
            let mut m = String::from_str("Node '");
            m.append(node_id.as_str());
            m.append("' not found");
            return NodeJob::Decided(NodeResult::failure(node_id.clone(), m));
        },
    };
    let prompt = match ContextBuilder::build_prompt(project, node_id.as_str()) {
        Some(p) => p,
        None => {
            return NodeJob::Decided(
                NodeResult::failure(node_id.clone(), String::from_str("Failed to build prompt")),
            );
        },
    };
    let system_prompt = ContextBuilder::build_system_prompt(node);
    let api_key = api_keys.get_for_provider(&node.llm_config.provider);
    let provider = create_provider(&node.llm_config, api_key);
    if !provider.is_configured() {
        let mut m = String::new();
        m.append(provider.name());
        m.append(" is not configured. Please set your API key in Settings.");
        return NodeJob::Decided(NodeResult::failure(node_id.clone(), m));
    }
    let request = GenerationRequest {
        prompt,
        system_prompt: Some(system_prompt),
        max_tokens: Some(4096),
        temperature_milli: Some(700),
    };
    NodeJob::Call { node_id: node_id.clone(), provider, request }
}

/// The event reports the result `r`: complete with its code, or failed
/// with its error.
pub open spec fn reports_result(ev: ExecutionEvent, r: NodeResult) -> bool {
    ev matches ExecutionEvent::NodeUpdate(np) && np.node_id == r.node_id && np.status == (if r.success {
        NodeStatus::Complete
    } else {
        NodeStatus::Error
    }) && (r.success ==> np.generated_code == r.generated_code && (np.message matches Some(m)
        && m@ == "Generation complete"@)) && (!r.success ==> np.message == r.error_message
        && np.generated_code is None)
}

/// The event starts generating `id`: status generating, the message
/// "Starting generation...", and no code.
pub open spec fn starting_event(ev: ExecutionEvent, id: Seq<char>) -> bool {
    &&& generating_for(ev, id)
    &&& ev matches ExecutionEvent::NodeUpdate(np) && (np.message matches Some(m) && m@
        == "Starting generation..."@) && np.generated_code is None
}

/// `after` is `before` with the result `r` applied: complete with the code
/// stored and the error cleared, or failed with the error stored.
pub open spec fn holds_result(before: crate::model::CodeNode, after: crate::model::CodeNode, r: NodeResult) -> bool {
    after == crate::model::CodeNode {
        status: if r.success {
            NodeStatus::Complete
        } else {
            NodeStatus::Error
        },
        generated_code: if r.success {
            match r.generated_code {
                Some(c) => Some(c),
                None => before.generated_code,
            }
        } else {
            before.generated_code
        },
        error_message: if r.success {
            None
        } else {
            r.error_message
        },
        ..before
    }
}

/// Changing nodes without changing ids keeps which node is the first with an id.
proof fn lemma_first_same_ids(p: Project, q: Project, n: int, id: Seq<char>)
    requires
        q.nodes@.len() == p.nodes@.len(),
        forall|i: int| 0 <= i < p.nodes@.len() ==> (#[trigger] q.nodes@[i]).id == p.nodes@[i].id,
    ensures
        q.is_first_with_id(n, id) == p.is_first_with_id(n, id),
{
    if 0 <= n < p.nodes@.len() {
        assert(q.nodes@[n].id == p.nodes@[n].id);
        assert forall|j: int| 0 <= j < n implies (q.nodes@[j].id@ != id) == (p.nodes@[j].id@ != id) by {
            assert(q.nodes@[j].id == p.nodes@[j].id);
        }
    }
}

/// Every generating node was generating at the start, or is the first node
/// with an id of `pending` (the ids whose results are still due).
pub open spec fn generating_ok(project: Project, initial: Project, pending: Seq<String>) -> bool {
    forall|n: int|
        0 <= n < project.nodes@.len() && (#[trigger] project.nodes@[n]).status == NodeStatus::Generating
            ==> initial.nodes@[n].status == NodeStatus::Generating || (project.is_first_with_id(
            n,
            project.nodes@[n].id@,
        ) && exists|b: int| 0 <= b < pending.len() && (#[trigger] pending[b])@ == project.nodes@[n].id@)
}

/// Where the executor stands.
#[derive(Debug, Clone, Copy, PartialEq, Eq, Structural)]
pub enum Phase {
    /// Created, nothing planned yet.
    Idle,
    /// Between two waves (or before the first).
    Ready,
    /// The jobs of wave `next_wave` are out.
    InWave,
    /// `Completed` was emitted.
    Finished,
}

/// Drives generation of a project wave by wave.
pub struct Executor {
    project: Project,
    api_keys: ApiKeys,
    cancelled: bool,
    waves: Vec<ExecutionWave>,
    total_skipped: usize,
    next_wave: usize,
    total_successful: usize,
    total_failed: usize,
    events: Vec<ExecutionEvent>,
    phase: Phase,
    all_nodes: bool,
    initial: Ghost<Project>,
    wave_nodes: Ghost<Seq<Seq<int>>>,
    levels: Ghost<Seq<int>>,
}

impl Executor {
    /// The project in its current state.
    pub closed spec fn project_spec(&self) -> Project {
        self.project
    }

    /// The project as it was when the execution was planned.
    pub closed spec fn initial_spec(&self) -> Project {
        self.initial@
    }

    /// The events emitted so far.
    pub closed spec fn events_spec(&self) -> Seq<ExecutionEvent> {
        self.events@
    }

    /// Where the executor stands.
    pub closed spec fn phase_spec(&self) -> Phase {
        self.phase
    }

    /// Cancellation was asked.
    pub closed spec fn cancelled_spec(&self) -> bool {
        self.cancelled
    }

    /// The executor was started with `start_all`.
    pub closed spec fn runs_all(&self) -> bool {
        self.all_nodes
    }

    /// The node indices of each wave.
    pub closed spec fn wave_nodes_spec(&self) -> Seq<Seq<int>> {
        self.wave_nodes@
    }

    /// Index of the next wave to run.
    pub closed spec fn next_wave_spec(&self) -> int {
        self.next_wave as int
    }

    /// The status each node must have: terminal once its wave completed,
    /// generating while its wave is out, else as it was at the start.
    pub closed spec fn statuses_ok(&self) -> bool {
        statuses_ok_for(self.project, self.initial@, self.wave_nodes@, self.next_wave as int, self.phase)
    }

    /// Number of waves planned.
    pub closed spec fn wave_count_spec(&self) -> int {
        self.waves@.len() as int
    }

    /// Results reported successful so far.
    pub closed spec fn successful_total_spec(&self) -> int {
        self.total_successful as int
    }

    /// Results reported failed so far.
    pub closed spec fn failed_total_spec(&self) -> int {
        self.total_failed as int
    }

    /// Nodes the plan could not schedule (0 in a run over chosen nodes).
    pub closed spec fn skipped_spec(&self) -> int {
        self.total_skipped as int
    }

    /// `self` and `other` share the plan, the starting project, the run's kind,
    /// the cancellation flag and the skipped count.
    pub open spec fn same_plan(&self, other: &Executor) -> bool {
        &&& self.initial_spec() == other.initial_spec()
        &&& self.runs_all() == other.runs_all()
        &&& self.cancelled_spec() == other.cancelled_spec()
        &&& self.wave_count_spec() == other.wave_count_spec()
        &&& self.wave_nodes_spec() == other.wave_nodes_spec()
        &&& self.levels_spec() == other.levels_spec()
        &&& self.skipped_spec() == other.skipped_spec()
        &&& forall|w: int| #[trigger] self.wave_ids(w) == other.wave_ids(w)
    }

    /// The executor's invariant: the project keeps its ids and edges, the
    /// waves follow the plan, completed waves reported every node, every
    /// dependency finished before its dependents started (in a run of every
    /// node), and statuses follow the waves (where ids are unique).
    pub closed spec fn wf(&self) -> bool {
        let p = self.initial@;
        let wn = self.wave_nodes@;
        let lv = self.levels@;
        &&& self.phase == Phase::Idle ==> self.events@.len() == 0 && !self.all_nodes
        &&& self.phase != Phase::Idle ==> {
            &&& self.project.edges == p.edges
            &&& self.project.nodes@.len() == p.nodes@.len()
            &&& forall|i: int| 0 <= i < p.nodes@.len() ==> (#[trigger] self.project.nodes@[i]).id == p.nodes@[i].id
            &&& self.waves@.len() == wn.len()
            &&& lv.len() == wn.len()
            &&& forall|w: int|
                0 <= w < wn.len() ==> (#[trigger] self.waves@[w]).node_ids@
                    == crate::planner::ids_at(p, wn[w]) && self.waves@[w].wave_number == lv[w]
                    && 0 <= lv[w]
            &&& forall|w: int, k: int|
                0 <= w < wn.len() && 0 <= k < wn[w].len() ==> in_wave(p, lv[w] as nat, #[trigger] wn[w][k])
            &&& forall|w: int, v: int| 0 <= w < v < wn.len() ==> #[trigger] lv[w] < #[trigger] lv[v]
            &&& forall|w: int, k: int, l: int|
                0 <= w < wn.len() && 0 <= k < l < wn[w].len() ==> #[trigger] wn[w][k] < #[trigger] wn[w][l]
            &&& self.all_nodes ==> forall|w: int|
                0 <= w < wn.len() ==> #[trigger] wn[w] == wave_members(p, w as nat) && lv[w] == w
            &&& self.next_wave <= self.waves@.len()
            &&& self.phase == Phase::InWave ==> self.next_wave < self.waves@.len()
            &&& self.phase == Phase::Finished ==> (self.cancelled || self.next_wave == self.waves@.len())
            &&& forall|w: int, k: int|
                0 <= w < self.next_wave && 0 <= k < wn[w].len() ==> finished_before(
                    self.events@,
                    self.events@.len() as int,
                    p.nodes@[#[trigger] wn[w][k]].id@,
                )
            &&& self.all_nodes ==> dependencies_finish_first(p, self.events@)
            &&& ids_unique(p) ==> self.statuses_ok()
            &&& generating_ok(self.project, p, if self.phase == Phase::InWave {
                self.waves@[self.next_wave as int].node_ids@
            } else {
                Seq::empty()
            })
            &&& self.total_successful + self.total_failed <= self.events@.len()
            &&& only_states_changed(p, self.project)
            &&& statuses_bounded(self.project, p)
            &&& self.total_successful + self.total_failed == sum_lens(wn.subrange(0, self.next_wave as int))
            &&& !self.all_nodes ==> self.total_skipped == 0
            &&& self.all_nodes ==> self.total_skipped == crate::planner::left_after(p, wn.len() as nat).len()
        }
    }

    /// Plans every node of the project and emits `Started`.
    pub fn start_all(&mut self)
        requires
            old(self).wf(),
            old(self).phase_spec() == Phase::Idle,
        ensures
            final(self).wf(),
            final(self).phase_spec() == Phase::Ready,
            final(self).runs_all(),
            final(self).initial_spec() == old(self).project_spec(),
            final(self).project_spec() == old(self).project_spec(),
            final(self).wave_count_spec() == final(self).wave_nodes_spec().len(),
            forall|w: int| 0 <= w < final(self).wave_nodes_spec().len() ==> #[trigger] final(self).wave_nodes_spec()[w]
                == wave_members(old(self).project_spec(), w as nat),
            wave_members(old(self).project_spec(), final(self).wave_count_spec() as nat).len() == 0,
            final(self).events_spec().len() == old(self).events_spec().len() + 1,
            final(self).events_spec().last() matches ExecutionEvent::Started { total_nodes, total_waves }
                && total_waves == final(self).wave_count_spec()
                && total_nodes == crate::planner::placed_after(old(self).project_spec(), total_waves as nat).len()
                && total_nodes == sum_lens(final(self).wave_nodes_spec()),
            final(self).cancelled_spec() == old(self).cancelled_spec(),
            final(self).next_wave_spec() == 0,
            final(self).successful_total_spec() == 0 && final(self).failed_total_spec() == 0,
            final(self).skipped_spec() == crate::planner::left_after(
                old(self).project_spec(),
                final(self).wave_count_spec() as nat,
            ).len(),
            final(self).levels_spec().len() == final(self).wave_count_spec(),
            forall|w: int| 0 <= w < final(self).wave_count_spec() ==> #[trigger] final(self).levels_spec()[w] == w,
    {
        let plan = ExecutionPlan::from_project(&self.project);
        let ghost p = self.project;
        let ghost wn = Seq::new(plan.waves@.len(), |w: int| wave_members(p, w as nat));
        let ghost lv = Seq::new(plan.waves@.len(), |w: int| w);
        proof {
            lemma_sum_members(p, plan.waves@.len() as nat);
            assert forall|w: int, k: int| 0 <= w < wn.len() && 0 <= k < wn[w].len() implies in_wave(p, lv[w] as nat, #[trigger] wn[w][k]) by {
                lemma_indices_members(|x: int| in_wave(p, w as nat, x), p.nodes@.len() as int);
            }
            assert forall|w: int, k: int, l: int| 0 <= w < wn.len() && 0 <= k < l < wn[w].len() implies #[trigger] wn[w][k] < #[trigger] wn[w][l] by {
                crate::planner::lemma_indices_increasing(|x: int| in_wave(p, w as nat, x), p.nodes@.len() as int);
            }
        }
        let total_waves = plan.waves.len();
        self.events.push(ExecutionEvent::Started { total_nodes: plan.total_nodes, total_waves });
        self.total_skipped = plan.skipped_nodes.len();
        self.waves = plan.waves;
        self.next_wave = 0;
        self.total_successful = 0;
        self.total_failed = 0;
        self.all_nodes = true;
        self.phase = Phase::Ready;
        self.initial = Ghost(p);
        self.wave_nodes = Ghost(wn);
        self.levels = Ghost(lv);
        proof {
            assert forall|j: int, s2: Seq<char>, t: Seq<char>|
                0 <= j < self.events@.len() && #[trigger] generating_for(self.events@[j], t) && #[trigger] p.links(s2, t)
                    implies finished_before(self.events@, j, s2) by {
                assert(self.events@[j] matches ExecutionEvent::Started { .. });
            }
        }
    }

    /// The level (wave number in the full plan) of each wave.
    pub closed spec fn levels_spec(&self) -> Seq<int> {
        self.levels@
    }

    /// Plans only the nodes whose ids are in `node_ids`: each wave of the full
    /// plan keeps those nodes, waves left empty are dropped, and the waves keep
    /// their numbers. Emits `Started`; nothing counts as skipped.
    pub fn start_nodes(&mut self, node_ids: &Vec<String>)
        requires
            old(self).wf(),
            old(self).phase_spec() == Phase::Idle,
        ensures
            final(self).wf(),
            final(self).phase_spec() == Phase::Ready,
            !final(self).runs_all(),
            final(self).initial_spec() == old(self).project_spec(),
            final(self).project_spec() == old(self).project_spec(),
            final(self).events_spec().len() == 1,
            final(self).events_spec()[0] matches ExecutionEvent::Started { total_nodes, total_waves }
                && total_waves == final(self).wave_count_spec()
                && total_nodes == sum_lens(final(self).wave_nodes_spec()),
            final(self).cancelled_spec() == old(self).cancelled_spec(),
            final(self).next_wave_spec() == 0,
            final(self).successful_total_spec() == 0 && final(self).failed_total_spec() == 0,
            final(self).skipped_spec() == 0,
            final(self).levels_spec().len() == final(self).wave_count_spec(),
            forall|w: int| 0 <= w < final(self).wave_count_spec() ==> #[trigger] final(self).wave_ids(w)
                == crate::planner::ids_at(old(self).project_spec(), final(self).wave_nodes_spec()[w]),
            final(self).wave_count_spec() == final(self).wave_nodes_spec().len(),
            forall|w: int| 0 <= w < final(self).wave_count_spec() ==> (#[trigger] final(self).wave_nodes_spec()[w]).len() > 0,
            forall|w: int, k: int|
                0 <= w < final(self).wave_count_spec() && 0 <= k < final(self).wave_nodes_spec()[w].len() ==> {
                    let n = #[trigger] final(self).wave_nodes_spec()[w][k];
                    &&& in_wave(old(self).project_spec(), final(self).levels_spec()[w] as nat, n)
                    &&& crate::validation::strings_view(node_ids@).contains(old(self).project_spec().nodes@[n].id@)
                },
            forall|j: nat, n: int|
                #[trigger] in_wave(old(self).project_spec(), j, n) && wave_members(old(self).project_spec(), j).len() > 0
                    && crate::validation::strings_view(node_ids@).contains(old(self).project_spec().nodes@[n].id@)
                    ==> exists|w: int, k: int|
                    0 <= w < final(self).wave_count_spec() && 0 <= k < final(self).wave_nodes_spec()[w].len()
                        && #[trigger] final(self).wave_nodes_spec()[w][k] == n,
    {
        let plan = ExecutionPlan::from_project(&self.project);
        let ghost p = self.project;
        let ghost sel = crate::validation::strings_view(node_ids@);
        let mut waves: Vec<ExecutionWave> = Vec::new();
        let ghost mut wn: Seq<Seq<int>> = Seq::empty();
        let ghost mut lv: Seq<int> = Seq::empty();
        let mut total: usize = 0;
        let nn = self.project.nodes.len();
        let mut w: usize = 0;
        while w < plan.waves.len()
            invariant
                crate::planner::is_plan_of(p, plan),
                sel == crate::validation::strings_view(node_ids@),
                p == self.project,
                nn == p.nodes@.len(),
                w <= plan.waves@.len(),
                waves@.len() == wn.len(),
                lv.len() == wn.len(),
                total <= crate::planner::placed_after(p, w as nat).len(),
                total == sum_lens(wn),
                forall|a: int| 0 <= a < wn.len() ==> (#[trigger] waves@[a]).node_ids@
                    == crate::planner::ids_at(p, wn[a]) && waves@[a].wave_number == lv[a] && 0 <= lv[a] < w
                    && wn[a].len() > 0,
                forall|a: int, b: int| 0 <= a < wn.len() && 0 <= b < wn[a].len() ==> in_wave(p, lv[a] as nat, #[trigger] wn[a][b])
                    && sel.contains(p.nodes@[wn[a][b]].id@),
                forall|a: int, v: int| 0 <= a < v < wn.len() ==> #[trigger] lv[a] < #[trigger] lv[v],
                forall|a: int, b: int, c: int|
                    0 <= a < wn.len() && 0 <= b < c < wn[a].len() ==> #[trigger] wn[a][b] < #[trigger] wn[a][c],
                forall|j: nat, n: int|
                    j < w && #[trigger] in_wave(p, j, n) && sel.contains(p.nodes@[n].id@) ==> exists|a: int, b: int|
                        0 <= a < wn.len() && 0 <= b < wn[a].len() && #[trigger] wn[a][b] == n,
            decreases plan.waves@.len() - w,
        {
            let ghost members = wave_members(p, w as nat);
            proof {
                assert(plan.waves@[w as int].node_ids@ == crate::planner::ids_at(p, members));
                lemma_indices_members(|x: int| in_wave(p, w as nat, x), p.nodes@.len() as int);
                crate::planner::lemma_indices_increasing(|x: int| in_wave(p, w as nat, x), p.nodes@.len() as int);
                crate::planner::lemma_placed_step(p, w as nat);
                crate::planner::lemma_placed_step(p, (w + 1) as nat);
            }
            let ids = &plan.waves[w].node_ids;
            let mut kept: Vec<String> = Vec::new();
            let ghost mut kept_idx: Seq<int> = Seq::empty();
            let mut k: usize = 0;
            while k < ids.len()
                invariant
                    sel == crate::validation::strings_view(node_ids@),
                    ids@ == crate::planner::ids_at(p, members),
                    members == wave_members(p, w as nat),
                    k <= ids@.len(),
                    kept@.len() <= k,
                    kept@ == crate::planner::ids_at(p, kept_idx),
                    forall|a: int| 0 <= a < kept_idx.len() ==> in_wave(p, w as nat, #[trigger] kept_idx[a])
                        && sel.contains(p.nodes@[kept_idx[a]].id@),
                    forall|a: int, c: int| 0 <= a < kept_idx.len() && k <= c < members.len() ==> #[trigger] kept_idx[a] < #[trigger] members[c],
                    forall|a: int, c: int| 0 <= a < c < kept_idx.len() ==> #[trigger] kept_idx[a] < #[trigger] kept_idx[c],
                    forall|c: int| 0 <= c < k && sel.contains(p.nodes@[#[trigger] members[c]].id@) ==> kept_idx.contains(members[c]),
                    forall|m: int| 0 <= m < members.len() ==> 0 <= #[trigger] members[m] < p.nodes@.len() && in_wave(p, w as nat, members[m]),
                    forall|m: int, c: int| 0 <= m < c < members.len() ==> #[trigger] members[m] < #[trigger] members[c],
                decreases ids@.len() - k,
            {
                let ghost old_kept = kept_idx;
                proof {
                    assert(ids@[k as int] == p.nodes@[members[k as int]].id);
                }
                let found = contains_id(node_ids, &ids[k]);
                if found {
                    kept.push(ids[k].clone());
                    proof {
                        kept_idx = kept_idx.push(members[k as int]);
                        assert(kept@ =~= crate::planner::ids_at(p, kept_idx));
                        assert(kept_idx[kept_idx.len() - 1] == members[k as int]);
                        assert forall|a: int| 0 <= a < kept_idx.len() implies in_wave(p, w as nat, #[trigger] kept_idx[a])
                            && sel.contains(p.nodes@[kept_idx[a]].id@) by {
                            if a < old_kept.len() {
                                assert(kept_idx[a] == old_kept[a]);
                            }
                        }
                    }
                }
                proof {
                    assert forall|c: int| 0 <= c < k + 1 && sel.contains(p.nodes@[#[trigger] members[c]].id@) implies kept_idx.contains(members[c]) by {
                        if c < k {
                            assert(old_kept.contains(members[c]));
                            let b = choose|b: int| 0 <= b < old_kept.len() && old_kept[b] == members[c];
                            assert(kept_idx[b] == members[c]);
                        } else if found {
                            assert(kept_idx[kept_idx.len() - 1] == members[c]);
                        } else {
                            assert(!sel.contains(p.nodes@[members[c]].id@));
                        }
                    }
                }
                k += 1;
            }
            if kept.len() > 0 {
                let ghost old_wn = wn;
                let ghost old_lv = lv;
                let ghost old_waves = waves@;
                total = total + kept.len();
                waves.push(ExecutionWave { wave_number: w, node_ids: kept });
                proof {
                    wn = wn.push(kept_idx);
                    lv = lv.push(w as int);
                    assert(wn.drop_last() =~= old_wn);
                    assert(kept_idx.len() == kept@.len());
                    assert forall|a: int| 0 <= a < wn.len() implies (#[trigger] waves@[a]).node_ids@
                        == crate::planner::ids_at(p, wn[a]) && waves@[a].wave_number == lv[a] && 0 <= lv[a] < w + 1
                        && wn[a].len() > 0 by {
                        if a < old_wn.len() {
                            assert(waves@[a] == old_waves[a]);
                            assert(wn[a] == old_wn[a]);
                            assert(lv[a] == old_lv[a]);
                        } else {
                            assert(waves@[a].node_ids@ == kept@);
                        }
                    }
                    assert forall|a: int, v: int| 0 <= a < v < wn.len() implies #[trigger] lv[a] < #[trigger] lv[v] by {
                        assert(old_waves[a].wave_number == old_lv[a]);
                        if v < old_lv.len() {
                            assert(old_lv[a] < old_lv[v]);
                        }
                    }
                    assert forall|j: nat, n: int|
                        j < w + 1 && #[trigger] in_wave(p, j, n) && sel.contains(p.nodes@[n].id@) implies exists|a: int, b: int|
                            0 <= a < wn.len() && 0 <= b < wn[a].len() && #[trigger] wn[a][b] == n by {
                        if j < w {
                            let (a, b) = choose|a: int, b: int| 0 <= a < old_wn.len() && 0 <= b < old_wn[a].len() && #[trigger] old_wn[a][b] == n;
                            assert(wn[a] == old_wn[a]);
                        } else {
                            assert((|x: int| in_wave(p, w as nat, x))(n));
                            assert(members.contains(n));
                            let c = choose|c: int| 0 <= c < members.len() && members[c] == n;
                            assert(kept_idx.contains(members[c]));
                            let b = choose|b: int| 0 <= b < kept_idx.len() && kept_idx[b] == n;
                            assert(wn[old_wn.len() as int][b] == n);
                        }
                    }
                }
            } else {
                proof {
                    assert forall|j: nat, n: int|
                        j < w + 1 && #[trigger] in_wave(p, j, n) && sel.contains(p.nodes@[n].id@) implies exists|a: int, b: int|
                            0 <= a < wn.len() && 0 <= b < wn[a].len() && #[trigger] wn[a][b] == n by {
                        if j == w {
                            assert((|x: int| in_wave(p, w as nat, x))(n));
                            assert(members.contains(n));
                            let c = choose|c: int| 0 <= c < members.len() && members[c] == n;
                            assert(kept_idx.contains(members[c]));
                        }
                    }
                }
            }
            w += 1;
        }
        proof {
            assert forall|j: nat, n: int|
                #[trigger] in_wave(p, j, n) && wave_members(p, j).len() > 0 && sel.contains(p.nodes@[n].id@)
                    implies exists|a: int, b: int|
                    0 <= a < wn.len() && 0 <= b < wn[a].len() && #[trigger] wn[a][b] == n by {
                if j >= w {
                    lemma_no_wave_after_last(p, w as nat, j);
                }
            }
        }
        proof {
            assert forall|a: int| 0 <= a < wn.len() implies (#[trigger] wn[a]).len() > 0 by {
                assert(waves@[a].node_ids@ == crate::planner::ids_at(p, wn[a]));
            }
            assert forall|a: int| 0 <= a < wn.len() implies 0 <= #[trigger] lv[a] by {
                assert(waves@[a].node_ids@ == crate::planner::ids_at(p, wn[a]));
            }
        }
        self.events.push(ExecutionEvent::Started { total_nodes: total, total_waves: waves.len() });
        self.total_skipped = 0;
        self.waves = waves;
        self.next_wave = 0;
        self.total_successful = 0;
        self.total_failed = 0;
        self.all_nodes = false;
        self.phase = Phase::Ready;
        self.initial = Ghost(p);
        self.wave_nodes = Ghost(wn);
        self.levels = Ghost(lv);
        proof {
            assert forall|j: int, s2: Seq<char>, t: Seq<char>|
                0 <= j < self.events@.len() && #[trigger] generating_for(self.events@[j], t) && #[trigger] p.links(s2, t)
                    implies finished_before(self.events@, j, s2) by {
                assert(self.events@[j] matches ExecutionEvent::Started { .. });
            }
        }
    }

    /// The job for node `node_id` in the current project.
    fn prepare_job(&self, node_id: &String) -> (r: NodeJob)
        ensures
            job_for(self.project, self.api_keys, *node_id, r),
    {
        prepare_generation(&self.project, &self.api_keys, node_id)
    }


    /// The credentials.
    pub closed spec fn api_keys_spec(&self) -> ApiKeys {
        self.api_keys
    }

    /// The ids of wave `w`.
    pub closed spec fn wave_ids(&self, w: int) -> Seq<String> {
        self.waves@[w].node_ids@
    }

    /// Starts the next wave, or ends the execution. When every wave ran, or
    /// cancellation was asked, it emits `Cancelled` (if waves were left) and
    /// `Completed`, and returns `None`. Otherwise it emits `WaveStarted`,
    /// marks each node of the wave as generating (one event each) and returns
    /// the wave's jobs, in the wave's order.
    #[verifier::rlimit(60)]
    pub fn begin_wave(&mut self) -> (r: Option<Vec<NodeJob>>)
        requires
            old(self).wf(),
            old(self).phase_spec() == Phase::Ready,
        ensures
            final(self).wf(),
            final(self).initial_spec() == old(self).initial_spec(),
            final(self).runs_all() == old(self).runs_all(),
            final(self).cancelled_spec() == old(self).cancelled_spec(),
            final(self).events_spec().len() > old(self).events_spec().len(),
            forall|i: int| 0 <= i < old(self).events_spec().len() ==> #[trigger] final(self).events_spec()[i]
                == old(self).events_spec()[i],
            final(self).wave_nodes_spec() == old(self).wave_nodes_spec(),
            final(self).same_plan(old(self)),
            final(self).successful_total_spec() == old(self).successful_total_spec(),
            final(self).failed_total_spec() == old(self).failed_total_spec(),
            (old(self).next_wave_spec() < old(self).wave_count_spec() && old(self).cancelled_spec())
                ==> final(self).events_spec()[old(self).events_spec().len() as int] is Cancelled,
            (old(self).next_wave_spec() == old(self).wave_count_spec() || old(self).cancelled_spec())
                ==> final(self).events_spec().len() == old(self).events_spec().len() + (if old(
                self,
            ).next_wave_spec() < old(self).wave_count_spec() {
                2int
            } else {
                1int
            }) && final(self).events_spec().last() == (ExecutionEvent::Completed {
                total_successful: old(self).successful_total_spec() as usize,
                total_failed: old(self).failed_total_spec() as usize,
                total_skipped: old(self).skipped_spec() as usize,
            }),
            !(old(self).next_wave_spec() == old(self).wave_count_spec() || old(self).cancelled_spec())
                ==> ({
                let w = old(self).next_wave_spec();
                let base = old(self).events_spec().len() as int;
                &&& final(self).events_spec().len() == base + 1 + old(self).wave_ids(w).len()
                &&& final(self).events_spec()[base] matches ExecutionEvent::WaveStarted { wave_number, node_ids }
                    && node_ids@ == old(self).wave_ids(w) && wave_number == old(self).levels_spec()[w]
                &&& only_states_changed(old(self).project_spec(), final(self).project_spec())
                &&& forall|m: int|
                    0 <= m < old(self).project_spec().nodes@.len() && !first_with_one_of(
                        old(self).project_spec(),
                        old(self).wave_ids(w),
                        m,
                    ) ==> #[trigger] final(self).project_spec().nodes@[m] == old(self).project_spec().nodes@[m]
                &&& forall|k: int| 0 <= k < old(self).wave_ids(w).len() ==> starting_event(
                    #[trigger] final(self).events_spec()[base + 1 + k],
                    old(self).wave_ids(w)[k]@,
                )
                &&& ids_unique(old(self).initial_spec()) ==> forall|k: int|
                    0 <= k < old(self).wave_ids(w).len() ==> {
                        let n = #[trigger] old(self).wave_nodes_spec()[w][k];
                        final(self).project_spec().nodes@[n] == (crate::model::CodeNode {
                            status: NodeStatus::Generating,
                            error_message: None,
                            ..old(self).project_spec().nodes@[n]
                        })
                    }
            }),
            (old(self).next_wave_spec() == old(self).wave_count_spec() || old(self).cancelled_spec())
                ==> (r is None && final(self).phase_spec() == Phase::Finished
                && final(self).project_spec() == old(self).project_spec()
                && final(self).events_spec().last() is Completed),
            !(old(self).next_wave_spec() == old(self).wave_count_spec() || old(self).cancelled_spec())
                ==> (final(self).phase_spec() == Phase::InWave
                && final(self).next_wave_spec() == old(self).next_wave_spec()
                && (r matches Some(jobs)
                && jobs@.len() == final(self).wave_ids(final(self).next_wave_spec()).len()
                && forall|k: int|
                    0 <= k < jobs@.len() ==> job_for(
                        final(self).project_spec(),
                        final(self).api_keys_spec(),
                        final(self).wave_ids(final(self).next_wave_spec())[k],
                        #[trigger] jobs@[k],
                    ))),
    {
        let ghost p = self.initial@;
        let ghost wn = self.wave_nodes@;
        let ghost lv = self.levels@;
        proof {
            assert forall|a: int| 0 <= a < wn.len() implies 0 <= #[trigger] lv[a] by {
                assert(self.waves@[a].wave_number == lv[a]);
            }
        }
        if self.next_wave == self.waves.len() || self.cancelled {
            let ghost e0 = self.events@;
            if self.next_wave < self.waves.len() {
                self.events.push(ExecutionEvent::Cancelled);
                proof {
                    lemma_finished_push(e0, ExecutionEvent::Cancelled);
                    if self.all_nodes {
                        lemma_log_push(p, e0, ExecutionEvent::Cancelled);
                    }
                }
            }
            let ghost e1 = self.events@;
            let ev = ExecutionEvent::Completed {
                total_successful: self.total_successful,
                total_failed: self.total_failed,
                total_skipped: self.total_skipped,
            };
            self.events.push(ev);
            self.phase = Phase::Finished;
            proof {
                assert(generating_ok(self.project, p, Seq::empty()));
                assert(only_states_changed(p, self.project));
                assert(statuses_bounded(self.project, p));
                lemma_finished_push(e1, ev);
                if self.all_nodes {
                    lemma_log_push(p, e1, ev);
                }
            }
            return None;
        }
        let w = self.next_wave;
        let ghost e0 = self.events@;
        let ghost proj_start = self.project;
        let ids_copy = self.waves[w].node_ids.clone();
        proof {
            assert(ids_copy@ =~= self.waves@[w as int].node_ids@);
        }
        let started = ExecutionEvent::WaveStarted {
            wave_number: self.waves[w].wave_number,
            node_ids: ids_copy,
        };
        self.events.push(started);
        let ghost e_s = self.events@;
        proof {
            lemma_finished_push(e0, started);
            if self.all_nodes {
                lemma_log_push(p, e0, started);
            }
        }
        let mut k: usize = 0;
        while k < self.waves[w].node_ids.len()
            invariant
                self.initial@ == p,
                self.wave_nodes@ == wn,
                self.levels@ == lv,
                self.phase == Phase::Ready,
                self.next_wave == w,
                self.waves == old(self).waves,
                self.api_keys == old(self).api_keys,
                self.cancelled == old(self).cancelled,
                self.all_nodes == old(self).all_nodes,
                self.total_successful == old(self).total_successful,
                self.total_failed == old(self).total_failed,
                self.total_skipped == old(self).total_skipped,
                self.events@.len() > old(self).events@.len(),
                w < self.waves@.len(),
                self.waves@.len() == wn.len(),
                lv.len() == wn.len(),
                k <= self.waves@[w as int].node_ids@.len(),
                self.waves@[w as int].node_ids@ == crate::planner::ids_at(p, wn[w as int]),
                forall|a: int| 0 <= a < wn.len() ==> 0 <= #[trigger] lv[a],
                forall|a: int, b: int| 0 <= a < wn.len() && 0 <= b < wn[a].len() ==> in_wave(p, lv[a] as nat, #[trigger] wn[a][b]),
                forall|a: int, v: int| 0 <= a < v < wn.len() ==> #[trigger] lv[a] < #[trigger] lv[v],
                forall|a: int, b: int, c: int|
                    0 <= a < wn.len() && 0 <= b < c < wn[a].len() ==> #[trigger] wn[a][b] < #[trigger] wn[a][c],
                self.all_nodes ==> forall|a: int|
                    0 <= a < wn.len() ==> #[trigger] wn[a] == wave_members(p, a as nat) && lv[a] == a,
                self.project.edges == p.edges,
                self.project.nodes@.len() == p.nodes@.len(),
                forall|i: int| 0 <= i < p.nodes@.len() ==> (#[trigger] self.project.nodes@[i]).id == p.nodes@[i].id,
                forall|a: int, b: int|
                    0 <= a < w && 0 <= b < wn[a].len() ==> finished_before(
                        self.events@,
                        self.events@.len() as int,
                        p.nodes@[#[trigger] wn[a][b]].id@,
                    ),
                self.all_nodes ==> dependencies_finish_first(p, self.events@),
                ids_unique(p) ==> forall|n: int|
                    0 <= n < self.project.nodes@.len() ==> {
                        let st = (#[trigger] self.project.nodes@[n]).status;
                        if executed_in(wn, w as int, n) {
                            st == NodeStatus::Complete || st == NodeStatus::Error
                        } else if exists|b: int| 0 <= b < k && #[trigger] wn[w as int][b] == n {
                            st == NodeStatus::Generating
                        } else {
                            self.project.nodes@[n] == p.nodes@[n]
                        }
                    },
                self.total_successful + self.total_failed <= self.events@.len(),
                self.events@.len() == e_s.len() + k,
                e_s.len() == e0.len() + 1,
                e_s[e0.len() as int] == started,
                forall|i: int| 0 <= i < e_s.len() ==> #[trigger] self.events@[i] == e_s[i],
                forall|b: int| 0 <= b < k ==> starting_event(#[trigger] self.events@[e_s.len() + b], self.waves@[w as int].node_ids@[b]@),
                proj_start.nodes@.len() == p.nodes@.len(),
                ids_unique(p) ==> forall|b: int|
                    0 <= b < k ==> #[trigger] self.project.nodes@[wn[w as int][b]] == (crate::model::CodeNode {
                        status: NodeStatus::Generating,
                        error_message: None,
                        ..proj_start.nodes@[wn[w as int][b]]
                    }),
                ids_unique(p) ==> forall|b: int|
                    k <= b < wn[w as int].len() ==> #[trigger] self.project.nodes@[wn[w as int][b]]
                        == proj_start.nodes@[wn[w as int][b]],
                generating_ok(self.project, p, self.waves@[w as int].node_ids@.subrange(0, k as int)),
                only_states_changed(p, proj_start),
                only_states_changed(proj_start, self.project),
                only_states_changed(p, self.project),
                statuses_bounded(self.project, p),
                forall|m: int|
                    0 <= m < proj_start.nodes@.len() && !first_with_one_of(
                        proj_start,
                        self.waves@[w as int].node_ids@.subrange(0, k as int),
                        m,
                    ) ==> #[trigger] self.project.nodes@[m] == proj_start.nodes@[m],
            decreases self.waves@[w as int].node_ids@.len() - k,
        {
            let id = self.waves[w].node_ids[k].clone();
            let ghost n = wn[w as int][k as int];
            let ghost proj0 = self.project;
            proof {
                assert(id == p.nodes@[n].id);
                if ids_unique(p) {
                    lemma_same_ids_unique(p, self.project);
                    lemma_unique_first(self.project, n);
                    lemma_not_earlier(p, wn, lv, w as int, k as int);
                }
            }
            set_node_state(&mut self.project, &id, NodeStatus::Generating, None, None);
            proof {
                let ids = self.waves@[w as int].node_ids@;
                assert forall|i: int| 0 <= i < proj0.nodes@.len() implies (#[trigger] self.project.nodes@[i]).id == proj0.nodes@[i].id by {
                    if proj0.is_first_with_id(i, id@) {
                    }
                }
                assert forall|m: int|
                    0 <= m < self.project.nodes@.len() && (#[trigger] self.project.nodes@[m]).status == NodeStatus::Generating
                        implies p.nodes@[m].status == NodeStatus::Generating || (self.project.is_first_with_id(
                        m,
                        self.project.nodes@[m].id@,
                    ) && exists|b: int| 0 <= b < ids.subrange(0, k + 1).len() && (#[trigger] ids.subrange(0, k + 1)[b])@ == self.project.nodes@[m].id@) by {
                    lemma_first_same_ids(proj0, self.project, m, self.project.nodes@[m].id@);
                    if proj0.is_first_with_id(m, id@) {
                        assert(ids.subrange(0, k + 1)[k as int] == ids[k as int]);
                    } else {
                        assert(self.project.nodes@[m] == proj0.nodes@[m]);
                        if !(p.nodes@[m].status == NodeStatus::Generating) {
                            let b = choose|b: int| 0 <= b < ids.subrange(0, k as int).len() && (#[trigger] ids.subrange(0, k as int)[b])@ == proj0.nodes@[m].id@;
                            assert(ids.subrange(0, k + 1)[b] == ids.subrange(0, k as int)[b]);
                        }
                    }
                }
                assert forall|i: int| 0 <= i < proj0.nodes@.len() implies same_but_state(proj0.nodes@[i], #[trigger] self.project.nodes@[i]) by {
                    if proj0.is_first_with_id(i, id@) {
                    }
                }
                assert forall|i: int| 0 <= i < proj0.nodes@.len() implies same_but_state(proj_start.nodes@[i], #[trigger] self.project.nodes@[i])
                    && same_but_state(p.nodes@[i], self.project.nodes@[i]) by {
                    assert(same_but_state(proj_start.nodes@[i], proj0.nodes@[i]));
                    assert(same_but_state(p.nodes@[i], proj0.nodes@[i]));
                    if proj0.is_first_with_id(i, id@) {
                    }
                }
                assert forall|m: int| 0 <= m < self.project.nodes@.len() implies {
                    let st = (#[trigger] self.project.nodes@[m]).status;
                    st == NodeStatus::Complete || st == NodeStatus::Error || st == NodeStatus::Generating
                        || st == p.nodes@[m].status
                } by {
                    if !proj0.is_first_with_id(m, id@) {
                        assert(self.project.nodes@[m] == proj0.nodes@[m]);
                    }
                }
                assert forall|m: int|
                    0 <= m < proj_start.nodes@.len() && !first_with_one_of(
                        proj_start,
                        ids.subrange(0, k + 1),
                        m,
                    ) implies #[trigger] self.project.nodes@[m] == proj_start.nodes@[m] by {
                    lemma_first_same_ids(proj_start, proj0, m, id@);
                    if proj0.is_first_with_id(m, id@) {
                        assert(ids.subrange(0, k + 1)[k as int] == ids[k as int]);
                        assert(proj_start.is_first_with_id(m, ids.subrange(0, k + 1)[k as int]@));
                    } else {
                        assert(self.project.nodes@[m] == proj0.nodes@[m]);
                        if first_with_one_of(proj_start, ids.subrange(0, k as int), m) {
                            let b = choose|b: int| 0 <= b < ids.subrange(0, k as int).len() && proj_start.is_first_with_id(m, (#[trigger] ids.subrange(0, k as int)[b])@);
                            assert(ids.subrange(0, k + 1)[b] == ids.subrange(0, k as int)[b]);
                        }
                    }
                }
            }
            let ghost e1 = self.events@;
            let ev = ExecutionEvent::NodeUpdate(
                NodeProgress {
                    node_id: id,
                    status: NodeStatus::Generating,
                    message: Some(String::from_str("Starting generation...")),
                    generated_code: None,
                },
            );
            proof {
                lemma_finished_push(e1, ev);
                if self.all_nodes {
                    lemma_dependencies_done(p, wn, w as int, n, e1);
                    lemma_log_push(p, e1, ev);
                }
            }
            self.events.push(ev);
            proof {
                assert(self.events@[e_s.len() + k] == ev);
                assert forall|b: int| 0 <= b < k + 1 implies starting_event(#[trigger] self.events@[e_s.len() + b], self.waves@[w as int].node_ids@[b]@) by {
                    if b < k {
                        assert(self.events@[e_s.len() + b] == e1[e_s.len() + b]);
                    }
                }
                assert forall|i: int| 0 <= i < e_s.len() implies #[trigger] self.events@[i] == e_s[i] by {
                    assert(self.events@[i] == e1[i]);
                }
                if ids_unique(p) {
                    assert forall|b: int| 0 <= b < k + 1 implies #[trigger] self.project.nodes@[wn[w as int][b]] == (crate::model::CodeNode {
                        status: NodeStatus::Generating,
                        error_message: None,
                        ..proj_start.nodes@[wn[w as int][b]]
                    }) by {
                        if b < k {
                            assert(wn[w as int][b] < wn[w as int][k as int]);
                            assert(!proj0.is_first_with_id(wn[w as int][b], id@));
                        } else {
                            assert(proj0.nodes@[n] == proj_start.nodes@[n]);
                        }
                    }
                    assert forall|b: int| k + 1 <= b < wn[w as int].len() implies #[trigger] self.project.nodes@[wn[w as int][b]]
                        == proj_start.nodes@[wn[w as int][b]] by {
                        assert(wn[w as int][k as int] < wn[w as int][b]);
                        assert(!proj0.is_first_with_id(wn[w as int][b], id@));
                    }
                }
                if ids_unique(p) {
                    assert forall|m: int| 0 <= m < self.project.nodes@.len() implies {
                        let st = (#[trigger] self.project.nodes@[m]).status;
                        if executed_in(wn, w as int, m) {
                            st == NodeStatus::Complete || st == NodeStatus::Error
                        } else if exists|b: int| 0 <= b < k + 1 && #[trigger] wn[w as int][b] == m {
                            st == NodeStatus::Generating
                        } else {
                            self.project.nodes@[m] == p.nodes@[m]
                        }
                    } by {
                        if m != n {
                            assert(!proj0.is_first_with_id(m, id@));
                            assert(self.project.nodes@[m] == proj0.nodes@[m]);
                            if exists|b: int| 0 <= b < k + 1 && #[trigger] wn[w as int][b] == m {
                                let b = choose|b: int| 0 <= b < k + 1 && #[trigger] wn[w as int][b] == m;
                                assert(b != k);
                            }
                        } else {
                            assert(wn[w as int][k as int] == m);
                        }
                    }
                }
            }
            k += 1;
        }
        assert(self.waves@[w as int].node_ids@.subrange(0, k as int) =~= self.waves@[w as int].node_ids@);
        self.phase = Phase::InWave;
        let mut jobs: Vec<NodeJob> = Vec::new();
        let mut k: usize = 0;
        while k < self.waves[w].node_ids.len()
            invariant
                self.wf(),
                self.phase == Phase::InWave,
                self.next_wave == w,
                self.initial@ == p,
                self.waves == old(self).waves,
                self.api_keys == old(self).api_keys,
                self.cancelled == old(self).cancelled,
                self.all_nodes == old(self).all_nodes,
                self.total_successful == old(self).total_successful,
                self.total_failed == old(self).total_failed,
                self.total_skipped == old(self).total_skipped,
                self.events@.len() > old(self).events@.len(),
                w < self.waves@.len(),
                k <= self.waves@[w as int].node_ids@.len(),
                jobs@.len() == k,
                forall|b: int| 0 <= b < k ==> job_for(self.project, self.api_keys, self.waves@[w as int].node_ids@[b], #[trigger] jobs@[b]),
            decreases self.waves@[w as int].node_ids@.len() - k,
        {
            let job = self.prepare_job(&self.waves[w].node_ids[k]);
            jobs.push(job);
            k += 1;
        }
        Some(jobs)
    }

    /// Applies the results of the wave that is out, in order: each node
    /// becomes complete (with its code) or failed (with its error), with one
    /// event each; then emits `WaveCompleted` with the wave's counts.
    #[verifier::rlimit(60)]
    pub fn finish_wave(&mut self, results: Vec<NodeResult>)
        requires
            old(self).wf(),
            old(self).phase_spec() == Phase::InWave,
            results@.len() == old(self).wave_ids(old(self).next_wave_spec()).len(),
            forall|k: int| 0 <= k < results@.len() ==> (#[trigger] results@[k]).node_id@
                == old(self).wave_ids(old(self).next_wave_spec())[k]@,
        ensures
            final(self).wf(),
            final(self).phase_spec() == Phase::Ready,
            final(self).next_wave_spec() == old(self).next_wave_spec() + 1,
            final(self).initial_spec() == old(self).initial_spec(),
            final(self).runs_all() == old(self).runs_all(),
            final(self).cancelled_spec() == old(self).cancelled_spec(),
            final(self).wave_nodes_spec() == old(self).wave_nodes_spec(),
            final(self).events_spec().len() == old(self).events_spec().len() + results@.len() + 1,
            forall|i: int| 0 <= i < old(self).events_spec().len() ==> #[trigger] final(self).events_spec()[i]
                == old(self).events_spec()[i],
            forall|k: int| 0 <= k < results@.len() ==> reports_result(
                #[trigger] final(self).events_spec()[old(self).events_spec().len() + k],
                results@[k],
            ),
            final(self).events_spec().last() == (ExecutionEvent::WaveCompleted {
                wave_number: old(self).levels_spec()[old(self).next_wave_spec()] as usize,
                successful: count_success(results@) as usize,
                failed: (results@.len() - count_success(results@)) as usize,
            }),
            final(self).same_plan(old(self)),
            final(self).successful_total_spec() == old(self).successful_total_spec() + count_success(results@),
            final(self).failed_total_spec() == old(self).failed_total_spec() + results@.len() - count_success(results@),
            only_states_changed(old(self).project_spec(), final(self).project_spec()),
            forall|m: int|
                0 <= m < old(self).project_spec().nodes@.len() && !first_with_one_of(
                    old(self).project_spec(),
                    old(self).wave_ids(old(self).next_wave_spec()),
                    m,
                ) ==> #[trigger] final(self).project_spec().nodes@[m] == old(self).project_spec().nodes@[m],
            ids_unique(old(self).initial_spec()) ==> forall|k: int|
                0 <= k < results@.len() ==> {
                    let n = #[trigger] old(self).wave_nodes_spec()[old(self).next_wave_spec()][k];
                    holds_result(old(self).project_spec().nodes@[n], final(self).project_spec().nodes@[n], results@[k])
                },
    {
        let ghost p = self.initial@;
        let ghost wn = self.wave_nodes@;
        let ghost lv = self.levels@;
        let ghost e_start = self.events@;
        let ghost proj_start = self.project;
        proof {
            assert forall|a: int| 0 <= a < wn.len() implies 0 <= #[trigger] lv[a] by {
                assert(self.waves@[a].wave_number == lv[a]);
            }
        }
        let w = self.next_wave;
        let nw = self.waves.len();
        assert(self.waves@[w as int].node_ids@.subrange(0, results@.len() as int) =~= self.waves@[w as int].node_ids@);
        assert(results@.subrange(0, 0) =~= Seq::<NodeResult>::empty());
        assert forall|m: int| 0 <= m < proj_start.nodes@.len() implies !first_with_one_of(
            proj_start,
            self.waves@[w as int].node_ids@.subrange(0, 0),
            m,
        ) by {}
        let mut successful: usize = 0;
        let mut failed: usize = 0;
        let mut k: usize = 0;
        while k < results.len()
            invariant
                self.initial@ == p,
                self.wave_nodes@ == wn,
                self.levels@ == lv,
                self.phase == Phase::InWave,
                self.next_wave == w,
                nw == self.waves@.len(),
                self.waves == old(self).waves,
                self.api_keys == old(self).api_keys,
                self.cancelled == old(self).cancelled,
                self.all_nodes == old(self).all_nodes,
                self.total_successful == old(self).total_successful,
                self.total_failed == old(self).total_failed,
                self.total_skipped == old(self).total_skipped,
                self.events@.len() >= old(self).events@.len(),
                w < self.waves@.len(),
                self.waves@.len() == wn.len(),
                lv.len() == wn.len(),
                k <= results@.len(),
                results@.len() == self.waves@[w as int].node_ids@.len(),
                forall|b: int| 0 <= b < results@.len() ==> (#[trigger] results@[b]).node_id@
                    == self.waves@[w as int].node_ids@[b]@,
                self.waves@[w as int].node_ids@ == crate::planner::ids_at(p, wn[w as int]),
                forall|a: int| 0 <= a < wn.len() ==> 0 <= #[trigger] lv[a],
                forall|a: int, b: int| 0 <= a < wn.len() && 0 <= b < wn[a].len() ==> in_wave(p, lv[a] as nat, #[trigger] wn[a][b]),
                forall|a: int, v: int| 0 <= a < v < wn.len() ==> #[trigger] lv[a] < #[trigger] lv[v],
                forall|a: int, b: int, c: int|
                    0 <= a < wn.len() && 0 <= b < c < wn[a].len() ==> #[trigger] wn[a][b] < #[trigger] wn[a][c],
                self.project.edges == p.edges,
                self.project.nodes@.len() == p.nodes@.len(),
                forall|i: int| 0 <= i < p.nodes@.len() ==> (#[trigger] self.project.nodes@[i]).id == p.nodes@[i].id,
                forall|a: int, b: int|
                    0 <= a < w && 0 <= b < wn[a].len() ==> finished_before(
                        self.events@,
                        self.events@.len() as int,
                        p.nodes@[#[trigger] wn[a][b]].id@,
                    ),
                forall|b: int|
                    0 <= b < k ==> finished_before(
                        self.events@,
                        self.events@.len() as int,
                        p.nodes@[#[trigger] wn[w as int][b]].id@,
                    ),
                self.all_nodes ==> dependencies_finish_first(p, self.events@),
                ids_unique(p) ==> forall|n: int|
                    0 <= n < self.project.nodes@.len() ==> {
                        let st = (#[trigger] self.project.nodes@[n]).status;
                        if executed_in(wn, w as int, n) || exists|b: int| 0 <= b < k && #[trigger] wn[w as int][b] == n {
                            st == NodeStatus::Complete || st == NodeStatus::Error
                        } else if exists|b: int| 0 <= b < wn[w as int].len() && #[trigger] wn[w as int][b] == n {
                            st == NodeStatus::Generating
                        } else {
                            self.project.nodes@[n] == p.nodes@[n]
                        }
                    },
                self.total_successful + self.total_failed + successful + failed <= self.events@.len(),
                self.events@.len() == e_start.len() + k,
                forall|i: int| 0 <= i < e_start.len() ==> #[trigger] self.events@[i] == e_start[i],
                forall|b: int| 0 <= b < k ==> reports_result(#[trigger] self.events@[e_start.len() + b], results@[b]),
                proj_start.nodes@.len() == p.nodes@.len(),
                ids_unique(p) ==> forall|b: int|
                    0 <= b < k ==> holds_result(
                        proj_start.nodes@[#[trigger] wn[w as int][b]],
                        self.project.nodes@[wn[w as int][b]],
                        results@[b],
                    ),
                ids_unique(p) ==> forall|b: int|
                    k <= b < wn[w as int].len() ==> #[trigger] self.project.nodes@[wn[w as int][b]]
                        == proj_start.nodes@[wn[w as int][b]],
                generating_ok(
                    self.project,
                    p,
                    self.waves@[w as int].node_ids@.subrange(k as int, results@.len() as int),
                ),
                only_states_changed(p, proj_start),
                only_states_changed(proj_start, self.project),
                only_states_changed(p, self.project),
                statuses_bounded(self.project, p),
                forall|m: int|
                    0 <= m < proj_start.nodes@.len() && !first_with_one_of(
                        proj_start,
                        self.waves@[w as int].node_ids@.subrange(0, k as int),
                        m,
                    ) ==> #[trigger] self.project.nodes@[m] == proj_start.nodes@[m],
                successful == count_success(results@.subrange(0, k as int)),
                successful + failed == k,
                self.total_successful + self.total_failed == sum_lens(wn.subrange(0, w as int)),
            decreases results@.len() - k,
        {
            let r = &results[k];
            let ghost n = wn[w as int][k as int];
            let ghost proj0 = self.project;
            let ghost e1 = self.events@;
            proof {
                assert(r.node_id@ == p.nodes@[n].id@);
                if ids_unique(p) {
                    lemma_same_ids_unique(p, self.project);
                    lemma_unique_first(self.project, n);
                }
            }
            let ev = if r.success {
                set_node_state(&mut self.project, &r.node_id, NodeStatus::Complete, r.generated_code.clone(), None);
                ExecutionEvent::NodeUpdate(
                    NodeProgress {
                        node_id: r.node_id.clone(),
                        status: NodeStatus::Complete,
                        message: Some(String::from_str("Generation complete")),
                        generated_code: r.generated_code.clone(),
                    },
                )
            } else {
                set_node_state(&mut self.project, &r.node_id, NodeStatus::Error, None, r.error_message.clone());
                ExecutionEvent::NodeUpdate(
                    NodeProgress {
                        node_id: r.node_id.clone(),
                        status: NodeStatus::Error,
                        message: r.error_message.clone(),
                        generated_code: None,
                    },
                )
            };
            proof {
                let ids = self.waves@[w as int].node_ids@;
                let len = results@.len() as int;
                assert forall|i: int| 0 <= i < proj0.nodes@.len() implies (#[trigger] self.project.nodes@[i]).id == proj0.nodes@[i].id by {
                    if proj0.is_first_with_id(i, r.node_id@) {
                    }
                }
                assert forall|m: int|
                    0 <= m < self.project.nodes@.len() && (#[trigger] self.project.nodes@[m]).status == NodeStatus::Generating
                        implies p.nodes@[m].status == NodeStatus::Generating || (self.project.is_first_with_id(
                        m,
                        self.project.nodes@[m].id@,
                    ) && exists|b: int| 0 <= b < ids.subrange(k + 1, len).len() && (#[trigger] ids.subrange(k + 1, len)[b])@ == self.project.nodes@[m].id@) by {
                    lemma_first_same_ids(proj0, self.project, m, self.project.nodes@[m].id@);
                    if proj0.is_first_with_id(m, r.node_id@) {
                    } else {
                        assert(self.project.nodes@[m] == proj0.nodes@[m]);
                        if !(p.nodes@[m].status == NodeStatus::Generating) {
                            let b = choose|b: int| 0 <= b < ids.subrange(k as int, len).len() && (#[trigger] ids.subrange(k as int, len)[b])@ == proj0.nodes@[m].id@;
                            if b == 0 {
                                assert(ids.subrange(k as int, len)[0] == ids[k as int]);
                                assert(r.node_id@ == ids[k as int]@);
                            } else {
                                assert(ids.subrange(k + 1, len)[b - 1] == ids.subrange(k as int, len)[b]);
                            }
                        }
                    }
                }
            }
            proof {
                lemma_finished_push(e1, ev);
                lemma_terminal_push(e1, ev, p.nodes@[n].id@);
                if self.all_nodes {
                    lemma_log_push(p, e1, ev);
                }
            }
            self.events.push(ev);
            let _ = self.events.len();
            if r.success {
                successful = successful + 1;
            } else {
                failed = failed + 1;
            }
            proof {
                assert(results@.subrange(0, k + 1).drop_last() =~= results@.subrange(0, k as int));
                let ids = self.waves@[w as int].node_ids@;
                assert forall|i: int| 0 <= i < proj0.nodes@.len() implies same_but_state(proj_start.nodes@[i], #[trigger] self.project.nodes@[i])
                    && same_but_state(p.nodes@[i], self.project.nodes@[i]) by {
                    assert(same_but_state(proj_start.nodes@[i], proj0.nodes@[i]));
                    assert(same_but_state(p.nodes@[i], proj0.nodes@[i]));
                    if proj0.is_first_with_id(i, r.node_id@) {
                    }
                }
                assert forall|m: int| 0 <= m < self.project.nodes@.len() implies {
                    let st = (#[trigger] self.project.nodes@[m]).status;
                    st == NodeStatus::Complete || st == NodeStatus::Error || st == NodeStatus::Generating
                        || st == p.nodes@[m].status
                } by {
                    if !proj0.is_first_with_id(m, r.node_id@) {
                        assert(self.project.nodes@[m] == proj0.nodes@[m]);
                    }
                }
                assert forall|m: int|
                    0 <= m < proj_start.nodes@.len() && !first_with_one_of(
                        proj_start,
                        ids.subrange(0, k + 1),
                        m,
                    ) implies #[trigger] self.project.nodes@[m] == proj_start.nodes@[m] by {
                    lemma_first_same_ids(proj_start, proj0, m, r.node_id@);
                    if proj0.is_first_with_id(m, r.node_id@) {
                        assert(ids.subrange(0, k + 1)[k as int] == ids[k as int]);
                        assert(proj_start.is_first_with_id(m, ids.subrange(0, k + 1)[k as int]@));
                    } else {
                        assert(self.project.nodes@[m] == proj0.nodes@[m]);
                        if first_with_one_of(proj_start, ids.subrange(0, k as int), m) {
                            let b = choose|b: int| 0 <= b < ids.subrange(0, k as int).len() && proj_start.is_first_with_id(m, (#[trigger] ids.subrange(0, k as int)[b])@);
                            assert(ids.subrange(0, k + 1)[b] == ids.subrange(0, k as int)[b]);
                        }
                    }
                }
            }
            proof {
                assert(self.events@[e_start.len() + k] == ev);
                assert forall|b: int| 0 <= b < k + 1 implies reports_result(#[trigger] self.events@[e_start.len() + b], results@[b]) by {
                    if b < k {
                        assert(self.events@[e_start.len() + b] == e1[e_start.len() + b]);
                    }
                }
                assert forall|i: int| 0 <= i < e_start.len() implies #[trigger] self.events@[i] == e_start[i] by {
                    assert(self.events@[i] == e1[i]);
                }
                if ids_unique(p) {
                    assert forall|b: int| 0 <= b < k + 1 implies holds_result(
                        proj_start.nodes@[#[trigger] wn[w as int][b]],
                        self.project.nodes@[wn[w as int][b]],
                        results@[b],
                    ) by {
                        if b < k {
                            assert(wn[w as int][b] < wn[w as int][k as int]);
                            assert(!proj0.is_first_with_id(wn[w as int][b], r.node_id@));
                        } else {
                            assert(proj0.nodes@[n] == proj_start.nodes@[n]);
                        }
                    }
                    assert forall|b: int| k + 1 <= b < wn[w as int].len() implies #[trigger] self.project.nodes@[wn[w as int][b]]
                        == proj_start.nodes@[wn[w as int][b]] by {
                        assert(wn[w as int][k as int] < wn[w as int][b]);
                        assert(!proj0.is_first_with_id(wn[w as int][b], r.node_id@));
                    }
                }
                if ids_unique(p) {
                    assert forall|m: int| 0 <= m < self.project.nodes@.len() implies {
                        let st = (#[trigger] self.project.nodes@[m]).status;
                        if executed_in(wn, w as int, m) || exists|b: int| 0 <= b < k + 1 && #[trigger] wn[w as int][b] == m {
                            st == NodeStatus::Complete || st == NodeStatus::Error
                        } else if exists|b: int| 0 <= b < wn[w as int].len() && #[trigger] wn[w as int][b] == m {
                            st == NodeStatus::Generating
                        } else {
                            self.project.nodes@[m] == p.nodes@[m]
                        }
                    } by {
                        if m != n {
                            assert(!proj0.is_first_with_id(m, r.node_id@));
                            assert(self.project.nodes@[m] == proj0.nodes@[m]);
                            if exists|b: int| 0 <= b < k + 1 && #[trigger] wn[w as int][b] == m {
                                let b = choose|b: int| 0 <= b < k + 1 && #[trigger] wn[w as int][b] == m;
                                assert(b != k);
                            }
                        } else {
                            assert(wn[w as int][k as int] == m);
                        }
                    }
                }
                assert forall|b: int| 0 <= b < k + 1 implies finished_before(
                    self.events@,
                    self.events@.len() as int,
                    p.nodes@[#[trigger] wn[w as int][b]].id@,
                ) by {
                    if b < k {
                        assert(finished_before(e1, e1.len() as int, p.nodes@[wn[w as int][b]].id@));
                    }
                }
            }
            k += 1;
        }
        let ghost e2 = self.events@;
        assert(self.waves@[w as int].node_ids@.subrange(k as int, results@.len() as int) =~= Seq::<String>::empty());
        let ev = ExecutionEvent::WaveCompleted {
            wave_number: self.waves[w].wave_number,
            successful,
            failed,
        };
        self.events.push(ev);
        let _ = self.events.len();
        self.total_successful = self.total_successful + successful;
        self.total_failed = self.total_failed + failed;
        self.next_wave = w + 1;
        self.phase = Phase::Ready;
        proof {
            assert(wn.subrange(0, w + 1).drop_last() =~= wn.subrange(0, w as int));
            assert(wn.subrange(0, w + 1).last() == wn[w as int]);
            assert(results@.subrange(0, k as int) =~= results@);
            lemma_finished_push(e2, ev);
            if self.all_nodes {
                lemma_log_push(p, e2, ev);
            }
            assert forall|a: int, b: int|
                0 <= a < w + 1 && 0 <= b < wn[a].len() implies finished_before(
                    self.events@,
                    self.events@.len() as int,
                    p.nodes@[#[trigger] wn[a][b]].id@,
                ) by {
                assert(finished_before(e2, e2.len() as int, p.nodes@[wn[a][b]].id@));
            }
            if ids_unique(p) {
                assert forall|m: int| 0 <= m < self.project.nodes@.len() implies executed_in(wn, w + 1, m)
                    == (executed_in(wn, w as int, m) || exists|b: int| 0 <= b < k && #[trigger] wn[w as int][b] == m) by {
                    if executed_in(wn, w + 1, m) && !executed_in(wn, w as int, m) {
                        let (a, b) = choose|a: int, b: int| 0 <= a < w + 1 && 0 <= b < wn[a].len() && #[trigger] wn[a][b] == m;
                        assert(a == w);
                    }
                    if exists|b: int| 0 <= b < k && #[trigger] wn[w as int][b] == m {
                        let b = choose|b: int| 0 <= b < k && #[trigger] wn[w as int][b] == m;
                        assert(wn[w as int][b] == m);
                    }
                }
            }
        }
    }

    /// A new executor over `project` with the given credentials.
    pub fn new(project: Project, api_keys: ApiKeys) -> (r: Executor)
        ensures
            r.wf(),
            r.phase_spec() == Phase::Idle,
            r.project_spec() == project,
            r.events_spec().len() == 0,
            !r.cancelled_spec(),
    {
        Executor {
            project,
            api_keys,
            cancelled: false,
            waves: Vec::new(),
            total_skipped: 0,
            next_wave: 0,
            total_successful: 0,
            total_failed: 0,
            events: Vec::new(),
            phase: Phase::Idle,
            all_nodes: false,
            initial: Ghost(project),
            wave_nodes: Ghost(Seq::empty()),
            levels: Ghost(Seq::empty()),
        }
    }

    /// Asks the executor to stop before its next wave.
    pub fn cancel(&mut self)
        requires
            old(self).wf(),
        ensures
            final(self).wf(),
            final(self).cancelled_spec(),
            final(self).phase_spec() == old(self).phase_spec(),
            final(self).events_spec() == old(self).events_spec(),
            final(self).project_spec() == old(self).project_spec(),
    {
        self.cancelled = true;
    }

    /// The events emitted so far, in order.
    pub fn events(&self) -> (r: &Vec<ExecutionEvent>)
        ensures
            r@ == self.events_spec(),
    {
        &self.events
    }

    /// The project in its current state.
    pub fn project(&self) -> (r: &Project)
        ensures
            *r == self.project_spec(),
    {
        &self.project
    }

    /// Whether `Completed` was emitted.
    pub fn is_finished(&self) -> (r: bool)
        ensures
            r == (self.phase_spec() == Phase::Finished),
    {
        self.phase == Phase::Finished
    }

    /// The project, once the executor is no longer needed.
    pub fn into_project(self) -> (r: Project)
        ensures
            r == self.project_spec(),
    {
        self.project
    }
}

} // verus!

verus! {

/// What holds of a started executor at every step: only node statuses, code
/// and errors differ from the starting project; each wave lists the ids of
/// its nodes, which lie in the plan's wave of the wave's level, in node
/// order, with levels increasing; in a run of every node the waves are the
/// plan's waves; and the totals count the results of the completed waves.
pub proof fn lemma_run_facts(ex: &Executor)
    requires
        ex.wf(),
        ex.phase_spec() != Phase::Idle,
    ensures
        only_states_changed(ex.initial_spec(), ex.project_spec()),
        ex.wave_count_spec() == ex.wave_nodes_spec().len() == ex.levels_spec().len(),
        0 <= ex.next_wave_spec() <= ex.wave_count_spec(),
        forall|w: int|
            0 <= w < ex.wave_count_spec() ==> #[trigger] ex.wave_ids(w) == crate::planner::ids_at(
                ex.initial_spec(),
                ex.wave_nodes_spec()[w],
            ) && 0 <= ex.levels_spec()[w],
        forall|w: int, k: int|
            0 <= w < ex.wave_count_spec() && 0 <= k < ex.wave_nodes_spec()[w].len() ==> in_wave(
                ex.initial_spec(),
                ex.levels_spec()[w] as nat,
                #[trigger] ex.wave_nodes_spec()[w][k],
            ),
        forall|w: int, v: int|
            0 <= w < v < ex.wave_count_spec() ==> #[trigger] ex.levels_spec()[w] < #[trigger] ex.levels_spec()[v],
        forall|w: int, k: int, l: int|
            0 <= w < ex.wave_count_spec() && 0 <= k < l < ex.wave_nodes_spec()[w].len()
                ==> #[trigger] ex.wave_nodes_spec()[w][k] < #[trigger] ex.wave_nodes_spec()[w][l],
        ex.runs_all() ==> forall|w: int|
            0 <= w < ex.wave_count_spec() ==> #[trigger] ex.wave_nodes_spec()[w] == wave_members(
                ex.initial_spec(),
                w as nat,
            ) && ex.levels_spec()[w] == w,
        ex.successful_total_spec() + ex.failed_total_spec() == sum_lens(
            ex.wave_nodes_spec().subrange(0, ex.next_wave_spec()),
        ),
{
    assert forall|w: int| 0 <= w < ex.wave_count_spec() implies #[trigger] ex.wave_ids(w) == crate::planner::ids_at(
        ex.initial_spec(),
        ex.wave_nodes_spec()[w],
    ) && 0 <= ex.levels_spec()[w] by {
        assert(ex.waves@[w].node_ids@ == crate::planner::ids_at(ex.initial@, ex.wave_nodes@[w]));
    }
}

/// In a run of every node, for each dependency `s -> t` of the starting
/// project, every event that starts generating `t` comes after an event that
/// reports `s` complete or failed. The edges never change during the run.
pub proof fn lemma_dependencies_finish_first(ex: &Executor)
    requires
        ex.wf(),
        ex.runs_all(),
    ensures
        ex.project_spec().edges == ex.initial_spec().edges,
        dependencies_finish_first(ex.initial_spec(), ex.events_spec()),
        dependencies_finish_first(ex.project_spec(), ex.events_spec()),
{
    let p = ex.initial_spec();
    let q = ex.project_spec();
    crate::graph::lemma_same_links(p, q);
    assert forall|j: int, s: Seq<char>, t: Seq<char>|
        0 <= j < ex.events_spec().len() && #[trigger] generating_for(ex.events_spec()[j], t)
            && #[trigger] q.links(s, t) implies finished_before(ex.events_spec(), j, s) by {
        assert(q.link_rel()(s, t));
        assert(p.link_rel()(s, t));
        assert(p.links(s, t));
    }
}

/// Once an execution has ended, no node is generating unless it already was
/// when the execution started. Where node ids are unique, moreover, each node
/// of a wave that ran is complete or failed, and every other node has the
/// status it had at the start. Unless the execution was cancelled, every wave
/// ran, and in a run of every node the nodes that ran are exactly the nodes
/// of the plan's waves.
pub proof fn lemma_statuses_after_execution(ex: &Executor)
    requires
        ex.wf(),
        ex.phase_spec() == Phase::Finished,
    ensures
        ex.project_spec().nodes@.len() == ex.initial_spec().nodes@.len(),
        only_states_changed(ex.initial_spec(), ex.project_spec()),
        forall|n: int|
            0 <= n < ex.project_spec().nodes@.len() && (#[trigger] ex.project_spec().nodes@[n]).status
                == NodeStatus::Generating ==> ex.initial_spec().nodes@[n].status == NodeStatus::Generating,
        forall|n: int|
            0 <= n < ex.project_spec().nodes@.len() ==> {
                let st = (#[trigger] ex.project_spec().nodes@[n]).status;
                st == NodeStatus::Complete || st == NodeStatus::Error || st == ex.initial_spec().nodes@[n].status
            },
        ids_unique(ex.initial_spec()) ==> forall|n: int|
            0 <= n < ex.project_spec().nodes@.len() ==> {
                let st = (#[trigger] ex.project_spec().nodes@[n]).status;
                if executed_in(ex.wave_nodes_spec(), ex.next_wave_spec(), n) {
                    st == NodeStatus::Complete || st == NodeStatus::Error
                } else {
                    ex.project_spec().nodes@[n] == ex.initial_spec().nodes@[n]
                }
            },
        !ex.cancelled_spec() ==> ex.next_wave_spec() == ex.wave_count_spec(),
        ex.runs_all() && !ex.cancelled_spec() ==> forall|n: int|
            #[trigger] executed_in(ex.wave_nodes_spec(), ex.next_wave_spec(), n) <==> exists|w: nat|
                w < ex.wave_count_spec() && #[trigger] in_wave(ex.initial_spec(), w, n),
{
    let p = ex.initial_spec();
    let wn = ex.wave_nodes_spec();
    assert forall|n: int| 0 <= n < ex.project_spec().nodes@.len() implies {
        let st = (#[trigger] ex.project_spec().nodes@[n]).status;
        st == NodeStatus::Complete || st == NodeStatus::Error || st == ex.initial_spec().nodes@[n].status
    } by {
        assert(statuses_bounded(ex.project, ex.initial@));
    }
    if ex.runs_all() && !ex.cancelled_spec() {
        assert forall|n: int| #[trigger] executed_in(wn, ex.next_wave_spec(), n) <==> exists|w: nat|
            w < ex.wave_count_spec() && #[trigger] in_wave(p, w, n) by {
            if executed_in(wn, ex.next_wave_spec(), n) {
                let (w, k) = choose|w: int, k: int|
                    0 <= w < ex.next_wave_spec() && 0 <= k < wn[w].len() && #[trigger] wn[w][k] == n;
                assert(in_wave(p, w as nat, wn[w][k]));
            }
            if exists|w: nat| w < ex.wave_count_spec() && #[trigger] in_wave(p, w, n) {
                let w = choose|w: nat| w < ex.wave_count_spec() && #[trigger] in_wave(p, w, n);
                lemma_indices_members(|x: int| in_wave(p, w, x), p.nodes@.len() as int);
                assert((|x: int| in_wave(p, w, x))(n));
                assert(wn[w as int] == wave_members(p, w));
                assert(wave_members(p, w).contains(n));
                let k = choose|k: int| 0 <= k < wn[w as int].len() && wn[w as int][k] == n;
                assert(wn[w as int][k] == n);
            }
        }
    }
}

} // verus!
