use needlepoint::events::ExecutionEvent;
use needlepoint::executor::{prepare_generation, ApiKeys, ApiKeysInput, Executor, NodeJob, NodeResult};
use needlepoint::graph::{add_edge, add_node};
use needlepoint::model::{CodeNode, LLMProvider, Language, NodeStatus, Project};
use needlepoint::provider::{GenerationResponse, LLMError};

fn diamond() -> (Project, Vec<String>) {
    let mut p = Project::new("/tmp/p".to_string());
    let mut ids = Vec::new();
    for path in ["a.ts", "b.ts", "c.ts", "d.ts"] {
        let n = CodeNode::new(path.to_string(), path.to_string(), Language::TypeScript);
        ids.push(n.id.clone());
        p = add_node(p, n).unwrap();
    }
    p = add_edge(p, ids[0].clone(), ids[2].clone(), String::new()).unwrap();
    p = add_edge(p, ids[1].clone(), ids[2].clone(), String::new()).unwrap();
    p = add_edge(p, ids[2].clone(), ids[3].clone(), String::new()).unwrap();
    (p, ids)
}

fn keys() -> ApiKeys {
    ApiKeys { anthropic: Some("SECRET-REDACTED".to_string()), openai: None, ollama_base_url: None }
}

/// Runs every wave; node `failing` gets a provider error, the others answer
/// with a fenced block naming the node.
fn run(mut ex: Executor, failing: &str) -> Executor {
    while let Some(jobs) = ex.begin_wave() {
        let results = jobs
            .into_iter()
            .map(|job| match job {
                NodeJob::Decided(r) => r,
                NodeJob::Call { node_id, provider, request } => {
                    assert!(provider.is_configured());
                    assert_eq!(request.max_tokens, Some(4096));
                    let outcome = if node_id == failing {
                        Err(LLMError::RateLimited)
                    } else {
                        Ok(GenerationResponse {
                            content: format!("```ts\n// {}\n```", node_id),
                            model: "m".to_string(),
                            tokens_used: Some(1),
                        })
                    };
                    NodeResult::from_outcome(node_id, outcome)
                }
            })
            .collect();
        ex.finish_wave(results);
    }
    ex
}

fn position(events: &[ExecutionEvent], id: &str, statuses: &[NodeStatus]) -> Option<usize> {
    events.iter().position(|e| matches!(e, ExecutionEvent::NodeUpdate(np) if np.node_id == id && statuses.contains(&np.status)))
}

#[test]
fn failure_is_isolated_to_its_node() {
    let (p, ids) = diamond();
    let mut ex = Executor::new(p, keys());
    ex.start_all();
    let ex = run(ex, &ids[0]);
    assert!(ex.is_finished());
    let p = ex.project();
    assert_eq!(p.nodes[0].status, NodeStatus::Error);
    assert_eq!(p.nodes[0].error_message.as_deref(), Some("Rate limited"));
    for i in 1..4 {
        assert_eq!(p.nodes[i].status, NodeStatus::Complete);
        assert_eq!(p.nodes[i].generated_code.clone().unwrap(), format!("// {}", ids[i]));
    }
    let events = ex.events();
    assert!(matches!(events[0], ExecutionEvent::Started { total_nodes: 4, total_waves: 3 }));
    assert!(matches!(events.last().unwrap(), ExecutionEvent::Completed { total_successful: 3, total_failed: 1, total_skipped: 0 }));
    let waves_done = events.iter().filter(|e| matches!(e, ExecutionEvent::WaveCompleted { .. })).count();
    assert_eq!(waves_done, 3);
}

#[test]
fn dependencies_finish_before_dependents_start() {
    let (p, ids) = diamond();
    let edges: Vec<(String, String)> = p.edges.iter().map(|e| (e.source.clone(), e.target.clone())).collect();
    let mut ex = Executor::new(p, keys());
    ex.start_all();
    let ex = run(ex, &ids[1]);
    let events = ex.events();
    for (s, t) in edges {
        let done = position(events, &s, &[NodeStatus::Complete, NodeStatus::Error]).unwrap();
        let started = position(events, &t, &[NodeStatus::Generating]).unwrap();
        assert!(done < started);
    }
}

#[test]
fn no_node_left_generating() {
    let (p, _) = diamond();
    let mut ex = Executor::new(p, keys());
    ex.start_all();
    let ex = run(ex, "none");
    for n in &ex.project().nodes {
        assert!(n.status == NodeStatus::Complete || n.status == NodeStatus::Error);
    }
}

#[test]
fn cancellation_stops_before_the_next_wave() {
    let (p, _) = diamond();
    let mut ex = Executor::new(p, keys());
    ex.start_all();
    let jobs = ex.begin_wave().unwrap();
    assert_eq!(jobs.len(), 2);
    ex.cancel();
    let results = jobs.into_iter().map(|j| match j {
        NodeJob::Decided(r) => r,
        NodeJob::Call { node_id, .. } => NodeResult::from_outcome(node_id, Err(LLMError::InvalidApiKey)),
    }).collect();
    ex.finish_wave(results);
    assert!(ex.begin_wave().is_none());
    let events = ex.events();
    let n = events.len();
    assert!(matches!(events[n - 2], ExecutionEvent::Cancelled));
    assert!(matches!(events[n - 1], ExecutionEvent::Completed { total_successful: 0, total_failed: 2, total_skipped: 0 }));
    let p = ex.into_project();
    assert_eq!(p.nodes[2].status, NodeStatus::Pending);
    assert_eq!(p.nodes[3].status, NodeStatus::Pending);
}

#[test]
fn selected_nodes_only() {
    let (p, ids) = diamond();
    let mut ex = Executor::new(p, keys());
    ex.start_nodes(&vec![ids[1].clone(), ids[3].clone()]);
    assert!(matches!(ex.events()[0], ExecutionEvent::Started { total_nodes: 2, total_waves: 2 }));
    let ex = run(ex, "none");
    let p = ex.project();
    assert_eq!(p.nodes[0].status, NodeStatus::Pending);
    assert_eq!(p.nodes[1].status, NodeStatus::Complete);
    assert_eq!(p.nodes[2].status, NodeStatus::Pending);
    assert_eq!(p.nodes[3].status, NodeStatus::Complete);
    let wave_numbers: Vec<usize> = ex.events().iter().filter_map(|e| match e {
        ExecutionEvent::WaveStarted { wave_number, .. } => Some(*wave_number),
        _ => None,
    }).collect();
    assert_eq!(wave_numbers, vec![0, 2]);
}

#[test]
fn unconfigured_provider_fails_without_a_call() {
    let (p, ids) = diamond();
    match prepare_generation(&p, &ApiKeys::default(), &ids[0]) {
        NodeJob::Decided(r) => {
            assert!(!r.success);
            assert_eq!(r.error_message.as_deref(), Some("Anthropic is not configured. Please set your API key in Settings."));
        }
        _ => panic!("expected a decided failure"),
    }
    match prepare_generation(&p, &ApiKeys::default(), &"missing".to_string()) {
        NodeJob::Decided(r) => assert_eq!(r.error_message.as_deref(), Some("Node 'missing' not found")),
        _ => panic!("expected a decided failure"),
    }
    let mut q = p.clone();
    q.nodes[0].llm_config.provider = LLMProvider::Ollama;
    match prepare_generation(&q, &ApiKeys::default(), &ids[0]) {
        NodeJob::Call { provider, request, .. } => {
            assert_eq!(provider.name(), "Ollama");
            assert_eq!(request.temperature_milli, Some(700));
            assert!(request.prompt.starts_with("You are implementing a TypeScript module."));
            assert!(request.system_prompt.unwrap().starts_with("You are an expert TypeScript programmer."));
        }
        _ => panic!("expected a call"),
    }
}

#[test]
fn key_input_drops_empty_strings() {
    let keys: ApiKeys = ApiKeys::from(ApiKeysInput {
        anthropic: Some(String::new()),
        openai: Some("k".to_string()),
        ollama_base_url: None,
    });
    assert!(keys.anthropic.is_none());
    assert_eq!(keys.openai.as_deref(), Some("k"));
    assert_eq!(keys.get_for_provider(&LLMProvider::OpenAI).as_deref(), Some("k"));
    assert!(keys.get_for_provider(&LLMProvider::Ollama).is_none());
}

#[test]
fn outcomes_become_results() {
    let ok = NodeResult::from_outcome("n".to_string(), Ok(GenerationResponse {
        content: "  ```go\npackage main\n```  ".to_string(),
        model: "m".to_string(),
        tokens_used: None,
    }));
    assert!(ok.success);
    assert_eq!(ok.generated_code.as_deref(), Some("package main"));
    let err = NodeResult::from_outcome("n".to_string(), Err(LLMError::ModelNotFound("llama".to_string())));
    assert!(!err.success);
    assert_eq!(err.error_message.as_deref(), Some("Model not found: llama"));
}

#[test]
fn event_payloads_of_a_full_run() {
    let (p, ids) = diamond();
    let mut ex = Executor::new(p.clone(), keys());
    ex.start_all();
    let ex = run(ex, &ids[0]);
    let events = ex.events();
    let mut numbers = Vec::new();
    let mut counts = Vec::new();
    for e in events {
        match e {
            ExecutionEvent::WaveStarted { wave_number, .. } => numbers.push(*wave_number),
            ExecutionEvent::WaveCompleted { wave_number, successful, failed } => counts.push((*wave_number, *successful, *failed)),
            _ => {}
        }
    }
    assert_eq!(numbers, vec![0, 1, 2]);
    assert_eq!(counts, vec![(0, 1, 1), (1, 1, 0), (2, 1, 0)]);
    let q = ex.project();
    assert_eq!(q.manifest.name, p.manifest.name);
    assert_eq!(q.project_path, p.project_path);
    assert_eq!(q.edges.len(), p.edges.len());
    for (a, b) in q.nodes.iter().zip(&p.nodes) {
        assert_eq!(a.id, b.id);
        assert_eq!(a.file_path, b.file_path);
    }
}

#[test]
fn skipped_nodes_are_counted_and_left_alone() {
    let (mut p, ids) = diamond();
    p.edges.push(needlepoint::model::CodeEdge::new(ids[3].clone(), ids[2].clone(), String::new()));
    p.nodes[3].generated_code = Some("old".to_string());
    let mut ex = Executor::new(p, keys());
    ex.start_all();
    let ex = run(ex, "none");
    assert!(matches!(ex.events().last().unwrap(), ExecutionEvent::Completed { total_successful: 2, total_failed: 0, total_skipped: 2 }));
    let q = ex.project();
    assert_eq!(q.nodes[2].status, NodeStatus::Pending);
    assert_eq!(q.nodes[3].status, NodeStatus::Pending);
    assert_eq!(q.nodes[3].generated_code.as_deref(), Some("old"));
}

#[test]
fn cancelled_before_the_first_wave() {
    let (p, _) = diamond();
    let mut ex = Executor::new(p.clone(), keys());
    ex.cancel();
    ex.start_all();
    assert!(ex.begin_wave().is_none());
    let events = ex.events();
    assert_eq!(events.len(), 3);
    assert!(matches!(events[1], ExecutionEvent::Cancelled));
    assert!(matches!(events[2], ExecutionEvent::Completed { total_successful: 0, total_failed: 0, total_skipped: 0 }));
    for (a, b) in ex.project().nodes.iter().zip(&p.nodes) {
        assert_eq!(a.status, b.status);
        assert_eq!(a.generated_code, b.generated_code);
    }
}
