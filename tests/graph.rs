use needlepoint::cycle::would_create_cycle;
use needlepoint::graph::{add_edge, add_node, delete_edge, delete_node, update_node, GraphError, NodePatch};
use needlepoint::model::{CodeNode, Language, NodeStatus, Project};
use needlepoint::validation::validate_project;

fn project_with(paths: &[&str]) -> (Project, Vec<String>) {
    let mut p = Project::new("/tmp/p".to_string());
    let mut ids = Vec::new();
    for path in paths {
        let n = CodeNode::new(path.to_string(), path.to_string(), Language::TypeScript);
        ids.push(n.id.clone());
        p = add_node(p, n).unwrap();
    }
    (p, ids)
}

fn chain() -> (Project, Vec<String>) {
    let (p, ids) = project_with(&["a.ts", "b.ts", "c.ts"]);
    let p = add_edge(p, ids[0].clone(), ids[1].clone(), "imports".to_string()).unwrap();
    let p = add_edge(p, ids[1].clone(), ids[2].clone(), String::new()).unwrap();
    (p, ids)
}

#[test]
fn new_project_is_empty() {
    let p = Project::new("/tmp/p".to_string());
    assert!(p.nodes.is_empty());
    assert!(p.edges.is_empty());
    assert_eq!(p.manifest.name, "New Project");
    assert_eq!(p.manifest.version, "0.1.0");
    assert_eq!(p.project_path, "/tmp/p");
}

#[test]
fn new_nodes_are_pending_with_fresh_ids() {
    let n = CodeNode::new("A".to_string(), "a.ts".to_string(), Language::Go);
    let m = CodeNode::new("A".to_string(), "a.ts".to_string(), Language::Go);
    assert_eq!(n.status, NodeStatus::Pending);
    assert!(n.generated_code.is_none());
    assert!(!n.id.is_empty());
    assert_ne!(n.id, m.id);
    assert_eq!(n.llm_config.model, needlepoint::model::DEFAULT_MODEL);
}

#[test]
fn duplicate_file_path_rejected() {
    let (p, _) = project_with(&["x.ts"]);
    let second = CodeNode::new("Other".to_string(), "x.ts".to_string(), Language::TypeScript);
    match add_node(p, second) {
        Err(GraphError::DuplicateFilePath(path)) => assert_eq!(path, "x.ts"),
        _ => panic!("expected a duplicate file path error"),
    }
}

#[test]
fn add_node_keeps_order_and_fills_empty_id() {
    let (p, ids) = project_with(&["a.ts", "b.ts"]);
    let mut n = CodeNode::new("C".to_string(), "c.ts".to_string(), Language::Rust);
    n.id = String::new();
    let p = add_node(p, n).unwrap();
    assert_eq!(p.nodes.len(), 3);
    assert_eq!(p.nodes[0].id, ids[0]);
    assert_eq!(p.nodes[1].id, ids[1]);
    assert!(!p.nodes[2].id.is_empty());
    assert_eq!(p.nodes[2].file_path, "c.ts");
}

#[test]
fn cycle_rejection() {
    let (p, ids) = chain();
    let before = p.edges.len();
    assert!(would_create_cycle(&p, &ids[2], &ids[0]));
    assert!(!would_create_cycle(&p, &ids[0], &ids[2]));
    assert!(!would_create_cycle(&p, "missing", &ids[0]));
    let kept = p.clone();
    match add_edge(p, ids[2].clone(), ids[0].clone(), String::new()) {
        Err(GraphError::WouldCreateCycle) => {}
        _ => panic!("expected a cycle error"),
    }
    assert_eq!(kept.edges.len(), before);
}

#[test]
fn add_edge_errors_in_order() {
    let (p, ids) = chain();
    match add_edge(p.clone(), "nope".to_string(), ids[0].clone(), String::new()) {
        Err(GraphError::MissingEndpoint(id)) => assert_eq!(id, "nope"),
        _ => panic!("expected missing source"),
    }
    match add_edge(p.clone(), ids[0].clone(), "nope".to_string(), String::new()) {
        Err(GraphError::MissingEndpoint(id)) => assert_eq!(id, "nope"),
        _ => panic!("expected missing target"),
    }
    assert!(matches!(add_edge(p.clone(), ids[0].clone(), ids[0].clone(), String::new()), Err(GraphError::SelfLoop)));
    assert!(matches!(add_edge(p.clone(), ids[0].clone(), ids[1].clone(), String::new()), Err(GraphError::DuplicateEdge)));
    let q = add_edge(p, ids[0].clone(), ids[2].clone(), "uses".to_string()).unwrap();
    let last = q.edges.last().unwrap();
    assert_eq!(last.source, ids[0]);
    assert_eq!(last.target, ids[2]);
    assert_eq!(last.label, "uses");
}

#[test]
fn delete_node_removes_incident_edges() {
    let (p, ids) = chain();
    let q = delete_node(p.clone(), &ids[1]).unwrap();
    assert_eq!(q.nodes.len(), 2);
    assert!(q.edges.is_empty());
    assert!(matches!(delete_node(p, "missing"), Err(GraphError::NotFound(_))));
}

#[test]
fn delete_edge_by_id() {
    let (p, _) = chain();
    let first = p.edges[0].id.clone();
    let q = delete_edge(p.clone(), &first).unwrap();
    assert_eq!(q.edges.len(), 1);
    assert_ne!(q.edges[0].id, first);
    assert!(matches!(delete_edge(p, "missing"), Err(GraphError::NotFound(_))));
}

#[test]
fn update_node_applies_patch_and_checks_paths() {
    let (p, ids) = chain();
    let mut patch = NodePatch::default();
    patch.description = Some("Entry point".to_string());
    patch.file_path = Some("main.ts".to_string());
    patch.generated_code = Some("code".to_string());
    let q = update_node(p.clone(), &ids[0], patch).unwrap();
    assert_eq!(q.nodes[0].description, "Entry point");
    assert_eq!(q.nodes[0].file_path, "main.ts");
    assert_eq!(q.nodes[0].generated_code.as_deref(), Some("code"));
    assert_eq!(q.nodes[0].id, ids[0]);
    assert_eq!(q.edges.len(), 2);

    let mut clash = NodePatch::default();
    clash.file_path = Some("b.ts".to_string());
    match update_node(p.clone(), &ids[0], clash) {
        Err(GraphError::DuplicateFilePath(path)) => assert_eq!(path, "b.ts"),
        _ => panic!("expected a duplicate file path error"),
    }
    let mut same = NodePatch::default();
    same.file_path = Some("a.ts".to_string());
    assert!(update_node(p.clone(), &ids[0], same).is_ok());
    assert!(matches!(update_node(p, "missing", NodePatch::default()), Err(GraphError::NotFound(_))));
}

#[test]
fn lookups_and_dependency_queries() {
    let (p, ids) = chain();
    assert_eq!(p.find_node(&ids[1]).unwrap().file_path, "b.ts");
    assert!(p.find_node("missing").is_none());
    assert_eq!(p.find_node_index(&ids[2]), Some(2));
    let deps = p.get_dependencies(&ids[1]);
    assert_eq!(deps.len(), 1);
    assert_eq!(deps[0].source, ids[0]);
    let dependents = p.get_dependents(&ids[1]);
    assert_eq!(dependents.len(), 1);
    assert_eq!(dependents[0].target, ids[2]);
}

#[test]
fn error_messages_are_sentences() {
    assert_eq!(GraphError::DuplicateFilePath("x.ts".to_string()).message(), "A node with file path 'x.ts' already exists");
    assert_eq!(GraphError::SelfLoop.message(), "Cannot create an edge from a node to itself");
    assert_eq!(GraphError::WouldCreateCycle.message(), "Adding this edge would create a circular dependency");
}

#[test]
fn find_node_mut_changes_in_place() {
    let (mut p, ids) = chain();
    if let Some(n) = p.find_node_mut(&ids[1]) {
        n.purpose = "Middle".to_string();
    }
    assert_eq!(p.nodes[1].purpose, "Middle");
    assert!(p.find_node_mut("missing").is_none());
}

#[test]
fn mutations_keep_the_project_valid() {
    let (mut p, ids) = chain();
    for (s, t) in [(2, 0), (1, 1), (0, 1), (2, 1)] {
        if let Ok(q) = add_edge(p.clone(), ids[s].clone(), ids[t].clone(), String::new()) {
            p = q;
        }
    }
    let clash = CodeNode::new("X".to_string(), "a.ts".to_string(), Language::Go);
    assert!(add_node(p.clone(), clash).is_err());
    let p = delete_node(p, &ids[1]).unwrap();
    let report = validate_project(&p);
    assert!(report.is_valid());
    for e in &p.edges {
        assert!(p.find_node(&e.source).is_some() && p.find_node(&e.target).is_some());
        assert_ne!(e.source, e.target);
    }
}

#[test]
fn add_node_never_stores_a_taken_or_empty_id() {
    let (p, ids) = project_with(&["a.ts"]);
    let mut twin = CodeNode::new("B".to_string(), "b.ts".to_string(), Language::Go);
    twin.id = ids[0].clone();
    let q = add_node(p.clone(), twin).unwrap();
    assert!(!q.nodes[1].id.is_empty());
    assert_ne!(q.nodes[1].id, ids[0]);
    let mut blank = CodeNode::new("C".to_string(), "c.ts".to_string(), Language::Go);
    blank.id = String::new();
    let q = add_node(q, blank).unwrap();
    assert_eq!(q.nodes[2].id.len(), 36);
    let mut own = CodeNode::new("D".to_string(), "d.ts".to_string(), Language::Go);
    own.id = "my-id".to_string();
    let q = add_node(q, own).unwrap();
    assert_eq!(q.nodes[3].id, "my-id");
}

#[test]
fn patch_can_set_status() {
    let (p, ids) = chain();
    let mut patch = NodePatch::default();
    patch.status = Some(NodeStatus::Complete);
    let q = update_node(p, &ids[2], patch).unwrap();
    assert_eq!(q.nodes[2].status, NodeStatus::Complete);
    assert_eq!(q.nodes[1].status, NodeStatus::Pending);
}

#[test]
fn edges_get_distinct_ids() {
    let (p, _) = chain();
    assert_ne!(p.edges[0].id, p.edges[1].id);
    assert_eq!(p.edges[1].id.len(), 36);
}
