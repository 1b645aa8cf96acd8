use needlepoint::model::{CodeEdge, CodeNode, Language, Project, ProjectManifest};
use needlepoint::planner::ExecutionPlan;

fn node(name: &str, path: &str) -> CodeNode {
    CodeNode::new(name.to_string(), path.to_string(), Language::TypeScript)
}

fn edge(source: &CodeNode, target: &CodeNode) -> CodeEdge {
    CodeEdge::new(source.id.clone(), target.id.clone(), "imports".to_string())
}

fn create_test_project() -> Project {
    let mut project = Project {
        manifest: ProjectManifest::default(),
        nodes: vec![],
        edges: vec![],
        project_path: String::new(),
    };
    let node_a = node("A", "a.ts");
    let node_b = node("B", "b.ts");
    let node_c = node("C", "c.ts");
    project.edges = vec![edge(&node_a, &node_b), edge(&node_b, &node_c)];
    project.nodes = vec![node_a, node_b, node_c];
    project
}

#[test]
fn test_execution_plan_linear() {
    let project = create_test_project();
    let plan = ExecutionPlan::from_project(&project);

    assert_eq!(plan.waves.len(), 3);
    assert_eq!(plan.total_nodes, 3);
    assert!(plan.skipped_nodes.is_empty());

    assert_eq!(plan.waves[0].node_ids.len(), 1);
    assert_eq!(plan.waves[1].node_ids.len(), 1);
    assert_eq!(plan.waves[2].node_ids.len(), 1);
}

#[test]
fn test_execution_plan_parallel() {
    let mut project = Project {
        manifest: ProjectManifest::default(),
        nodes: vec![],
        edges: vec![],
        project_path: String::new(),
    };
    let node_a = node("A", "a.ts");
    let node_b = node("B", "b.ts");
    let node_c = node("C", "c.ts");
    let node_d = node("D", "d.ts");
    project.edges = vec![edge(&node_a, &node_c), edge(&node_b, &node_c), edge(&node_c, &node_d)];
    project.nodes = vec![node_a, node_b, node_c, node_d];

    let plan = ExecutionPlan::from_project(&project);

    assert_eq!(plan.waves.len(), 3);
    assert_eq!(plan.total_nodes, 4);
    assert_eq!(plan.waves[0].node_ids.len(), 2);
    assert_eq!(plan.waves[1].node_ids.len(), 1);
    assert_eq!(plan.waves[2].node_ids.len(), 1);
}

#[test]
fn linear_chain_waves_in_order() {
    let project = create_test_project();
    let ids: Vec<String> = project.nodes.iter().map(|n| n.id.clone()).collect();
    let plan = ExecutionPlan::from_project(&project);
    for (i, wave) in plan.waves.iter().enumerate() {
        assert_eq!(wave.wave_number, i);
        assert_eq!(wave.node_ids, vec![ids[i].clone()]);
    }
    assert_eq!(plan.ordered_node_ids(), ids);
    assert!(plan.contains_node(&ids[1]));
    assert!(!plan.contains_node("missing"));
}

#[test]
fn diamond_waves_as_sets() {
    let a = node("A", "a.ts");
    let b = node("B", "b.ts");
    let c = node("C", "c.ts");
    let d = node("D", "d.ts");
    let edges = vec![edge(&a, &c), edge(&b, &c), edge(&c, &d)];
    let (ia, ib, ic, id) = (a.id.clone(), b.id.clone(), c.id.clone(), d.id.clone());
    let project = Project {
        manifest: ProjectManifest::default(),
        nodes: vec![a, b, c, d],
        edges,
        project_path: String::new(),
    };
    let plan = ExecutionPlan::from_project(&project);
    let mut first = plan.waves[0].node_ids.clone();
    first.sort();
    let mut expected = vec![ia, ib];
    expected.sort();
    assert_eq!(first, expected);
    assert_eq!(plan.waves[1].node_ids, vec![ic]);
    assert_eq!(plan.waves[2].node_ids, vec![id]);
}

#[test]
fn cycle_members_and_their_dependents_are_skipped() {
    let a = node("A", "a.ts");
    let b = node("B", "b.ts");
    let c = node("C", "c.ts");
    let z = node("Z", "z.ts");
    let edges = vec![edge(&a, &b), edge(&b, &a), edge(&b, &c)];
    let (ic, iz) = (c.id.clone(), z.id.clone());
    let project = Project {
        manifest: ProjectManifest::default(),
        nodes: vec![a, b, c, z],
        edges,
        project_path: String::new(),
    };
    let plan = ExecutionPlan::from_project(&project);
    assert_eq!(plan.waves.len(), 1);
    assert_eq!(plan.waves[0].node_ids, vec![iz]);
    assert_eq!(plan.total_nodes, 1);
    assert_eq!(plan.skipped_nodes.len(), 3);
    assert!(plan.skipped_nodes.contains(&ic));
    assert_eq!(plan.total_nodes + plan.skipped_nodes.len(), project.nodes.len());
}

#[test]
fn dangling_edges_are_ignored_and_empty_project_has_no_waves() {
    let a = node("A", "a.ts");
    let dangling = CodeEdge::new("ghost".to_string(), a.id.clone(), String::new());
    let project = Project {
        manifest: ProjectManifest::default(),
        nodes: vec![a],
        edges: vec![dangling],
        project_path: String::new(),
    };
    let plan = ExecutionPlan::from_project(&project);
    assert_eq!(plan.waves.len(), 1);
    assert_eq!(plan.total_nodes, 1);

    let empty = Project::new("/tmp/p".to_string());
    let plan = ExecutionPlan::from_project(&empty);
    assert!(plan.waves.is_empty());
    assert_eq!(plan.total_nodes, 0);
    assert!(plan.skipped_nodes.is_empty());
}

#[test]
fn dependencies_come_in_earlier_waves() {
    let project = create_test_project();
    let plan = ExecutionPlan::from_project(&project);
    let wave_of = |id: &str| plan.waves.iter().position(|w| w.node_ids.iter().any(|x| x == id)).unwrap();
    for e in &project.edges {
        assert!(wave_of(&e.source) < wave_of(&e.target));
    }
}

#[test]
fn shared_ids_are_planned_once() {
    let a = node("A", "a.ts");
    let mut twin = node("A2", "a2.ts");
    twin.id = a.id.clone();
    let b = node("B", "b.ts");
    let e = edge(&a, &b);
    let (ia, ib) = (a.id.clone(), b.id.clone());
    let project = Project {
        manifest: ProjectManifest::default(),
        nodes: vec![a, twin, b],
        edges: vec![e],
        project_path: String::new(),
    };
    let plan = ExecutionPlan::from_project(&project);
    assert_eq!(plan.ordered_node_ids(), vec![ia, ib]);
    assert_eq!(plan.total_nodes, 2);
    assert!(plan.skipped_nodes.is_empty());
}
