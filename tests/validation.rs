use needlepoint::model::{CodeEdge, CodeNode, ExportSignature, Language, Project};
use needlepoint::validation::{validate_project, ValidationError, ValidationWarning};

fn node(path: &str) -> CodeNode {
    let mut n = CodeNode::new(path.to_string(), path.to_string(), Language::TypeScript);
    n.description = "d".to_string();
    n.exports = vec![ExportSignature { name: "e".to_string(), type_signature: String::new(), description: String::new() }];
    n
}

#[test]
fn valid_project_has_no_findings() {
    let a = node("a.ts");
    let b = node("b.ts");
    let e = CodeEdge::new(a.id.clone(), b.id.clone(), String::new());
    let p = Project { nodes: vec![a, b], edges: vec![e], ..Project::new("/p".to_string()) };
    let r = validate_project(&p);
    assert!(r.is_valid());
    assert!(!r.has_warnings());
}

#[test]
fn structural_errors_in_order() {
    let a = node("a.ts");
    let b = node("a.ts");
    let c = node("c.ts");
    let edges = vec![
        CodeEdge::new("ghost".to_string(), a.id.clone(), String::new()),
        CodeEdge::new(a.id.clone(), "phantom".to_string(), String::new()),
        CodeEdge::new(a.id.clone(), c.id.clone(), String::new()),
        CodeEdge::new(c.id.clone(), a.id.clone(), String::new()),
    ];
    let (ia, ib) = (a.id.clone(), b.id.clone());
    let p = Project { nodes: vec![a, b, c], edges, ..Project::new("/p".to_string()) };
    let r = validate_project(&p);
    assert!(!r.is_valid());
    assert_eq!(r.errors.len(), 4);
    assert!(matches!(&r.errors[0], ValidationError::MissingNode(id) if id == "ghost"));
    assert!(matches!(&r.errors[1], ValidationError::MissingNode(id) if id == "phantom"));
    assert!(matches!(&r.errors[2], ValidationError::CyclicDependency(_)));
    match &r.errors[3] {
        ValidationError::DuplicateFilePath(path, ids) => {
            assert_eq!(path, "a.ts");
            assert_eq!(ids, &vec![ia, ib]);
        }
        _ => panic!("expected a duplicate path error"),
    }
}

#[test]
fn warnings_for_unconnected_and_incomplete_nodes() {
    let a = node("a.ts");
    let mut b = CodeNode::new("b".to_string(), "b.ts".to_string(), Language::Go);
    b.description = String::new();
    let (ia, ib) = (a.id.clone(), b.id.clone());
    let p = Project { nodes: vec![a, b], edges: vec![], ..Project::new("/p".to_string()) };
    let r = validate_project(&p);
    assert!(r.is_valid());
    assert!(r.has_warnings());
    assert_eq!(r.warnings.len(), 4);
    assert!(matches!(&r.warnings[0], ValidationWarning::UnreachableNode(id) if *id == ia));
    assert!(matches!(&r.warnings[1], ValidationWarning::UnreachableNode(id) if *id == ib));
    assert!(matches!(&r.warnings[2], ValidationWarning::EmptyDescription(id) if *id == ib));
    assert!(matches!(&r.warnings[3], ValidationWarning::NoExports(id) if *id == ib));
}

#[test]
fn single_node_is_not_unreachable() {
    let a = node("a.ts");
    let p = Project { nodes: vec![a], edges: vec![], ..Project::new("/p".to_string()) };
    let r = validate_project(&p);
    assert!(r.is_valid());
    assert!(!r.has_warnings());
}
