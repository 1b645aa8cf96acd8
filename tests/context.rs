use needlepoint::context::{format_export, format_language, ContextBuilder};
use needlepoint::graph::{add_edge, add_node};
use needlepoint::model::{CodeNode, ExportSignature, Language, Project};

fn export(name: &str, ty: &str, desc: &str) -> ExportSignature {
    ExportSignature { name: name.to_string(), type_signature: ty.to_string(), description: desc.to_string() }
}

fn two_nodes() -> (Project, String, String) {
    let mut a = CodeNode::new("A".to_string(), "a.ts".to_string(), Language::TypeScript);
    a.exports = vec![export("x", "number", "the answer")];
    let mut b = CodeNode::new("B".to_string(), "b.ts".to_string(), Language::TypeScript);
    b.purpose = "Use x".to_string();
    b.description = "Reads x.".to_string();
    b.exports = vec![export("y", "", "")];
    b.llm_config.constraints = vec!["No globals".to_string()];
    let (ia, ib) = (a.id.clone(), b.id.clone());
    let p = add_node(Project::new("/tmp/p".to_string()), a).unwrap();
    let p = add_node(p, b).unwrap();
    let p = add_edge(p, ia.clone(), ib.clone(), String::new()).unwrap();
    (p, ia, ib)
}

#[test]
fn dependency_code_is_injected() {
    let (mut p, _, ib) = two_nodes();
    p.nodes[0].generated_code = Some("export const x = 1;".to_string());
    let prompt = ContextBuilder::build_prompt(&p, &ib).unwrap();
    assert!(prompt.contains("### dependency `a.ts`\n```\nexport const x = 1;\n```\n\n"));
}

#[test]
fn prompt_sections_in_order() {
    let (p, _, ib) = two_nodes();
    let prompt = ContextBuilder::build_prompt(&p, &ib).unwrap();
    let expected = "You are implementing a TypeScript module.\n\n\
## File: b.ts\n\
## Purpose: Use x\n\n\
## Description\nReads x.\n\n\
## You must export:\n- y\n\n\
## Dependencies (you can import from these files):\n\n\
### dependency `a.ts`\nExports:\n- x: number\n  the answer\n\n\
## Constraints:\n- No globals\n\n\
Generate the complete implementation.\n\n\
IMPORTANT: Output ONLY the raw code. Do NOT wrap the code in markdown code blocks (``` or ```typescript). Do NOT include any explanations, comments about the code, or surrounding text. The output should be directly usable as a source file.";
    assert_eq!(prompt, expected);
}

#[test]
fn prompt_for_missing_node_is_none() {
    let (p, _, _) = two_nodes();
    assert!(ContextBuilder::build_prompt(&p, "missing").is_none());
}

#[test]
fn minimal_prompt_and_labelled_dependency() {
    let (mut p, ia, ib) = two_nodes();
    p.edges[0].label = "imports types from".to_string();
    p.nodes[0].generated_code = Some("code\n".to_string());
    let prompt = ContextBuilder::build_prompt(&p, &ib).unwrap();
    assert!(prompt.contains("### imports types from `a.ts`\n```\ncode\n```\n\n"));
    let first = ContextBuilder::build_prompt(&p, &ia).unwrap();
    assert!(first.starts_with("You are implementing a TypeScript module.\n\n## File: a.ts\n## You must export:\n- x: number\n  the answer\n\nGenerate"));
    let deps = ContextBuilder::get_dependencies(&p, &ib);
    assert_eq!(deps.len(), 1);
    assert_eq!(deps[0].1, "imports types from");
}

#[test]
fn system_prompt_with_and_without_override() {
    let mut n = CodeNode::new("A".to_string(), "a.py".to_string(), Language::Python);
    assert_eq!(
        ContextBuilder::build_system_prompt(&n),
        "You are an expert Python programmer. Generate clean, well-documented, production-ready code."
    );
    n.llm_config.system_prompt = Some("Use type hints.".to_string());
    assert_eq!(
        ContextBuilder::build_system_prompt(&n),
        "You are an expert Python programmer. Generate clean, well-documented, production-ready code.\n\nUse type hints."
    );
}

#[test]
fn language_names_and_exports() {
    assert_eq!(format_language("typescript"), "TypeScript");
    assert_eq!(format_language("PYTHON"), "Python");
    assert_eq!(format_language("Go"), "Go");
    assert_eq!(format_language("Kotlin"), "kotlin");
    assert_eq!(Language::Rust.to_string(), "rust");
    assert_eq!(format_export(&export("f", "() => void", "")), "- f: () => void\n");
    assert_eq!(format_export(&export("f", "", "does f")), "- f\n  does f\n");
}
