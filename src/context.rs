//! Prompt assembly: a node's metadata, plus the generated code (or the
//! declared exports) of the nodes it depends on.

use vstd::prelude::*;
use crate::model::{language_name, str_equal, CodeEdge, CodeNode, ExportSignature, Project};

verus! {

/// Concatenation of `f` over the elements of `s`.
pub open spec fn concat_map<A>(s: Seq<A>, f: spec_fn(A) -> Seq<char>) -> Seq<char>
    decreases s.len(),
{
    if s.len() == 0 {
        Seq::empty()
    } else {
        concat_map(s.drop_last(), f) + f(s.last())
    }
}

proof fn lemma_concat_step<A>(s: Seq<A>, i: int, f: spec_fn(A) -> Seq<char>)
    requires
        0 <= i < s.len(),
    ensures
        concat_map(s.subrange(0, i + 1), f) == concat_map(s.subrange(0, i), f) + f(s[i]),
{
    assert(s.subrange(0, i + 1).drop_last() =~= s.subrange(0, i));
}

/// `text` if `cond`, else nothing.
pub open spec fn when(cond: bool, text: Seq<char>) -> Seq<char> {
    if cond {
        text
    } else {
        Seq::empty()
    }
}

/// Text of a line of the "you must export" list.
pub open spec fn export_line(e: ExportSignature) -> Seq<char> {
    "- "@ + e.name@ + when(e.type_signature@.len() > 0, ": "@ + e.type_signature@) + "\n"@ + when(
        e.description@.len() > 0,
        "  "@ + e.description@ + "\n"@,
    )
}

/// Text of an export of a dependency whose code is not generated yet.
pub open spec fn dependency_export_line(e: ExportSignature) -> Seq<char> {
    "- "@ + e.name@ + ": "@ + e.type_signature@ + "\n"@ + when(
        e.description@.len() > 0,
        "  "@ + e.description@ + "\n"@,
    )
}

pub open spec fn constraint_line(c: String) -> Seq<char> {
    "- "@ + c@ + "\n"@
}

/// The label an edge is shown with.
pub open spec fn label_text(label: Seq<char>) -> Seq<char> {
    if label.len() == 0 {
        "dependency"@
    } else {
        label
    }
}

/// Generated code in a fenced block, ending with a newline.
pub open spec fn code_block(code: Seq<char>) -> Seq<char> {
    "```\n"@ + code + when(code.len() == 0 || code.last() != '\n', "\n"@) + "```\n\n"@
}

/// The subsection of one dependency.
pub open spec fn dependency_text(d: (CodeNode, Seq<char>)) -> Seq<char> {
    let (n, label) = d;
    "### "@ + label + " `"@ + n.file_path@ + "`\n"@ + match n.generated_code {
        Some(code) => code_block(code@),
        None => "Exports:\n"@ + concat_map(n.exports@, |e: ExportSignature| dependency_export_line(e))
            + "\n"@,
    }
}

/// The dependencies of node `id` among the first `k` edges: for each edge
/// into `id` whose source is a node, that node and the edge's label.
pub open spec fn dependencies_upto(p: Project, id: Seq<char>, k: int) -> Seq<(CodeNode, Seq<char>)>
    decreases k,
{
    if k <= 0 {
        Seq::empty()
    } else {
        let prev = dependencies_upto(p, id, k - 1);
        let e = p.edges@[k - 1];
        if e.target@ == id && p.has_node(e.source@) {
            prev.push(
                (p.nodes@[crate::cycle::first_index(p, e.source@)], label_text(e.label@)),
            )
        } else {
            prev
        }
    }
}

pub open spec fn dependencies_of(p: Project, id: Seq<char>) -> Seq<(CodeNode, Seq<char>)> {
    dependencies_upto(p, id, p.edges@.len() as int)
}

pub const CLOSING_INSTRUCTION: &'static str = "IMPORTANT: Output ONLY the raw code. Do NOT wrap the code in markdown code blocks (``` or ```typescript). Do NOT include any explanations, comments about the code, or surrounding text. The output should be directly usable as a source file.";

/// The opening lines: language and file.
pub open spec fn header_text(n: CodeNode) -> Seq<char> {
    "You are implementing a "@ + language_name(n.language) + " module.\n\n"@ + "## File: "@
        + n.file_path@ + "\n"@
}

/// The purpose and description sections, each present when not empty.
pub open spec fn about_text(n: CodeNode) -> Seq<char> {
    when(n.purpose@.len() > 0, "## Purpose: "@ + n.purpose@ + "\n\n"@) + when(
        n.description@.len() > 0,
        "## Description\n"@ + n.description@ + "\n\n"@,
    )
}

/// The "you must export" section, present when the node declares exports.
pub open spec fn exports_section(n: CodeNode) -> Seq<char> {
    when(
        n.exports@.len() > 0,
        "## You must export:\n"@ + concat_map(n.exports@, |e: ExportSignature| export_line(e))
            + "\n"@,
    )
}

/// The dependencies section, present when the node has dependencies.
pub open spec fn dependencies_section(p: Project, n: CodeNode) -> Seq<char> {
    let deps = dependencies_of(p, n.id@);
    when(
        deps.len() > 0,
        "## Dependencies (you can import from these files):\n\n"@ + concat_map(
            deps,
            |d: (CodeNode, Seq<char>)| dependency_text(d),
        ),
    )
}

/// The constraints section, present when the node has constraints.
pub open spec fn constraints_section(n: CodeNode) -> Seq<char> {
    when(
        n.llm_config.constraints@.len() > 0,
        "## Constraints:\n"@ + concat_map(n.llm_config.constraints@, |c: String| constraint_line(c))
            + "\n"@,
    )
}

/// The prompt for node `n` of `p`, section by section.
pub open spec fn prompt_text(p: Project, n: CodeNode) -> Seq<char> {
    header_text(n) + about_text(n) + exports_section(n) + dependencies_section(p, n)
        + constraints_section(n) + "Generate the complete implementation.\n\n"@
        + CLOSING_INSTRUCTION@
}

/// The system prompt of node `n`.
pub open spec fn system_prompt_text(n: CodeNode) -> Seq<char> {
    let base = "You are an expert "@ + language_name(n.language)
        + " programmer. Generate clean, well-documented, production-ready code."@;
    match n.llm_config.system_prompt {
        Some(custom) => base + "\n\n"@ + custom@,
        None => base,
    }
}

/// Relies on `str::to_lowercase`; the result depends on the characters alone.
pub uninterp spec fn lowercase_of(s: Seq<char>) -> Seq<char>;

/// Relies on `str::to_lowercase`.
#[verifier::external_body]
fn lowercase(s: &str) -> (r: String)
    ensures
        r@ == lowercase_of(s@),
{
    s.to_lowercase()
}

/// Canonical spelling of a lower-case language tag; other text is kept.
pub open spec fn canonical_language(s: Seq<char>) -> Seq<char> {
    if s == "typescript"@ {
        "TypeScript"@
    } else if s == "javascript"@ {
        "JavaScript"@
    } else if s == "python"@ {
        "Python"@
    } else if s == "rust"@ {
        "Rust"@
    } else if s == "go"@ {
        "Go"@
    } else {
        s
    }
}

/// The canonical spelling of a lower-cased language tag.
pub fn canonical_language_of(lower: &str) -> (r: String)
    ensures
        r@ == canonical_language(lower@),
{
    if str_equal(lower, "typescript") {
        String::from_str("TypeScript")
    } else if str_equal(lower, "javascript") {
        String::from_str("JavaScript")
    } else if str_equal(lower, "python") {
        String::from_str("Python")
    } else if str_equal(lower, "rust") {
        String::from_str("Rust")
    } else if str_equal(lower, "go") {
        String::from_str("Go")
    } else {
        String::from_str(lower)
    }
}

/// The canonical spelling of a language name, in any letter case.
pub fn format_language(lang: &str) -> (r: String)
    ensures
        r@ == canonical_language(lowercase_of(lang@)),
{
    let lower = lowercase(lang);
    canonical_language_of(lower.as_str())
}

/// One line (two with a description) of the "you must export" list.
pub fn format_export(export: &ExportSignature) -> (r: String)
    ensures
        r@ == export_line(*export),
{
    let mut r = String::from_str("- ");
    r.append(export.name.as_str());
    let ghost a = r@;
    if !export.type_signature.as_str().is_empty() {
        r.append(": ");
        r.append(export.type_signature.as_str());
    }
    assert(r@ =~= a + when(export.type_signature@.len() > 0, ": "@ + export.type_signature@));
    r.append("\n");
    let ghost b = r@;
    if !export.description.as_str().is_empty() {
        r.append("  ");
        r.append(export.description.as_str());
        r.append("\n");
    }
    assert(r@ =~= b + when(export.description@.len() > 0, "  "@ + export.description@ + "\n"@));
    r
}

/// Appends the text of a dependency's subsection.
fn push_dependency(prompt: &mut String, node: &CodeNode, label: &String)
    ensures
        final(prompt)@ == old(prompt)@ + dependency_text((*node, label@)),
{
    let ghost start = prompt@;
    prompt.append("### ");
    prompt.append(label.as_str());
    prompt.append(" `");
    prompt.append(node.file_path.as_str());
    prompt.append("`\n");
    let ghost head = prompt@;
    match &node.generated_code {
        Some(code) => {
            prompt.append("```\n");
            prompt.append(code.as_str());
            let len = code.as_str().unicode_len();
            let ghost c = prompt@;
            if len == 0 || code.as_str().get_char(len - 1) != '\n' {
                prompt.append("\n");
            }
            assert(prompt@ =~= c + when(code@.len() == 0 || code@.last() != '\n', "\n"@));
            prompt.append("```\n\n");
            assert(prompt@ =~= head + code_block(code@));
        },
        None => {
            prompt.append("Exports:\n");
            let ghost e0 = prompt@;
            let mut i: usize = 0;
            while i < node.exports.len()
                invariant
                    i <= node.exports@.len(),
                    prompt@ == e0 + concat_map(
                        node.exports@.subrange(0, i as int),
                        |e: ExportSignature| dependency_export_line(e),
                    ),
                decreases node.exports@.len() - i,
            {
                proof {
                    lemma_concat_step(node.exports@, i as int, |e: ExportSignature| dependency_export_line(e));
                }
                let e = &node.exports[i];
                let ghost p0 = prompt@;
                prompt.append("- ");
                prompt.append(e.name.as_str());
                prompt.append(": ");
                prompt.append(e.type_signature.as_str());
                prompt.append("\n");
                let ghost p1 = prompt@;
                if !e.description.as_str().is_empty() {
                    prompt.append("  ");
                    prompt.append(e.description.as_str());
                    prompt.append("\n");
                }
                assert(prompt@ =~= p1 + when(e.description@.len() > 0, "  "@ + e.description@ + "\n"@));
                assert(prompt@ =~= p0 + dependency_export_line(*e));
                i += 1;
            }
            assert(node.exports@.subrange(0, i as int) =~= node.exports@);
            prompt.append("\n");
            assert(prompt@ =~= head + ("Exports:\n"@ + concat_map(node.exports@, |e: ExportSignature| dependency_export_line(e)) + "\n"@));
        },
    }
    assert(prompt@ =~= start + dependency_text((*node, label@)));
}

/// Appends the opening lines.
fn push_header(prompt: &mut String, node: &CodeNode)
    ensures
        final(prompt)@ == old(prompt)@ + header_text(*node),
{
    let ghost start = prompt@;
    prompt.append("You are implementing a ");
    prompt.append(node.language.display_name());
    prompt.append(" module.\n\n");
    prompt.append("## File: ");
    prompt.append(node.file_path.as_str());
    prompt.append("\n");
    assert(prompt@ =~= start + header_text(*node));
}

/// Appends the purpose and description sections.
fn push_about(prompt: &mut String, node: &CodeNode)
    ensures
        final(prompt)@ == old(prompt)@ + about_text(*node),
{
    let ghost s1 = prompt@;
    if !node.purpose.as_str().is_empty() {
        prompt.append("## Purpose: ");
        prompt.append(node.purpose.as_str());
        prompt.append("\n\n");
    }
    assert(prompt@ =~= s1 + when(node.purpose@.len() > 0, "## Purpose: "@ + node.purpose@ + "\n\n"@));
    let ghost s2 = prompt@;
    if !node.description.as_str().is_empty() {
        prompt.append("## Description\n");
        prompt.append(node.description.as_str());
        prompt.append("\n\n");
    }
    assert(prompt@ =~= s2 + when(node.description@.len() > 0, "## Description\n"@ + node.description@ + "\n\n"@));
    assert(prompt@ =~= s1 + about_text(*node));
}

/// Appends the "you must export" section.
fn push_exports(prompt: &mut String, node: &CodeNode)
    ensures
        final(prompt)@ == old(prompt)@ + exports_section(*node),
{
    let ghost s3 = prompt@;
    if node.exports.len() > 0 {
        prompt.append("## You must export:\n");
        let ghost e0 = prompt@;
        let mut i: usize = 0;
        while i < node.exports.len()
            invariant
                i <= node.exports@.len(),
                prompt@ == e0 + concat_map(
                    node.exports@.subrange(0, i as int),
                    |e: ExportSignature| export_line(e),
                ),
            decreases node.exports@.len() - i,
        {
            proof {
                lemma_concat_step(node.exports@, i as int, |e: ExportSignature| export_line(e));
            }
            let line = format_export(&node.exports[i]);
            prompt.append(line.as_str());
            i += 1;
        }
        assert(node.exports@.subrange(0, i as int) =~= node.exports@);
        prompt.append("\n");
    }
    assert(prompt@ =~= s3 + exports_section(*node));
}

/// Appends the dependencies section of the node `node_id`.
fn push_dependencies(prompt: &mut String, project: &Project, node_id: &str)
    ensures
        final(prompt)@ == old(prompt)@ + when(
            dependencies_of(*project, node_id@).len() > 0,
            "## Dependencies (you can import from these files):\n\n"@ + concat_map(
                dependencies_of(*project, node_id@),
                |d: (CodeNode, Seq<char>)| dependency_text(d),
            ),
        ),
{
    let ghost s4 = prompt@;
    let deps = ContextBuilder::get_dependencies(project, node_id);
    let ghost ds = dependencies_of(*project, node_id@);
    if deps.len() > 0 {
        prompt.append("## Dependencies (you can import from these files):\n\n");
        let ghost d0 = prompt@;
        let mut j: usize = 0;
        while j < deps.len()
            invariant
                j <= deps@.len(),
                ds == dependencies_of(*project, node_id@),
                deps@.len() == ds.len(),
                forall|i: int| 0 <= i < deps@.len() ==> *(#[trigger] deps@[i]).0 == ds[i].0
                    && deps@[i].1@ == ds[i].1,
                prompt@ == d0 + concat_map(
                    ds.subrange(0, j as int),
                    |d: (CodeNode, Seq<char>)| dependency_text(d),
                ),
            decreases deps@.len() - j,
        {
            proof {
                lemma_concat_step(ds, j as int, |d: (CodeNode, Seq<char>)| dependency_text(d));
            }
            let (dn, label) = &deps[j];
            push_dependency(prompt, *dn, label);
            assert((*deps@[j as int].0, deps@[j as int].1@) == ds[j as int]);
            j += 1;
        }
        assert(ds.subrange(0, j as int) =~= ds);
    }
    assert(prompt@ =~= s4 + when(
        ds.len() > 0,
        "## Dependencies (you can import from these files):\n\n"@ + concat_map(
            ds,
            |d: (CodeNode, Seq<char>)| dependency_text(d),
        ),
    ));
}

/// Appends the constraints section.
fn push_constraints(prompt: &mut String, node: &CodeNode)
    ensures
        final(prompt)@ == old(prompt)@ + constraints_section(*node),
{
    let ghost s5 = prompt@;
    let constraints = &node.llm_config.constraints;
    if constraints.len() > 0 {
        prompt.append("## Constraints:\n");
        let ghost c0 = prompt@;
        let mut i: usize = 0;
        while i < constraints.len()
            invariant
                i <= constraints@.len(),
                prompt@ == c0 + concat_map(
                    constraints@.subrange(0, i as int),
                    |c: String| constraint_line(c),
                ),
            decreases constraints@.len() - i,
        {
            proof {
                lemma_concat_step(constraints@, i as int, |c: String| constraint_line(c));
            }
            let ghost p0 = prompt@;
            prompt.append("- ");
            prompt.append(constraints[i].as_str());
            prompt.append("\n");
            assert(prompt@ =~= p0 + constraint_line(constraints@[i as int]));
            i += 1;
        }
        assert(constraints@.subrange(0, i as int) =~= constraints@);
        prompt.append("\n");
    }
    assert(prompt@ =~= s5 + constraints_section(*node));
}

/// Builds prompts for code generation from a node and its dependencies.
pub struct ContextBuilder;

impl ContextBuilder {
    /// The dependencies of `node_id`: for each edge into it whose source is a
    /// node, in edge order, that node and the edge's label ("dependency" when
    /// the label is empty).
    pub fn get_dependencies<'a>(project: &'a Project, node_id: &str) -> (r: Vec<(&'a CodeNode, String)>)
        ensures
            r@.len() == dependencies_of(*project, node_id@).len(),
            forall|i: int| 0 <= i < r@.len() ==> *(#[trigger] r@[i]).0 == dependencies_of(*project, node_id@)[i].0
                && r@[i].1@ == dependencies_of(*project, node_id@)[i].1,
    {
        let mut r: Vec<(&CodeNode, String)> = Vec::new();
        let mut k: usize = 0;
        while k < project.edges.len()
            invariant
                k <= project.edges@.len(),
                r@.len() == dependencies_upto(*project, node_id@, k as int).len(),
                forall|i: int| 0 <= i < r@.len() ==> *(#[trigger] r@[i]).0 == dependencies_upto(*project, node_id@, k as int)[i].0
                    && r@[i].1@ == dependencies_upto(*project, node_id@, k as int)[i].1,
            decreases project.edges@.len() - k,
        {
            let edge: &CodeEdge = &project.edges[k];
            if str_equal(edge.target.as_str(), node_id) {
                match project.find_node_index(edge.source.as_str()) {
                    Some(si) => {
                        proof {
                            crate::cycle::lemma_first_unique(*project, si as int, crate::cycle::first_index(*project, edge.source@), edge.source@);
                        }
                        let label = if edge.label.as_str().is_empty() {
                            String::from_str("dependency")
                        } else {
                            edge.label.clone()
                        };
                        r.push((&project.nodes[si], label));
                    },
                    None => {},
                }
            }
            k += 1;
        }
        r
    }

    /// The prompt for the first node whose id is `node_id`, or `None` when no
    /// node has that id.
    pub fn build_prompt(project: &Project, node_id: &str) -> (r: Option<String>)
        ensures
            match r {
                None => !project.has_node(node_id@),
                Some(s) => project.has_node(node_id@) && s@ == prompt_text(
                    *project,
                    project.nodes@[crate::cycle::first_index(*project, node_id@)],
                ),
            },
    {
        let ni = match project.find_node_index(node_id) {
            Some(i) => i,
            None => {
                return None;
            },
        };
        proof {
            crate::cycle::lemma_first_unique(*project, ni as int, crate::cycle::first_index(*project, node_id@), node_id@);
        }
        let node = &project.nodes[ni];
        let mut prompt = String::new();
        push_header(&mut prompt, node);
        push_about(&mut prompt, node);
        push_exports(&mut prompt, node);
        push_dependencies(&mut prompt, project, node_id);
        push_constraints(&mut prompt, node);
        prompt.append("Generate the complete implementation.\n\n");
        prompt.append(CLOSING_INSTRUCTION);
        Some(prompt)
    }

    /// The system prompt of `node`: a statement of expertise in its language,
    /// followed by its own system prompt when it has one.
    pub fn build_system_prompt(node: &CodeNode) -> (r: String)
        ensures
            r@ == system_prompt_text(*node),
    {
        let mut r = String::from_str("You are an expert ");
        r.append(node.language.display_name());
        r.append(" programmer. Generate clean, well-documented, production-ready code.");
        match &node.llm_config.system_prompt {
            Some(custom) => {
                r.append("\n\n");
                r.append(custom.as_str());
            },
            None => {},
        }
        r
    }
}

} // verus!
