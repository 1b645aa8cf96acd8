//! Mutation primitives of the project graph. Each one either fails with a
//! structural error or returns the mutated project, and keeps the invariants.

use vstd::prelude::*;
use crate::cycle::{rel_with_edge, would_create_cycle};
use crate::model::{
    NodeStatus, has_cycle, lemma_cycle_monotone, str_equal, fresh_identifier, CodeEdge, CodeNode,
    ExportSignature, LLMConfig, Language, Position, Project,
};

verus! {

broadcast use vstd::seq_lib::group_seq_properties;

/// Structural errors of graph mutations.
#[derive(Debug, Clone)]
pub enum GraphError {
    /// Another node already has this file path.
    DuplicateFilePath(String),
    /// No node has this id.
    MissingEndpoint(String),
    /// The edge would join a node to itself.
    SelfLoop,
    /// An edge between these two nodes already exists.
    DuplicateEdge,
    /// The edge would close a directed cycle.
    WouldCreateCycle,
    /// No node or edge has this id.
    NotFound(String),
}

/// The one-sentence description of a graph error.
pub open spec fn graph_error_text(e: GraphError) -> Seq<char> {
    match e {
        GraphError::DuplicateFilePath(p) => "A node with file path '"@ + p@ + "' already exists"@,
        GraphError::MissingEndpoint(id) => "Node '"@ + id@ + "' not found"@,
        GraphError::SelfLoop => "Cannot create an edge from a node to itself"@,
        GraphError::DuplicateEdge => "Edge already exists"@,
        GraphError::WouldCreateCycle => "Adding this edge would create a circular dependency"@,
        GraphError::NotFound(id) => "'"@ + id@ + "' not found"@,
    }
}

impl GraphError {
    /// A one-sentence description of the error.
    pub fn message(&self) -> (r: String)
        ensures
            r@ == graph_error_text(*self),
    {
        match self {
            GraphError::DuplicateFilePath(p) => {
                let mut m = String::from_str("A node with file path '");
                m.append(p.as_str());
                m.append("' already exists");
                m
            },
            GraphError::MissingEndpoint(id) => {
                let mut m = String::from_str("Node '");
                m.append(id.as_str());
                m.append("' not found");
                m
            },
            GraphError::SelfLoop => String::from_str("Cannot create an edge from a node to itself"),
            GraphError::DuplicateEdge => String::from_str("Edge already exists"),
            GraphError::WouldCreateCycle => String::from_str(
                "Adding this edge would create a circular dependency",
            ),
            GraphError::NotFound(id) => {
                let mut m = String::from_str("'");
                m.append(id.as_str());
                m.append("' not found");
                m
            },
        }
    }
}

/// A partial update of a node: each field that is `Some` replaces the node's.
#[derive(Debug, Clone)]
pub struct NodePatch {
    pub name: Option<String>,
    pub file_path: Option<String>,
    pub language: Option<Language>,
    pub description: Option<String>,
    pub purpose: Option<String>,
    pub exports: Option<Vec<ExportSignature>>,
    pub llm_config: Option<LLMConfig>,
    pub position: Option<Position>,
    pub generated_code: Option<String>,
    pub status: Option<NodeStatus>,
}

impl Default for NodePatch {
    fn default() -> (r: NodePatch)
        ensures
            r.name.is_none() && r.file_path.is_none() && r.language.is_none()
                && r.description.is_none() && r.purpose.is_none() && r.exports.is_none()
                && r.llm_config.is_none() && r.position.is_none() && r.generated_code.is_none()
                && r.status.is_none(),
    {
        NodePatch {
            name: None,
            file_path: None,
            language: None,
            description: None,
            purpose: None,
            exports: None,
            llm_config: None,
            position: None,
            generated_code: None,
            status: None,
        }
    }
}

/// `n` is `old` with the patch applied.
pub open spec fn patched(old: CodeNode, patch: NodePatch, n: CodeNode) -> bool {
    &&& n.id == old.id
    &&& n.status == (match patch.status { Some(v) => v, None => old.status })
    &&& n.error_message == old.error_message
    &&& n.name == (match patch.name { Some(v) => v, None => old.name })
    &&& n.file_path == (match patch.file_path { Some(v) => v, None => old.file_path })
    &&& n.language == (match patch.language { Some(v) => v, None => old.language })
    &&& n.description == (match patch.description { Some(v) => v, None => old.description })
    &&& n.purpose == (match patch.purpose { Some(v) => v, None => old.purpose })
    &&& n.exports == (match patch.exports { Some(v) => v, None => old.exports })
    &&& n.llm_config == (match patch.llm_config { Some(v) => v, None => old.llm_config })
    &&& n.position == (match patch.position { Some(v) => v, None => old.position })
    &&& n.generated_code == (match patch.generated_code {
        Some(v) => Some(v),
        None => old.generated_code,
    })
}

/// Some node other than the one at `skip` has file path `path`.
pub open spec fn path_taken(p: Project, path: Seq<char>, skip: int) -> bool {
    exists|j: int| 0 <= j < p.nodes@.len() && j != skip && (#[trigger] p.nodes@[j]).file_path@ == path
}

pub open spec fn node_kept(id: Seq<char>) -> spec_fn(CodeNode) -> bool {
    |n: CodeNode| n.id@ != id
}

pub open spec fn edge_kept_by_id(id: Seq<char>) -> spec_fn(CodeEdge) -> bool {
    |e: CodeEdge| e.id@ != id
}

pub open spec fn edge_clear_of(id: Seq<char>) -> spec_fn(CodeEdge) -> bool {
    |e: CodeEdge| e.source@ != id && e.target@ != id
}

/// One more element of a prefix, filtered.
proof fn lemma_filter_step<A>(s: Seq<A>, i: int, pred: spec_fn(A) -> bool)
    requires
        0 <= i < s.len(),
    ensures
        s.subrange(0, i + 1).filter(pred) == (if pred(s[i]) {
            s.subrange(0, i).filter(pred).push(s[i])
        } else {
            s.subrange(0, i).filter(pred)
        }),
{
    reveal(Seq::filter);
    assert(s.subrange(0, i + 1).drop_last() =~= s.subrange(0, i));
}

/// Filtering keeps keys pairwise distinct.
proof fn lemma_filter_distinct<A, B>(s: Seq<A>, pred: spec_fn(A) -> bool, key: spec_fn(A) -> B)
    requires
        forall|i: int, j: int|
            0 <= i < s.len() && 0 <= j < s.len() && i != j ==> key(s[i]) != key(s[j]),
    ensures
        forall|i: int, j: int|
            0 <= i < s.filter(pred).len() && 0 <= j < s.filter(pred).len() && i != j
                ==> key(s.filter(pred)[i]) != key(s.filter(pred)[j]),
    decreases s.len(),
{
    reveal(Seq::filter);
    if s.len() > 0 {
        let d = s.drop_last();
        assert forall|i: int, j: int|
            0 <= i < d.len() && 0 <= j < d.len() && i != j implies key(d[i]) != key(d[j]) by {
            assert(d[i] == s[i] && d[j] == s[j]);
        }
        lemma_filter_distinct(d, pred, key);
        let f = s.filter(pred);
        let fd = d.filter(pred);
        if pred(s.last()) {
            assert forall|i: int, j: int|
                0 <= i < f.len() && 0 <= j < f.len() && i != j implies key(f[i]) != key(f[j]) by {
                if i == f.len() - 1 || j == f.len() - 1 {
                    let o = if i == f.len() - 1 { j } else { i };
                    assert(f[o] == fd[o]);
                    assert(fd.contains(fd[o]));
                    d.lemma_filter_contains_rev(pred, fd[o]);
                    let m = choose|m: int| 0 <= m < d.len() && d[m] == fd[o];
                    assert(s[m] == d[m]);
                    assert(key(s[m]) != key(s[s.len() - 1]));
                } else {
                    assert(f[i] == fd[i] && f[j] == fd[j]);
                }
            }
        }
    }
}

/// Node-list edits that keep the ids and the edges keep the dependency graph.
pub(crate) proof fn lemma_same_links(p: Project, q: Project)
    requires
        q.edges@ == p.edges@,
        q.nodes@.len() == p.nodes@.len(),
        forall|i: int| 0 <= i < p.nodes@.len() ==> (#[trigger] q.nodes@[i]).id@ == p.nodes@[i].id@,
    ensures
        q.link_rel() == p.link_rel(),
{
    assert forall|a: Seq<char>| #[trigger] q.has_node(a) == p.has_node(a) by {
        if q.has_node(a) {
            let i = choose|i: int| 0 <= i < q.nodes@.len() && (#[trigger] q.nodes@[i]).id@ == a;
            assert(p.nodes@[i].id@ == a);
        }
        if p.has_node(a) {
            let i = choose|i: int| 0 <= i < p.nodes@.len() && (#[trigger] p.nodes@[i]).id@ == a;
            assert(q.nodes@[i].id@ == a);
        }
    }
    assert(q.link_rel() =~= p.link_rel());
}

/// An id no node of `p` has: `given` when it is non-empty and free,
/// otherwise a fresh identifier, lengthened with `-` while a node has it.
fn distinct_node_id(p: &Project, given: String) -> (r: String)
    ensures
        r@.len() > 0,
        !p.has_node(r@),
        given@.len() > 0 && !p.has_node(given@) ==> r == given,
{
    if !given.as_str().is_empty() && p.find_node_index(given.as_str()).is_none() {
        return given;
    }
    let mut longest: usize = 0;
    let mut i: usize = 0;
    while i < p.nodes.len()
        invariant
            i <= p.nodes@.len(),
            forall|j: int| 0 <= j < i ==> (#[trigger] p.nodes@[j]).id@.len() <= longest,
        decreases p.nodes@.len() - i,
    {
        let l = p.nodes[i].id.as_str().unicode_len();
        if l > longest {
            longest = l;
        }
        i += 1;
    }
    let mut c = fresh_identifier();
    proof {
        reveal_strlit("-");
    }
    while p.find_node_index(c.as_str()).is_some()
        invariant
            c@.len() > 0,
            "-"@.len() == 1,
            forall|j: int| 0 <= j < p.nodes@.len() ==> (#[trigger] p.nodes@[j]).id@.len() <= longest,
        decreases longest + 1 - c@.len(),
    {
        proof {
            let j = choose|j: int| 0 <= j < p.nodes@.len() && (#[trigger] p.nodes@[j]).id@ == c@;
            assert(p.nodes@[j].id@.len() <= longest);
        }
        c.append("-");
    }
    c
}

/// Index of the first edge whose id is `id`.
fn find_edge_index(p: &Project, id: &str) -> (r: Option<usize>)
    ensures
        match r {
            Some(k) => k < p.edges@.len() && p.edges@[k as int].id@ == id@,
            None => !has_edge_id(*p, id@),
        },
{
    let mut k: usize = 0;
    while k < p.edges.len()
        invariant
            k <= p.edges@.len(),
            forall|j: int| 0 <= j < k ==> (#[trigger] p.edges@[j]).id@ != id@,
        decreases p.edges@.len() - k,
    {
        if str_equal(p.edges[k].id.as_str(), id) {
            return Some(k);
        }
        k += 1;
    }
    None
}

/// An id no edge of `p` has: `given` when it is non-empty and free,
/// otherwise a fresh identifier, lengthened with `-` while an edge has it.
fn distinct_edge_id(p: &Project, given: String) -> (r: String)
    ensures
        r@.len() > 0,
        !has_edge_id(*p, r@),
        given@.len() > 0 && !has_edge_id(*p, given@) ==> r == given,
{
    if !given.as_str().is_empty() && find_edge_index(p, given.as_str()).is_none() {
        return given;
    }
    let mut longest: usize = 0;
    let mut i: usize = 0;
    while i < p.edges.len()
        invariant
            i <= p.edges@.len(),
            forall|j: int| 0 <= j < i ==> (#[trigger] p.edges@[j]).id@.len() <= longest,
        decreases p.edges@.len() - i,
    {
        let l = p.edges[i].id.as_str().unicode_len();
        if l > longest {
            longest = l;
        }
        i += 1;
    }
    let mut c = fresh_identifier();
    proof {
        reveal_strlit("-");
    }
    while find_edge_index(p, c.as_str()).is_some()
        invariant
            c@.len() > 0,
            "-"@.len() == 1,
            forall|j: int| 0 <= j < p.edges@.len() ==> (#[trigger] p.edges@[j]).id@.len() <= longest,
        decreases longest + 1 - c@.len(),
    {
        c.append("-");
    }
    c
}

/// Appends a node. Fails with `DuplicateFilePath` when a node already has the
/// node's file path. The node keeps its id when that is non-empty and no node
/// has it; otherwise it gets a fresh one that no node has.
pub fn add_node(project: Project, node: CodeNode) -> (r: Result<Project, GraphError>)
    ensures
        r is Err <==> path_taken(project, node.file_path@, -1),
        r matches Err(e) ==> e matches GraphError::DuplicateFilePath(fp) && fp == node.file_path,
        r matches Ok(q) ==> {
            &&& q.manifest == project.manifest
            &&& q.project_path == project.project_path
            &&& q.edges == project.edges
            &&& q.nodes@.len() == project.nodes@.len() + 1
            &&& q.nodes@.subrange(0, project.nodes@.len() as int) == project.nodes@
            &&& ({
                let n = q.nodes@[project.nodes@.len() as int];
                &&& n == CodeNode { id: n.id, ..node }
                &&& n.id@.len() > 0
                &&& !project.has_node(n.id@)
                &&& node.id@.len() > 0 && !project.has_node(node.id@) ==> n == node
            })
            &&& project.wf() ==> q.wf()
        },
{
    let ghost node0 = node;
    let mut n = node;
    let id = n.id.clone();
    n.id = distinct_node_id(&project, id);
    let mut i: usize = 0;
    while i < project.nodes.len()
        invariant
            i <= project.nodes@.len(),
            node == node0,
            n == (CodeNode { id: n.id, ..node0 }),
            n.id@.len() > 0,
            !project.has_node(n.id@),
            node0.id@.len() > 0 && !project.has_node(node0.id@) ==> n == node0,
            forall|j: int| 0 <= j < i ==> #[trigger] project.nodes@[j].file_path@ != node.file_path@,
        decreases project.nodes@.len() - i,
    {
        if project.nodes[i].file_path == n.file_path {
            assert(project.nodes@[i as int].file_path@ == node0.file_path@);
            assert(path_taken(project, node0.file_path@, -1));
            return Err(GraphError::DuplicateFilePath(n.file_path));
        }
        i += 1;
    }
    let ghost old_p = project;
    let mut project = project;
    project.nodes.push(n);
    proof {
        assert(project.nodes@.subrange(0, old_p.nodes@.len() as int) =~= old_p.nodes@);
        if old_p.wf() {
            let n = old_p.nodes@.len() as int;
            assert forall|a: int, b: int|
                0 <= a < project.nodes@.len() && 0 <= b < project.nodes@.len() && a != b
                    implies #[trigger] project.nodes@[a].file_path@
                    != #[trigger] project.nodes@[b].file_path@ by {
                if a < n && b < n {
                    assert(project.nodes@[a] == old_p.nodes@[a]);
                    assert(project.nodes@[b] == old_p.nodes@[b]);
                }
            }
            assert forall|a: int, b: int|
                0 <= a < project.nodes@.len() && 0 <= b < project.nodes@.len() && a != b
                    implies #[trigger] project.nodes@[a].id@ != #[trigger] project.nodes@[b].id@ by {
                if a < n && b < n {
                    assert(project.nodes@[a] == old_p.nodes@[a]);
                    assert(project.nodes@[b] == old_p.nodes@[b]);
                } else if a < n {
                    assert(project.nodes@[a] == old_p.nodes@[a]);
                } else {
                    assert(project.nodes@[b] == old_p.nodes@[b]);
                }
            }
            assert forall|x: Seq<char>| old_p.has_node(x) implies #[trigger] project.has_node(x) by {
                let j = choose|j: int| 0 <= j < old_p.nodes@.len() && (#[trigger] old_p.nodes@[j]).id@ == x;
                assert(project.nodes@[j] == old_p.nodes@[j]);
            }
            assert forall|a: Seq<char>, b: Seq<char>| #[trigger] project.link_rel()(a, b) implies old_p.link_rel()(a, b) by {
                let k = choose|k: int| 0 <= k < project.edges@.len() && (#[trigger] project.edges@[k]).source@ == a && project.edges@[k].target@ == b;
                assert(old_p.has_node(old_p.edges@[k].source@));
            }
            if has_cycle(project.link_rel()) {
                lemma_cycle_monotone(project.link_rel(), old_p.link_rel());
            }
        }
    }
    Ok(project)
}

/// Applies each `Some` field of `patch` to `node`.
fn apply_patch(node: &mut CodeNode, patch: NodePatch)
    ensures
        patched(*old(node), patch, *final(node)),
{
    let NodePatch {
        name,
        file_path,
        language,
        description,
        purpose,
        exports,
        llm_config,
        position,
        generated_code,
        status,
    } = patch;
    if let Some(v) = name {
        node.name = v;
    }
    if let Some(v) = file_path {
        node.file_path = v;
    }
    if let Some(v) = language {
        node.language = v;
    }
    if let Some(v) = description {
        node.description = v;
    }
    if let Some(v) = purpose {
        node.purpose = v;
    }
    if let Some(v) = exports {
        node.exports = v;
    }
    if let Some(v) = llm_config {
        node.llm_config = v;
    }
    if let Some(v) = position {
        node.position = v;
    }
    if let Some(v) = generated_code {
        node.generated_code = Some(v);
    }
    if let Some(v) = status {
        node.status = v;
    }
}

/// Replacing one node by one with the same id and a file path no other node
/// has keeps the invariants.
proof fn lemma_replace_node(p: Project, q: Project, i: int)
    requires
        0 <= i < p.nodes@.len(),
        q.edges == p.edges,
        q.nodes@.len() == p.nodes@.len(),
        forall|j: int| 0 <= j < q.nodes@.len() && j != i ==> q.nodes@[j] == p.nodes@[j],
        q.nodes@[i].id == p.nodes@[i].id,
        q.nodes@[i].file_path@ == p.nodes@[i].file_path@ || !path_taken(p, q.nodes@[i].file_path@, i),
    ensures
        q.link_rel() == p.link_rel(),
        p.wf() ==> q.wf(),
{
    assert forall|j: int| 0 <= j < p.nodes@.len() implies (#[trigger] q.nodes@[j]).id@ == p.nodes@[j].id@ by {
        if j != i {
            assert(q.nodes@[j] == p.nodes@[j]);
        }
    }
    lemma_same_links(p, q);
    assert forall|x: Seq<char>| #[trigger] q.has_node(x) == p.has_node(x) by {
        if q.has_node(x) {
            let a = choose|a: int| 0 <= a < q.nodes@.len() && (#[trigger] q.nodes@[a]).id@ == x;
            assert(p.nodes@[a].id@ == x);
        }
        if p.has_node(x) {
            let a = choose|a: int| 0 <= a < p.nodes@.len() && (#[trigger] p.nodes@[a]).id@ == x;
            assert(q.nodes@[a].id@ == x);
        }
    }
    if p.wf() {
        assert forall|a: int, b: int|
            0 <= a < q.nodes@.len() && 0 <= b < q.nodes@.len() && a != b
                implies #[trigger] q.nodes@[a].file_path@ != #[trigger] q.nodes@[b].file_path@ by {
            if a != i && b != i {
                assert(q.nodes@[a] == p.nodes@[a]);
                assert(q.nodes@[b] == p.nodes@[b]);
            } else if a == i {
                assert(q.nodes@[b] == p.nodes@[b]);
                assert(p.nodes@[a].file_path@ != p.nodes@[b].file_path@);
            } else {
                assert(q.nodes@[a] == p.nodes@[a]);
                assert(p.nodes@[a].file_path@ != p.nodes@[b].file_path@);
            }
        }
    }
}

/// Applies `patch` to the first node whose id is `node_id`. Fails with
/// `NotFound` when there is none, and with `DuplicateFilePath` when the patch
/// gives a file path that another node has.
pub fn update_node(project: Project, node_id: &str, patch: NodePatch) -> (r: Result<Project, GraphError>)
    ensures
        !project.has_node(node_id@) ==> (r matches Err(GraphError::NotFound(id)) && id@ == node_id@),
        project.has_node(node_id@) ==> ({
            let i = crate::cycle::first_index(project, node_id@);
            match patch.file_path {
                Some(fp) if path_taken(project, fp@, i) => (r matches Err(
                    GraphError::DuplicateFilePath(e),
                ) && e == fp),
                _ => (r matches Ok(q) && {
                    &&& q.manifest == project.manifest
                    &&& q.project_path == project.project_path
                    &&& q.edges == project.edges
                    &&& q.nodes@.len() == project.nodes@.len()
                    &&& forall|j: int| 0 <= j < q.nodes@.len() && j != i ==> q.nodes@[j] == project.nodes@[j]
                    &&& patched(project.nodes@[i], patch, q.nodes@[i])
                    &&& project.wf() ==> q.wf()
                }),
            }
        }),
{
    let i = match project.find_node_index(node_id) {
        Some(i) => i,
        None => {
            let mut id = String::new();
            id.append(node_id);
            return Err(GraphError::NotFound(id));
        },
    };
    proof {
        crate::cycle::lemma_first_unique(project, i as int, crate::cycle::first_index(project, node_id@), node_id@);
    }
    if let Some(fp) = &patch.file_path {
        let mut j: usize = 0;
        while j < project.nodes.len()
            invariant
                j <= project.nodes@.len(),
                i == crate::cycle::first_index(project, node_id@),
                project.is_first_with_id(i as int, node_id@),
                patch.file_path == Some(*fp),
                forall|m: int| 0 <= m < j && m != i ==> #[trigger] project.nodes@[m].file_path@ != fp@,
            decreases project.nodes@.len() - j,
        {
            if j != i && project.nodes[j].file_path == *fp {
                assert(project.nodes@[j as int].file_path@ == fp@);
                return Err(GraphError::DuplicateFilePath(fp.clone()));
            }
            j += 1;
        }
    }
    let ghost old_p = project;
    let mut project = project;
    apply_patch(&mut project.nodes[i], patch);
    proof {
        lemma_replace_node(old_p, project, i as int);
    }
    Ok(project)
}

/// Removes every node whose id is `node_id` and every edge that touches it.
/// Fails with `NotFound` when no node has that id.
pub fn delete_node(project: Project, node_id: &str) -> (r: Result<Project, GraphError>)
    ensures
        !project.has_node(node_id@) <==> r is Err,
        r matches Err(e) ==> e matches GraphError::NotFound(id) && id@ == node_id@,
        r matches Ok(q) ==> {
            &&& q.manifest == project.manifest
            &&& q.project_path == project.project_path
            &&& q.nodes@ == project.nodes@.filter(node_kept(node_id@))
            &&& q.edges@ == project.edges@.filter(edge_clear_of(node_id@))
            &&& project.endpoints_exist() ==> q.endpoints_exist()
            &&& project.wf() ==> q.wf()
        },
{
    if project.find_node_index(node_id).is_none() {
        let mut id = String::new();
        id.append(node_id);
        return Err(GraphError::NotFound(id));
    }
    let ghost old_p = project;
    let Project { manifest, nodes, edges, project_path } = project;
    let mut rest = nodes;
    let mut kept: Vec<CodeNode> = Vec::new();
    let ghost orig = rest@;
    let ghost mut i: int = 0;
    while rest.len() > 0
        invariant
            0 <= i <= orig.len(),
            rest@ == orig.subrange(i, orig.len() as int),
            kept@ == orig.subrange(0, i).filter(node_kept(node_id@)),
        decreases rest@.len(),
    {
        let n = rest.remove(0);
        proof {
            lemma_filter_step(orig, i, node_kept(node_id@));
        }
        if !str_equal(n.id.as_str(), node_id) {
            kept.push(n);
        }
        proof {
            i = i + 1;
            assert(rest@ =~= orig.subrange(i, orig.len() as int));
        }
    }
    assert(orig.subrange(0, i) =~= orig);
    let mut rest_e = edges;
    let mut kept_e: Vec<CodeEdge> = Vec::new();
    let ghost orig_e = rest_e@;
    let ghost mut k: int = 0;
    while rest_e.len() > 0
        invariant
            0 <= k <= orig_e.len(),
            rest_e@ == orig_e.subrange(k, orig_e.len() as int),
            kept_e@ == orig_e.subrange(0, k).filter(edge_clear_of(node_id@)),
        decreases rest_e@.len(),
    {
        let e = rest_e.remove(0);
        proof {
            lemma_filter_step(orig_e, k, edge_clear_of(node_id@));
        }
        if !str_equal(e.source.as_str(), node_id) && !str_equal(e.target.as_str(), node_id) {
            kept_e.push(e);
        }
        proof {
            k = k + 1;
            assert(rest_e@ =~= orig_e.subrange(k, orig_e.len() as int));
        }
    }
    assert(orig_e.subrange(0, k) =~= orig_e);
    let q = Project { manifest, nodes: kept, edges: kept_e, project_path };
    proof {
        if old_p.endpoints_exist() {
            assert forall|m: int| 0 <= m < q.edges@.len() implies q.has_node(#[trigger] q.edges@[m].source@)
                && q.has_node(q.edges@[m].target@) by {
                let e = q.edges@[m];
                assert(q.edges@.contains(e));
                orig_e.lemma_filter_contains_rev(edge_clear_of(node_id@), e);
                orig_e.lemma_filter_pred(edge_clear_of(node_id@), m);
                let k0 = choose|k0: int| 0 <= k0 < orig_e.len() && orig_e[k0] == e;
                assert(old_p.edges@[k0] == e);
                assert(old_p.has_node(e.source@));
                assert(old_p.has_node(e.target@));
                let a = choose|a: int| 0 <= a < orig.len() && (#[trigger] orig[a]).id@ == e.source@;
                let b = choose|b: int| 0 <= b < orig.len() && (#[trigger] orig[b]).id@ == e.target@;
                orig.lemma_filter_contains(node_kept(node_id@), a);
                orig.lemma_filter_contains(node_kept(node_id@), b);
                let a2 = choose|a2: int| 0 <= a2 < q.nodes@.len() && q.nodes@[a2] == orig[a];
                let b2 = choose|b2: int| 0 <= b2 < q.nodes@.len() && q.nodes@[b2] == orig[b];
                assert(q.nodes@[a2].id@ == e.source@);
                assert(q.nodes@[b2].id@ == e.target@);
            }
        }
        if old_p.wf() {
            lemma_filter_distinct(orig, node_kept(node_id@), |n: CodeNode| n.file_path@);
            lemma_filter_distinct(orig, node_kept(node_id@), |n: CodeNode| n.id@);
            assert forall|a: int, b: int|
                0 <= a < q.nodes@.len() && 0 <= b < q.nodes@.len() && a != b
                    implies #[trigger] q.nodes@[a].id@ != #[trigger] q.nodes@[b].id@ by {
                assert((|n: CodeNode| n.id@)(q.nodes@[a]) != (|n: CodeNode| n.id@)(q.nodes@[b]));
            }
            lemma_filter_distinct(orig_e, edge_clear_of(node_id@), |e: CodeEdge| (e.source@, e.target@));
            lemma_filter_distinct(orig_e, edge_clear_of(node_id@), |e: CodeEdge| e.id@);
            assert forall|a: int, b: int|
                0 <= a < q.edges@.len() && 0 <= b < q.edges@.len() && a != b
                    implies #[trigger] q.edges@[a].id@ != #[trigger] q.edges@[b].id@ by {
                assert((|e: CodeEdge| e.id@)(q.edges@[a]) != (|e: CodeEdge| e.id@)(q.edges@[b]));
            }
            assert forall|a: int, b: int|
                0 <= a < q.edges@.len() && 0 <= b < q.edges@.len() && a != b
                    implies !(#[trigger] q.edges@[a].source@ == #[trigger] q.edges@[b].source@
                    && q.edges@[a].target@ == q.edges@[b].target@) by {
                assert((|e: CodeEdge| (e.source@, e.target@))(q.edges@[a]) != (|e: CodeEdge| (e.source@, e.target@))(q.edges@[b]));
            }
            assert forall|m: int| 0 <= m < q.edges@.len() implies q.has_node(#[trigger] q.edges@[m].source@)
                && q.has_node(q.edges@[m].target@) && q.edges@[m].source@ != q.edges@[m].target@ by {
                let e = q.edges@[m];
                assert(q.edges@.contains(e));
                orig_e.lemma_filter_contains_rev(edge_clear_of(node_id@), e);
                orig_e.lemma_filter_pred(edge_clear_of(node_id@), m);
                let k0 = choose|k0: int| 0 <= k0 < orig_e.len() && orig_e[k0] == e;
                assert(old_p.edges@[k0] == e);
                assert(old_p.has_node(e.source@));
                assert(old_p.has_node(e.target@));
                let a = choose|a: int| 0 <= a < orig.len() && (#[trigger] orig[a]).id@ == e.source@;
                let b = choose|b: int| 0 <= b < orig.len() && (#[trigger] orig[b]).id@ == e.target@;
                orig.lemma_filter_contains(node_kept(node_id@), a);
                orig.lemma_filter_contains(node_kept(node_id@), b);
                let a2 = choose|a2: int| 0 <= a2 < q.nodes@.len() && q.nodes@[a2] == orig[a];
                let b2 = choose|b2: int| 0 <= b2 < q.nodes@.len() && q.nodes@[b2] == orig[b];
                assert(q.nodes@[a2].id@ == e.source@);
                assert(q.nodes@[b2].id@ == e.target@);
            }
            assert forall|a: Seq<char>, b: Seq<char>| #[trigger] q.link_rel()(a, b) implies old_p.link_rel()(a, b) by {
                let m = choose|m: int| 0 <= m < q.edges@.len() && (#[trigger] q.edges@[m]).source@ == a && q.edges@[m].target@ == b;
                let e = q.edges@[m];
                assert(q.edges@.contains(e));
                orig_e.lemma_filter_contains_rev(edge_clear_of(node_id@), e);
                let k0 = choose|k0: int| 0 <= k0 < orig_e.len() && orig_e[k0] == e;
                assert(old_p.edges@[k0] == e);
                assert(old_p.has_node(e.source@));
                assert(old_p.has_node(e.target@));
            }
            if has_cycle(q.link_rel()) {
                lemma_cycle_monotone(q.link_rel(), old_p.link_rel());
            }
        }
    }
    Ok(q)
}

/// Some edge has the id `id`.
pub open spec fn has_edge_id(p: Project, id: Seq<char>) -> bool {
    exists|k: int| 0 <= k < p.edges@.len() && (#[trigger] p.edges@[k]).id@ == id
}

/// Adds the edge `source -> target` with a fresh id. The checks run in this
/// order: a missing source, then a missing target (`MissingEndpoint`), a
/// self-loop (`SelfLoop`), an existing edge between the same two nodes
/// (`DuplicateEdge`), and a cycle the edge would close (`WouldCreateCycle`).
pub fn add_edge(project: Project, source: String, target: String, label: String) -> (r: Result<
    Project,
    GraphError,
>)
    ensures
        !project.has_node(source@) ==> (r matches Err(GraphError::MissingEndpoint(id)) && id
            == source),
        project.has_node(source@) && !project.has_node(target@) ==> (r matches Err(
            GraphError::MissingEndpoint(id),
        ) && id == target),
        project.has_node(source@) && project.has_node(target@) ==> {
            if source@ == target@ {
                r matches Err(GraphError::SelfLoop)
            } else if project.has_edge(source@, target@) {
                r matches Err(GraphError::DuplicateEdge)
            } else if has_cycle(rel_with_edge(project, source@, target@)) {
                r matches Err(GraphError::WouldCreateCycle)
            } else {
                r matches Ok(q) && {
                    &&& q.manifest == project.manifest
                    &&& q.project_path == project.project_path
                    &&& q.nodes == project.nodes
                    &&& q.edges@.len() == project.edges@.len() + 1
                    &&& q.edges@.subrange(0, project.edges@.len() as int) == project.edges@
                    &&& q.edges@.last().source == source
                    &&& q.edges@.last().target == target
                    &&& q.edges@.last().label == label
                    &&& q.edges@.last().id@.len() > 0
                    &&& !has_edge_id(project, q.edges@.last().id@)
                    &&& project.wf() ==> q.wf()
                }
            }
        },
{
    if project.find_node_index(source.as_str()).is_none() {
        return Err(GraphError::MissingEndpoint(source));
    }
    if project.find_node_index(target.as_str()).is_none() {
        return Err(GraphError::MissingEndpoint(target));
    }
    if source == target {
        return Err(GraphError::SelfLoop);
    }
    let mut k: usize = 0;
    while k < project.edges.len()
        invariant
            k <= project.edges@.len(),
            project.has_node(source@) && project.has_node(target@) && source@ != target@,
            forall|m: int|
                0 <= m < k ==> !((#[trigger] project.edges@[m]).source@ == source@
                    && project.edges@[m].target@ == target@),
        decreases project.edges@.len() - k,
    {
        if project.edges[k].source == source && project.edges[k].target == target {
            assert(project.has_edge(source@, target@)) by {
                assert(project.edges@[k as int].source@ == source@);
            }
            return Err(GraphError::DuplicateEdge);
        }
        k += 1;
    }
    if would_create_cycle(&project, source.as_str(), target.as_str()) {
        return Err(GraphError::WouldCreateCycle);
    }
    let ghost old_p = project;
    let ghost s = source@;
    let ghost t = target@;
    let mut edge = CodeEdge::new(source, target, label);
    let fresh = edge.id.clone();
    edge.id = distinct_edge_id(&project, fresh);
    let mut project = project;
    project.edges.push(edge);
    proof {
        assert(project.edges@.subrange(0, old_p.edges@.len() as int) =~= old_p.edges@);
        let last = old_p.edges@.len() as int;
        assert forall|a: Seq<char>, b: Seq<char>| #[trigger] project.has_edge(a, b) == (
        old_p.has_edge(a, b) || (a == s && b == t)) by {
            if project.has_edge(a, b) {
                let m = choose|m: int|
                    0 <= m < project.edges@.len() && (#[trigger] project.edges@[m]).source@ == a
                        && project.edges@[m].target@ == b;
                if m < last {
                    assert(old_p.edges@[m] == project.edges@[m]);
                }
            }
            if old_p.has_edge(a, b) {
                let m = choose|m: int|
                    0 <= m < old_p.edges@.len() && (#[trigger] old_p.edges@[m]).source@ == a
                        && old_p.edges@[m].target@ == b;
                assert(old_p.edges@[m] == project.edges@[m]);
            }
            if a == s && b == t {
                assert(project.edges@[last].source@ == a);
            }
        }
        assert(project.link_rel() =~= rel_with_edge(old_p, s, t));
        if old_p.wf() {
            assert forall|m: int| 0 <= m < project.edges@.len() implies project.has_node(
                #[trigger] project.edges@[m].source@,
            ) && project.has_node(project.edges@[m].target@) && project.edges@[m].source@
                != project.edges@[m].target@ by {
                if m < last {
                    assert(old_p.edges@[m] == project.edges@[m]);
                }
            }
            assert forall|a: int, b: int|
                0 <= a < project.edges@.len() && 0 <= b < project.edges@.len() && a != b
                    implies #[trigger] project.edges@[a].id@ != #[trigger] project.edges@[b].id@ by {
                if a < last && b < last {
                    assert(old_p.edges@[a] == project.edges@[a]);
                    assert(old_p.edges@[b] == project.edges@[b]);
                } else if a < last {
                    assert(old_p.edges@[a] == project.edges@[a]);
                } else {
                    assert(old_p.edges@[b] == project.edges@[b]);
                }
            }
            assert forall|a: int, b: int|
                0 <= a < project.edges@.len() && 0 <= b < project.edges@.len() && a != b
                    implies !(#[trigger] project.edges@[a].source@
                    == #[trigger] project.edges@[b].source@ && project.edges@[a].target@
                    == project.edges@[b].target@) by {
                if a < last && b < last {
                    assert(old_p.edges@[a] == project.edges@[a]);
                    assert(old_p.edges@[b] == project.edges@[b]);
                } else if a < last {
                    assert(old_p.edges@[a] == project.edges@[a]);
                } else {
                    assert(old_p.edges@[b] == project.edges@[b]);
                }
            }
        }
    }
    Ok(project)
}

/// Removes every edge whose id is `edge_id`. Fails with `NotFound` when no
/// edge has that id.
pub fn delete_edge(project: Project, edge_id: &str) -> (r: Result<Project, GraphError>)
    ensures
        !has_edge_id(project, edge_id@) <==> r is Err,
        r matches Err(e) ==> e matches GraphError::NotFound(id) && id@ == edge_id@,
        r matches Ok(q) ==> {
            &&& q.manifest == project.manifest
            &&& q.project_path == project.project_path
            &&& q.nodes == project.nodes
            &&& q.edges@ == project.edges@.filter(edge_kept_by_id(edge_id@))
            &&& project.wf() ==> q.wf()
        },
{
    let ghost old_p = project;
    let Project { manifest, nodes, edges, project_path } = project;
    let mut rest = edges;
    let mut kept: Vec<CodeEdge> = Vec::new();
    let ghost orig = rest@;
    let ghost mut k: int = 0;
    let mut found = false;
    while rest.len() > 0
        invariant
            0 <= k <= orig.len(),
            orig == old_p.edges@,
            rest@ == orig.subrange(k, orig.len() as int),
            kept@ == orig.subrange(0, k).filter(edge_kept_by_id(edge_id@)),
            found == exists|m: int| 0 <= m < k && (#[trigger] orig[m]).id@ == edge_id@,
        decreases rest@.len(),
    {
        let e = rest.remove(0);
        proof {
            lemma_filter_step(orig, k, edge_kept_by_id(edge_id@));
        }
        if !str_equal(e.id.as_str(), edge_id) {
            kept.push(e);
        } else {
            found = true;
        }
        proof {
            k = k + 1;
            assert(rest@ =~= orig.subrange(k, orig.len() as int));
        }
    }
    assert(orig.subrange(0, k) =~= orig);
    if !found {
        let mut id = String::new();
        id.append(edge_id);
        return Err(GraphError::NotFound(id));
    }
    let q = Project { manifest, nodes, edges: kept, project_path };
    proof {
        assert(q.nodes@ == old_p.nodes@);
        if old_p.wf() {
            lemma_filter_distinct(orig, edge_kept_by_id(edge_id@), |e: CodeEdge| (e.source@, e.target@));
            lemma_filter_distinct(orig, edge_kept_by_id(edge_id@), |e: CodeEdge| e.id@);
            assert forall|a: int, b: int|
                0 <= a < q.edges@.len() && 0 <= b < q.edges@.len() && a != b
                    implies #[trigger] q.edges@[a].id@ != #[trigger] q.edges@[b].id@ by {
                assert((|e: CodeEdge| e.id@)(q.edges@[a]) != (|e: CodeEdge| e.id@)(q.edges@[b]));
            }
            assert forall|a: int, b: int|
                0 <= a < q.edges@.len() && 0 <= b < q.edges@.len() && a != b
                    implies !(#[trigger] q.edges@[a].source@ == #[trigger] q.edges@[b].source@
                    && q.edges@[a].target@ == q.edges@[b].target@) by {
                assert((|e: CodeEdge| (e.source@, e.target@))(q.edges@[a]) != (|e: CodeEdge| (e.source@, e.target@))(q.edges@[b]));
            }
            assert forall|a: Seq<char>| #[trigger] q.has_node(a) == old_p.has_node(a) by {
                if q.has_node(a) {
                    let i = choose|i: int| 0 <= i < q.nodes@.len() && (#[trigger] q.nodes@[i]).id@ == a;
                    assert(old_p.nodes@[i] == q.nodes@[i]);
                }
                if old_p.has_node(a) {
                    let i = choose|i: int| 0 <= i < old_p.nodes@.len() && (#[trigger] old_p.nodes@[i]).id@ == a;
                    assert(old_p.nodes@[i] == q.nodes@[i]);
                }
            }
            assert forall|m: int| 0 <= m < q.edges@.len() implies q.has_node(#[trigger] q.edges@[m].source@)
                && q.has_node(q.edges@[m].target@) && q.edges@[m].source@ != q.edges@[m].target@ by {
                let e = q.edges@[m];
                assert(q.edges@.contains(e));
                orig.lemma_filter_contains_rev(edge_kept_by_id(edge_id@), e);
                let k0 = choose|k0: int| 0 <= k0 < orig.len() && orig[k0] == e;
                assert(old_p.edges@[k0] == e);
                assert(old_p.has_node(e.source@));
            }
            assert forall|a: Seq<char>, b: Seq<char>| #[trigger] q.link_rel()(a, b) implies old_p.link_rel()(a, b) by {
                let m = choose|m: int| 0 <= m < q.edges@.len() && (#[trigger] q.edges@[m]).source@ == a && q.edges@[m].target@ == b;
                let e = q.edges@[m];
                assert(q.edges@.contains(e));
                orig.lemma_filter_contains_rev(edge_kept_by_id(edge_id@), e);
                let k0 = choose|k0: int| 0 <= k0 < orig.len() && orig[k0] == e;
                assert(old_p.edges@[k0] == e);
            }
            if has_cycle(q.link_rel()) {
                lemma_cycle_monotone(q.link_rel(), old_p.link_rel());
            }
        }
    }
    Ok(q)
}

pub open spec fn edge_into(id: Seq<char>) -> spec_fn(CodeEdge) -> bool {
    |e: CodeEdge| e.target@ == id
}

pub open spec fn edge_out_of(id: Seq<char>) -> spec_fn(CodeEdge) -> bool {
    |e: CodeEdge| e.source@ == id
}

impl Project {
    /// The first node whose id is `id`, to be changed in place. Changing its
    /// file path or id through it is not checked against the invariants.
    pub fn find_node_mut(&mut self, id: &str) -> (r: Option<&mut CodeNode>)
        ensures
            match r {
                Some(n) => {
                    let i = crate::cycle::first_index(*old(self), id@);
                    &&& old(self).has_node(id@)
                    &&& *n == old(self).nodes@[i]
                    &&& final(self).nodes@ == old(self).nodes@.update(i, *final(n))
                    &&& final(self).edges == old(self).edges
                    &&& final(self).manifest == old(self).manifest
                    &&& final(self).project_path == old(self).project_path
                },
                None => !old(self).has_node(id@) && *final(self) == *old(self),
            },
    {
        match self.find_node_index(id) {
            Some(i) => {
                proof {
                    crate::cycle::lemma_first_unique(*self, i as int, crate::cycle::first_index(*self, id@), id@);
                }
                Some(&mut self.nodes[i])
            },
            None => None,
        }
    }

    /// The edges into `node_id` (its dependencies), in edge order.
    pub fn get_dependencies(&self, node_id: &str) -> (r: Vec<&CodeEdge>)
        ensures
            r@.map_values(|e: &CodeEdge| *e) == self.edges@.filter(edge_into(node_id@)),
    {
        let mut r: Vec<&CodeEdge> = Vec::new();
        let mut k: usize = 0;
        while k < self.edges.len()
            invariant
                k <= self.edges@.len(),
                r@.map_values(|e: &CodeEdge| *e) == self.edges@.subrange(0, k as int).filter(edge_into(node_id@)),
            decreases self.edges@.len() - k,
        {
            proof {
                lemma_filter_step(self.edges@, k as int, edge_into(node_id@));
            }
            let ghost r0 = r@;
            if str_equal(self.edges[k].target.as_str(), node_id) {
                r.push(&self.edges[k]);
                assert(r@.map_values(|e: &CodeEdge| *e) =~= r0.map_values(|e: &CodeEdge| *e).push(self.edges@[k as int]));
            }
            k += 1;
        }
        assert(self.edges@.subrange(0, k as int) =~= self.edges@);
        r
    }

    /// The edges out of `node_id` (its dependents), in edge order.
    pub fn get_dependents(&self, node_id: &str) -> (r: Vec<&CodeEdge>)
        ensures
            r@.map_values(|e: &CodeEdge| *e) == self.edges@.filter(edge_out_of(node_id@)),
    {
        let mut r: Vec<&CodeEdge> = Vec::new();
        let mut k: usize = 0;
        while k < self.edges.len()
            invariant
                k <= self.edges@.len(),
                r@.map_values(|e: &CodeEdge| *e) == self.edges@.subrange(0, k as int).filter(edge_out_of(node_id@)),
            decreases self.edges@.len() - k,
        {
            proof {
                lemma_filter_step(self.edges@, k as int, edge_out_of(node_id@));
            }
            let ghost r0 = r@;
            if str_equal(self.edges[k].source.as_str(), node_id) {
                r.push(&self.edges[k]);
                assert(r@.map_values(|e: &CodeEdge| *e) =~= r0.map_values(|e: &CodeEdge| *e).push(self.edges@[k as int]));
            }
            k += 1;
        }
        assert(self.edges@.subrange(0, k as int) =~= self.edges@);
        r
    }
}

} // verus!
