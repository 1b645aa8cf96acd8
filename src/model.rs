//! The project graph: nodes (files to generate), edges (dependencies) and the
//! project that owns them, with the structural invariants the engine keeps.

use vstd::prelude::*;

verus! {

/// Relies on `<str as PartialEq>::eq`: two string slices are equal exactly
/// when they hold the same characters.
#[verifier::external_body]
pub(crate) fn str_equal(a: &str, b: &str) -> (r: bool)
    ensures
        r == (a@ == b@),
{
    a == b
}

/// Relies on `uuid::Uuid::new_v4` and its hyphenated text form: a fresh
/// random identifier, always 36 characters long.
#[verifier::external_body]
pub(crate) fn fresh_identifier() -> (r: String)
    ensures
        r@.len() == 36,
{
    uuid::Uuid::new_v4().to_string()
}

/// Model a node or project uses until one is chosen.
pub const DEFAULT_MODEL: &'static str = "default-model";

/// Status of a node in the generation pipeline.
#[derive(Debug, Clone, Copy, PartialEq, Eq, Structural)]
pub enum NodeStatus {
    Pending,
    Generating,
    Complete,
    Error,
    Warning,
}

impl Default for NodeStatus {
    fn default() -> (r: NodeStatus)
        ensures
            r == NodeStatus::Pending,
    {
        NodeStatus::Pending
    }
}

/// The language-model backend a node is generated with.
#[derive(Debug, Clone, Copy, PartialEq, Eq, Structural)]
pub enum LLMProvider {
    Anthropic,
    OpenAI,
    Ollama,
}

impl Default for LLMProvider {
    fn default() -> (r: LLMProvider)
        ensures
            r == LLMProvider::Anthropic,
    {
        LLMProvider::Anthropic
    }
}

/// Target language of a generated file.
#[derive(Debug, Clone, Copy, PartialEq, Eq, Structural)]
pub enum Language {
    TypeScript,
    JavaScript,
    Python,
    Rust,
    Go,
}

impl Default for Language {
    fn default() -> (r: Language)
        ensures
            r == Language::TypeScript,
    {
        Language::TypeScript
    }
}

/// Lower-case tag of a language, as it is written in persisted projects.
pub open spec fn language_tag(l: Language) -> Seq<char> {
    match l {
        Language::TypeScript => "typescript"@,
        Language::JavaScript => "javascript"@,
        Language::Python => "python"@,
        Language::Rust => "rust"@,
        Language::Go => "go"@,
    }
}

/// Canonical display name of a language.
pub open spec fn language_name(l: Language) -> Seq<char> {
    match l {
        Language::TypeScript => "TypeScript"@,
        Language::JavaScript => "JavaScript"@,
        Language::Python => "Python"@,
        Language::Rust => "Rust"@,
        Language::Go => "Go"@,
    }
}

impl Language {
    /// The lower-case tag of the language ("typescript", "go", ...).
    pub fn to_string(&self) -> (r: String)
        ensures
            r@ == language_tag(*self),
    {
        match self {
            Language::TypeScript => String::from_str("typescript"),
            Language::JavaScript => String::from_str("javascript"),
            Language::Python => String::from_str("python"),
            Language::Rust => String::from_str("rust"),
            Language::Go => String::from_str("go"),
        }
    }

    /// The canonical display name of the language ("TypeScript", "Go", ...).
    pub fn display_name(&self) -> (r: &'static str)
        ensures
            r@ == language_name(*self),
    {
        match self {
            Language::TypeScript => "TypeScript",
            Language::JavaScript => "JavaScript",
            Language::Python => "Python",
            Language::Rust => "Rust",
            Language::Go => "Go",
        }
    }
}

/// Position of a node on the graph canvas. The engine only carries it
/// through; each coordinate is kept as the bit pattern of a 64-bit float.
#[derive(Debug, Clone, Copy, PartialEq, Eq, Structural)]
pub struct Position {
    pub x_bits: u64,
    pub y_bits: u64,
}

impl Default for Position {
    fn default() -> (r: Position)
        ensures
            r.x_bits == 0 && r.y_bits == 0,
    {
        Position { x_bits: 0, y_bits: 0 }
    }
}

/// Signature of an exported function, class or variable.
#[derive(Debug, Clone)]
pub struct ExportSignature {
    pub name: String,
    pub type_signature: String,
    pub description: String,
}

/// Language-model configuration of a node.
#[derive(Debug, Clone)]
pub struct LLMConfig {
    pub provider: LLMProvider,
    pub model: String,
    pub system_prompt: Option<String>,
    pub constraints: Vec<String>,
}

impl Default for LLMConfig {
    fn default() -> (r: LLMConfig)
        ensures
            r.provider == LLMProvider::Anthropic,
            r.model@ == DEFAULT_MODEL@,
            r.system_prompt.is_none(),
            r.constraints@.len() == 0,
    {
        LLMConfig {
            provider: LLMProvider::Anthropic,
            model: String::from_str(DEFAULT_MODEL),
            system_prompt: None,
            constraints: Vec::new(),
        }
    }
}

/// A node of the graph: one source file to generate.
#[derive(Debug, Clone)]
pub struct CodeNode {
    pub id: String,
    pub name: String,
    pub file_path: String,
    pub language: Language,
    pub status: NodeStatus,
    pub description: String,
    pub purpose: String,
    pub exports: Vec<ExportSignature>,
    pub llm_config: LLMConfig,
    pub generated_code: Option<String>,
    pub error_message: Option<String>,
    pub position: Position,
}

impl CodeNode {
    /// A fresh pending node with a newly generated id and default settings.
    pub fn new(name: String, file_path: String, language: Language) -> (r: CodeNode)
        ensures
            r.name == name,
            r.file_path == file_path,
            r.language == language,
            r.status == NodeStatus::Pending,
            r.description@.len() == 0,
            r.purpose@.len() == 0,
            r.exports@.len() == 0,
            r.llm_config.provider == LLMProvider::Anthropic,
            r.llm_config.model@ == DEFAULT_MODEL@,
            r.llm_config.system_prompt.is_none(),
            r.llm_config.constraints@.len() == 0,
            r.generated_code.is_none(),
            r.error_message.is_none(),
            r.position.x_bits == 0 && r.position.y_bits == 0,
    {
        CodeNode {
            id: fresh_identifier(),
            name,
            file_path,
            language,
            status: NodeStatus::Pending,
            description: String::new(),
            purpose: String::new(),
            exports: Vec::new(),
            llm_config: LLMConfig::default(),
            generated_code: None,
            error_message: None,
            position: Position::default(),
        }
    }
}

/// A dependency: `target` depends on `source`, whose code is visible when
/// `target` is generated.
#[derive(Debug, Clone)]
pub struct CodeEdge {
    pub id: String,
    pub source: String,
    pub target: String,
    pub label: String,
}

impl CodeEdge {
    /// An edge with a newly generated id.
    pub fn new(source: String, target: String, label: String) -> (r: CodeEdge)
        ensures
            r.source == source,
            r.target == target,
            r.label == label,
    {
        CodeEdge { id: fresh_identifier(), source, target, label }
    }
}

/// Default language-model settings of a project.
#[derive(Debug, Clone)]
pub struct DefaultLLM {
    pub provider: LLMProvider,
    pub model: String,
    pub api_key_env: String,
}

impl Default for DefaultLLM {
    fn default() -> (r: DefaultLLM)
        ensures
            r.provider == LLMProvider::Anthropic,
            r.model@ == DEFAULT_MODEL@,
            r.api_key_env@ == "ANTHROPIC_API_KEY"@,
    {
        DefaultLLM {
            provider: LLMProvider::Anthropic,
            model: String::from_str(DEFAULT_MODEL),
            api_key_env: String::from_str("ANTHROPIC_API_KEY"),
        }
    }
}

/// Project metadata.
#[derive(Debug, Clone)]
pub struct ProjectManifest {
    pub name: String,
    pub version: String,
    pub entry_point: Option<String>,
    pub default_llm: DefaultLLM,
}

impl Default for ProjectManifest {
    fn default() -> (r: ProjectManifest)
        ensures
            r.name@ == "New Project"@,
            r.version@ == "0.1.0"@,
            r.entry_point.is_none(),
            r.default_llm.provider == LLMProvider::Anthropic,
    {
        ProjectManifest {
            name: String::from_str("New Project"),
            version: String::from_str("0.1.0"),
            entry_point: None,
            default_llm: DefaultLLM::default(),
        }
    }
}

/// The whole project: metadata, nodes and edges in insertion order, and the
/// directory it is persisted in.
#[derive(Debug, Clone)]
pub struct Project {
    pub manifest: ProjectManifest,
    pub nodes: Vec<CodeNode>,
    pub edges: Vec<CodeEdge>,
    pub project_path: String,
}

/// A closed walk of length at least one in the relation `rel`.
pub open spec fn is_cycle<A>(rel: spec_fn(A, A) -> bool, w: Seq<A>) -> bool {
    &&& w.len() >= 2
    &&& w[0] == w[w.len() - 1]
    &&& forall|i: int| 0 <= i < w.len() - 1 ==> #[trigger] rel(w[i], w[i + 1])
}

/// The relation `rel`, read as a directed graph, has a cycle.
pub open spec fn has_cycle<A>(rel: spec_fn(A, A) -> bool) -> bool {
    exists|w: Seq<A>| is_cycle(rel, w)
}

/// A cycle of a smaller relation is a cycle of a larger one.
pub proof fn lemma_cycle_monotone<A>(r1: spec_fn(A, A) -> bool, r2: spec_fn(A, A) -> bool)
    requires
        forall|a: A, b: A| #[trigger] r1(a, b) ==> r2(a, b),
        has_cycle(r1),
    ensures
        has_cycle(r2),
{
    let w = choose|w: Seq<A>| is_cycle(r1, w);
    assert forall|i: int| 0 <= i < w.len() - 1 implies #[trigger] r2(w[i], w[i + 1]) by {
        assert(r1(w[i], w[i + 1]));
    }
    assert(is_cycle(r2, w));
}

impl Project {
    /// Some node has the id `id`.
    pub open spec fn has_node(&self, id: Seq<char>) -> bool {
        exists|i: int| 0 <= i < self.nodes@.len() && (#[trigger] self.nodes@[i]).id@ == id
    }

    /// `i` is the first node whose id is `id`.
    pub open spec fn is_first_with_id(&self, i: int, id: Seq<char>) -> bool {
        &&& 0 <= i < self.nodes@.len()
        &&& self.nodes@[i].id@ == id
        &&& forall|j: int| 0 <= j < i ==> #[trigger] self.nodes@[j].id@ != id
    }

    /// Some edge runs from `a` to `b`.
    pub open spec fn has_edge(&self, a: Seq<char>, b: Seq<char>) -> bool {
        exists|k: int|
            0 <= k < self.edges@.len() && (#[trigger] self.edges@[k]).source@ == a
                && self.edges@[k].target@ == b
    }

    /// The dependency graph over node ids: edges whose two ends are nodes.
    pub open spec fn links(&self, a: Seq<char>, b: Seq<char>) -> bool {
        self.has_edge(a, b) && self.has_node(a) && self.has_node(b)
    }

    pub open spec fn link_rel(&self) -> spec_fn(Seq<char>, Seq<char>) -> bool {
        |a: Seq<char>, b: Seq<char>| self.links(a, b)
    }

    /// No two nodes share a file path.
    pub open spec fn file_paths_unique(&self) -> bool {
        forall|i: int, j: int|
            0 <= i < self.nodes@.len() && 0 <= j < self.nodes@.len() && i != j
                ==> #[trigger] self.nodes@[i].file_path@ != #[trigger] self.nodes@[j].file_path@
    }

    /// Every edge's endpoints are nodes.
    pub open spec fn endpoints_exist(&self) -> bool {
        forall|k: int|
            0 <= k < self.edges@.len() ==> self.has_node(#[trigger] self.edges@[k].source@)
                && self.has_node(self.edges@[k].target@)
    }

    /// No edge runs from a node to itself.
    pub open spec fn no_self_loops(&self) -> bool {
        forall|k: int|
            0 <= k < self.edges@.len() ==> #[trigger] self.edges@[k].source@
                != self.edges@[k].target@
    }

    /// No two edges join the same ordered pair of nodes.
    pub open spec fn no_duplicate_edges(&self) -> bool {
        forall|k: int, l: int|
            0 <= k < self.edges@.len() && 0 <= l < self.edges@.len() && k != l
                ==> !(#[trigger] self.edges@[k].source@ == #[trigger] self.edges@[l].source@
                && self.edges@[k].target@ == self.edges@[l].target@)
    }

    /// The dependency graph has no directed cycle.
    pub open spec fn acyclic(&self) -> bool {
        !has_cycle(self.link_rel())
    }

    /// No two nodes share an id.
    pub open spec fn node_ids_unique(&self) -> bool {
        forall|i: int, j: int|
            0 <= i < self.nodes@.len() && 0 <= j < self.nodes@.len() && i != j
                ==> #[trigger] self.nodes@[i].id@ != #[trigger] self.nodes@[j].id@
    }

    /// No two edges share an id.
    pub open spec fn edge_ids_unique(&self) -> bool {
        forall|i: int, j: int|
            0 <= i < self.edges@.len() && 0 <= j < self.edges@.len() && i != j
                ==> #[trigger] self.edges@[i].id@ != #[trigger] self.edges@[j].id@
    }

    /// The structural invariants every mutation keeps.
    pub open spec fn wf(&self) -> bool {
        &&& self.node_ids_unique()
        &&& self.edge_ids_unique()
        &&& self.file_paths_unique()
        &&& self.endpoints_exist()
        &&& self.no_self_loops()
        &&& self.no_duplicate_edges()
        &&& self.acyclic()
    }

    /// An empty project in the given directory.
    pub fn new(project_path: String) -> (r: Project)
        ensures
            r.project_path == project_path,
            r.nodes@.len() == 0,
            r.edges@.len() == 0,
            r.manifest.name@ == "New Project"@,
            r.manifest.version@ == "0.1.0"@,
            r.wf(),
    {
        let r = Project {
            manifest: ProjectManifest::default(),
            nodes: Vec::new(),
            edges: Vec::new(),
            project_path,
        };
        assert(!has_cycle(r.link_rel())) by {
            if has_cycle(r.link_rel()) {
                let w = choose|w: Seq<Seq<char>>| is_cycle(r.link_rel(), w);
                let z: int = 0;
                assert(r.link_rel()(w[z], w[z + 1]));
                assert(r.links(w[z], w[z + 1]));
            }
        }
        r
    }

    /// Index of the first node whose id is `id`.
    pub fn find_node_index(&self, id: &str) -> (r: Option<usize>)
        ensures
            match r {
                Some(i) => self.is_first_with_id(i as int, id@),
                None => !self.has_node(id@),
            },
    {
        let mut i: usize = 0;
        while i < self.nodes.len()
            invariant
                i <= self.nodes@.len(),
                forall|j: int| 0 <= j < i ==> #[trigger] self.nodes@[j].id@ != id@,
            decreases self.nodes@.len() - i,
        {
            if str_equal(self.nodes[i].id.as_str(), id) {
                return Some(i);
            }
            i += 1;
        }
        None
    }

    /// The first node whose id is `id`.
    pub fn find_node(&self, id: &str) -> (r: Option<&CodeNode>)
        ensures
            match r {
                Some(n) => exists|i: int| self.is_first_with_id(i, id@) && *n == self.nodes@[i],
                None => !self.has_node(id@),
            },
    {
        match self.find_node_index(id) {
            Some(i) => Some(&self.nodes[i]),
            None => None,
        }
    }
}

} // verus!
