//! Structural validation of a project: errors that block generation and
//! warnings that only inform. The result is a function of the project alone.

use vstd::prelude::*;
use crate::cycle::graph_is_cyclic;
use crate::model::{has_cycle, str_equal, Project};
use crate::planner::indices_where;

verus! {

/// Errors that block generation.
#[derive(Debug, Clone)]
pub enum ValidationError {
    /// The dependency graph has a cycle.
    CyclicDependency(Vec<String>),
    /// A node without connections (reported as a warning instead).
    OrphanNode(String),
    /// An edge names a node that does not exist.
    MissingNode(String),
    /// Several nodes share a file path: the path and their ids.
    DuplicateFilePath(String, Vec<String>),
}

/// Informational findings.
#[derive(Debug, Clone)]
pub enum ValidationWarning {
    EmptyDescription(String),
    NoExports(String),
    UnreachableNode(String),
}

/// Mathematical form of a validation error.
pub enum ErrorView {
    CyclicDependency(Seq<Seq<char>>),
    OrphanNode(Seq<char>),
    MissingNode(Seq<char>),
    DuplicateFilePath(Seq<char>, Seq<Seq<char>>),
}

/// Mathematical form of a validation warning.
pub enum WarningView {
    EmptyDescription(Seq<char>),
    NoExports(Seq<char>),
    UnreachableNode(Seq<char>),
}

pub open spec fn strings_view(v: Seq<String>) -> Seq<Seq<char>> {
    v.map_values(|s: String| s@)
}

impl View for ValidationError {
    type V = ErrorView;

    open spec fn view(&self) -> ErrorView {
        match self {
            ValidationError::CyclicDependency(v) => ErrorView::CyclicDependency(strings_view(v@)),
            ValidationError::OrphanNode(s) => ErrorView::OrphanNode(s@),
            ValidationError::MissingNode(s) => ErrorView::MissingNode(s@),
            ValidationError::DuplicateFilePath(s, v) => ErrorView::DuplicateFilePath(
                s@,
                strings_view(v@),
            ),
        }
    }
}

impl View for ValidationWarning {
    type V = WarningView;

    open spec fn view(&self) -> WarningView {
        match self {
            ValidationWarning::EmptyDescription(s) => WarningView::EmptyDescription(s@),
            ValidationWarning::NoExports(s) => WarningView::NoExports(s@),
            ValidationWarning::UnreachableNode(s) => WarningView::UnreachableNode(s@),
        }
    }
}

/// Errors and warnings found in a project.
#[derive(Debug, Clone)]
pub struct ValidationResult {
    pub errors: Vec<ValidationError>,
    pub warnings: Vec<ValidationWarning>,
}

impl Default for ValidationResult {
    fn default() -> (r: ValidationResult)
        ensures
            r.errors@.len() == 0 && r.warnings@.len() == 0,
    {
        ValidationResult { errors: Vec::new(), warnings: Vec::new() }
    }
}

impl ValidationResult {
    pub open spec fn errors_view(&self) -> Seq<ErrorView> {
        self.errors@.map_values(|e: ValidationError| e@)
    }

    pub open spec fn warnings_view(&self) -> Seq<WarningView> {
        self.warnings@.map_values(|w: ValidationWarning| w@)
    }

    /// No errors were found.
    pub fn is_valid(&self) -> (r: bool)
        ensures
            r == (self.errors@.len() == 0),
    {
        self.errors.len() == 0
    }

    /// Some warning was found.
    pub fn has_warnings(&self) -> (r: bool)
        ensures
            r == (self.warnings@.len() > 0),
    {
        self.warnings.len() > 0
    }
}

/// Missing-node errors of the first `k` edges: the source when it is not a
/// node, else the target when it is not.
pub open spec fn missing_errors(p: Project, k: int) -> Seq<ErrorView>
    decreases k,
{
    if k <= 0 {
        Seq::empty()
    } else {
        let prev = missing_errors(p, k - 1);
        let e = p.edges@[k - 1];
        if !p.has_node(e.source@) {
            prev.push(ErrorView::MissingNode(e.source@))
        } else if !p.has_node(e.target@) {
            prev.push(ErrorView::MissingNode(e.target@))
        } else {
            prev
        }
    }
}

pub open spec fn cycle_message() -> Seq<Seq<char>> {
    seq!["Cycle detected in graph"@]
}

/// Node `j` has file path `path`.
pub open spec fn has_path(p: Project, path: Seq<char>) -> spec_fn(int) -> bool {
    |j: int| p.nodes@[j].file_path@ == path
}

/// The nodes with file path `path`, in node order.
pub open spec fn nodes_with_path(p: Project, path: Seq<char>) -> Seq<int> {
    indices_where(has_path(p, path), p.nodes@.len() as int)
}

/// Node `i` is the first of several nodes sharing its file path.
pub open spec fn first_of_shared_path(p: Project, i: int) -> bool {
    let path = p.nodes@[i].file_path@;
    &&& forall|j: int| 0 <= j < i ==> #[trigger] p.nodes@[j].file_path@ != path
    &&& exists|j: int| i < j < p.nodes@.len() && #[trigger] p.nodes@[j].file_path@ == path
}

/// Duplicate-path errors for the first `k` nodes, one per shared path, at the
/// first node that has it.
pub open spec fn duplicate_errors(p: Project, k: int) -> Seq<ErrorView>
    decreases k,
{
    if k <= 0 {
        Seq::empty()
    } else {
        let prev = duplicate_errors(p, k - 1);
        let path = p.nodes@[k - 1].file_path@;
        if first_of_shared_path(p, k - 1) {
            prev.push(
                ErrorView::DuplicateFilePath(
                    path,
                    nodes_with_path(p, path).map_values(|j: int| p.nodes@[j].id@),
                ),
            )
        } else {
            prev
        }
    }
}

/// All errors: missing nodes, then a cycle, then shared file paths.
pub open spec fn expected_errors(p: Project) -> Seq<ErrorView> {
    missing_errors(p, p.edges@.len() as int) + (if has_cycle(p.link_rel()) {
        seq![ErrorView::CyclicDependency(cycle_message())]
    } else {
        Seq::empty()
    }) + duplicate_errors(p, p.nodes@.len() as int)
}

/// Some edge starts or ends at `id`.
pub open spec fn touched(p: Project, id: Seq<char>) -> bool {
    exists|k: int|
        0 <= k < p.edges@.len() && ((#[trigger] p.edges@[k]).source@ == id || p.edges@[k].target@
            == id)
}

/// Unreachable-node warnings for the first `k` nodes.
pub open spec fn unreachable_warnings(p: Project, k: int) -> Seq<WarningView>
    decreases k,
{
    if k <= 0 {
        Seq::empty()
    } else {
        let prev = unreachable_warnings(p, k - 1);
        let id = p.nodes@[k - 1].id@;
        if !touched(p, id) && p.nodes@.len() > 1 {
            prev.push(WarningView::UnreachableNode(id))
        } else {
            prev
        }
    }
}

/// Empty-description and no-exports warnings for the first `k` nodes.
pub open spec fn content_warnings(p: Project, k: int) -> Seq<WarningView>
    decreases k,
{
    if k <= 0 {
        Seq::empty()
    } else {
        let prev = content_warnings(p, k - 1);
        let n = p.nodes@[k - 1];
        let a = if n.description@.len() == 0 {
            prev.push(WarningView::EmptyDescription(n.id@))
        } else {
            prev
        };
        if n.exports@.len() == 0 {
            a.push(WarningView::NoExports(n.id@))
        } else {
            a
        }
    }
}

/// All warnings: unreachable nodes, then missing descriptions and exports.
pub open spec fn expected_warnings(p: Project) -> Seq<WarningView> {
    unreachable_warnings(p, p.nodes@.len() as int) + content_warnings(p, p.nodes@.len() as int)
}

/// The ids of the nodes with the file path of node `i`, in node order.
fn ids_with_path(p: &Project, i: usize) -> (r: Vec<String>)
    requires
        i < p.nodes@.len(),
    ensures
        strings_view(r@) == nodes_with_path(*p, p.nodes@[i as int].file_path@).map_values(
            |j: int| p.nodes@[j].id@,
        ),
{
    let ghost path = p.nodes@[i as int].file_path@;
    let ghost f = has_path(*p, path);
    let mut r: Vec<String> = Vec::new();
    let mut j: usize = 0;
    while j < p.nodes.len()
        invariant
            i < p.nodes@.len(),
            path == p.nodes@[i as int].file_path@,
            f == has_path(*p, path),
            j <= p.nodes@.len(),
            strings_view(r@) == indices_where(f, j as int).map_values(|m: int| p.nodes@[m].id@),
        decreases p.nodes@.len() - j,
    {
        let ghost r0 = r@;
        if p.nodes[j].file_path == p.nodes[i].file_path {
            r.push(p.nodes[j].id.clone());
            assert(strings_view(r@) =~= strings_view(r0).push(p.nodes@[j as int].id@));
        }
        j += 1;
        assert(strings_view(r@) =~= indices_where(f, j as int).map_values(|m: int| p.nodes@[m].id@));
    }
    r
}

/// Whether node `i` is the first of several nodes sharing its file path.
fn is_first_of_shared_path(p: &Project, i: usize) -> (r: bool)
    requires
        i < p.nodes@.len(),
    ensures
        r == first_of_shared_path(*p, i as int),
{
    let mut j: usize = 0;
    while j < i
        invariant
            i < p.nodes@.len(),
            j <= i,
            forall|m: int| 0 <= m < j ==> #[trigger] p.nodes@[m].file_path@ != p.nodes@[i as int].file_path@,
        decreases i - j,
    {
        if p.nodes[j].file_path == p.nodes[i].file_path {
            assert(p.nodes@[j as int].file_path@ == p.nodes@[i as int].file_path@);
            return false;
        }
        j += 1;
    }
    let n = p.nodes.len();
    let mut j: usize = i + 1;
    while j < n
        invariant
            n == p.nodes@.len(),
            i < p.nodes@.len(),
            forall|m: int| 0 <= m < i ==> #[trigger] p.nodes@[m].file_path@ != p.nodes@[i as int].file_path@,
            i + 1 <= j <= p.nodes@.len(),
            forall|m: int| i < m < j ==> #[trigger] p.nodes@[m].file_path@ != p.nodes@[i as int].file_path@,
        decreases p.nodes@.len() - j,
    {
        if p.nodes[j].file_path == p.nodes[i].file_path {
            assert(p.nodes@[j as int].file_path@ == p.nodes@[i as int].file_path@);
            return true;
        }
        j += 1;
    }
    false
}

/// Whether some edge starts or ends at `id`.
fn is_touched(p: &Project, id: &str) -> (r: bool)
    ensures
        r == touched(*p, id@),
{
    let mut k: usize = 0;
    while k < p.edges.len()
        invariant
            k <= p.edges@.len(),
            forall|m: int|
                0 <= m < k ==> !((#[trigger] p.edges@[m]).source@ == id@ || p.edges@[m].target@
                    == id@),
        decreases p.edges@.len() - k,
    {
        if str_equal(p.edges[k].source.as_str(), id) || str_equal(p.edges[k].target.as_str(), id) {
            assert(p.edges@[k as int].source@ == id@ || p.edges@[k as int].target@ == id@);
            return true;
        }
        k += 1;
    }
    false
}

/// Validates the project graph: missing edge ends, cycles and shared file
/// paths are errors; unconnected nodes (when there is more than one node),
/// empty descriptions and missing exports are warnings.
pub fn validate_project(project: &Project) -> (r: ValidationResult)
    ensures
        r.errors_view() == expected_errors(*project),
        r.warnings_view() == expected_warnings(*project),
{
    let p = project;
    let mut errors: Vec<ValidationError> = Vec::new();
    let mut k: usize = 0;
    while k < p.edges.len()
        invariant
            k <= p.edges@.len(),
            errors@.map_values(|e: ValidationError| e@) == missing_errors(*p, k as int),
        decreases p.edges@.len() - k,
    {
        let ghost e0 = errors@;
        let e = &p.edges[k];
        if p.find_node_index(e.source.as_str()).is_none() {
            errors.push(ValidationError::MissingNode(e.source.clone()));
        } else if p.find_node_index(e.target.as_str()).is_none() {
            errors.push(ValidationError::MissingNode(e.target.clone()));
        }
        k += 1;
        assert(errors@.map_values(|e: ValidationError| e@) =~= missing_errors(*p, k as int));
    }
    let ghost after_missing = errors@;
    if graph_is_cyclic(p) {
        let mut message: Vec<String> = Vec::new();
        message.push(String::from_str("Cycle detected in graph"));
        assert(strings_view(message@) =~= cycle_message());
        errors.push(ValidationError::CyclicDependency(message));
    }
    let ghost before_dups = errors@.map_values(|e: ValidationError| e@);
    assert(before_dups =~= missing_errors(*p, p.edges@.len() as int) + (if has_cycle(p.link_rel()) {
        seq![ErrorView::CyclicDependency(cycle_message())]
    } else {
        Seq::empty()
    }));
    let mut i: usize = 0;
    while i < p.nodes.len()
        invariant
            i <= p.nodes@.len(),
            errors@.map_values(|e: ValidationError| e@) == before_dups + duplicate_errors(*p, i as int),
        decreases p.nodes@.len() - i,
    {
        let ghost e0 = errors@;
        if is_first_of_shared_path(p, i) {
            let ids = ids_with_path(p, i);
            let err = ValidationError::DuplicateFilePath(p.nodes[i].file_path.clone(), ids);
            assert(err@ == ErrorView::DuplicateFilePath(
                p.nodes@[i as int].file_path@,
                nodes_with_path(*p, p.nodes@[i as int].file_path@).map_values(|j: int| p.nodes@[j].id@),
            ));
            errors.push(err);
            assert(errors@.map_values(|e: ValidationError| e@) =~= e0.map_values(|e: ValidationError| e@).push(err@));
        }
        assert(duplicate_errors(*p, i + 1) == (if first_of_shared_path(*p, i as int) {
            duplicate_errors(*p, i as int).push(ErrorView::DuplicateFilePath(
                p.nodes@[i as int].file_path@,
                nodes_with_path(*p, p.nodes@[i as int].file_path@).map_values(|j: int| p.nodes@[j].id@),
            ))
        } else {
            duplicate_errors(*p, i as int)
        }));
        i += 1;
        assert(errors@.map_values(|e: ValidationError| e@) =~= before_dups + duplicate_errors(*p, i as int));
    }
    let mut warnings: Vec<ValidationWarning> = Vec::new();
    let mut i: usize = 0;
    while i < p.nodes.len()
        invariant
            i <= p.nodes@.len(),
            warnings@.map_values(|w: ValidationWarning| w@) == unreachable_warnings(*p, i as int),
        decreases p.nodes@.len() - i,
    {
        if !is_touched(p, p.nodes[i].id.as_str()) && p.nodes.len() > 1 {
            warnings.push(ValidationWarning::UnreachableNode(p.nodes[i].id.clone()));
        }
        i += 1;
        assert(warnings@.map_values(|w: ValidationWarning| w@) =~= unreachable_warnings(*p, i as int));
    }
    let ghost unreachable = warnings@.map_values(|w: ValidationWarning| w@);
    let mut i: usize = 0;
    while i < p.nodes.len()
        invariant
            i <= p.nodes@.len(),
            warnings@.map_values(|w: ValidationWarning| w@) == unreachable + content_warnings(*p, i as int),
        decreases p.nodes@.len() - i,
    {
        let n = &p.nodes[i];
        let ghost w0 = warnings@.map_values(|w: ValidationWarning| w@);
        if n.description.as_str().is_empty() {
            warnings.push(ValidationWarning::EmptyDescription(n.id.clone()));
        }
        let ghost w1 = warnings@.map_values(|w: ValidationWarning| w@);
        assert(w1 =~= (if n.description@.len() == 0 { w0.push(WarningView::EmptyDescription(n.id@)) } else { w0 }));
        if n.exports.len() == 0 {
            warnings.push(ValidationWarning::NoExports(n.id.clone()));
        }
        assert(warnings@.map_values(|w: ValidationWarning| w@) =~= (if n.exports@.len() == 0 { w1.push(WarningView::NoExports(n.id@)) } else { w1 }));
        i += 1;
        assert(warnings@.map_values(|w: ValidationWarning| w@) =~= unreachable + content_warnings(*p, i as int));
    }
    ValidationResult { errors, warnings }
}

} // verus!
