//! Cycle detection on the dependency graph, delegated to petgraph over node
//! indices and related back to the graph over node ids.

use vstd::prelude::*;
use crate::model::{has_cycle, is_cycle, Project};

verus! {

/// The directed graph on `usize` vertices whose edges are `pairs`.
pub open spec fn pair_rel(pairs: Seq<(usize, usize)>) -> spec_fn(usize, usize) -> bool {
    |a: usize, b: usize| pairs.contains((a, b))
}

/// Relies on petgraph's `algo::is_cyclic_directed`, which reports whether a
/// directed graph has a cycle (a self-loop counts). The graph is built with
/// `node_count` vertices and one edge per pair.
#[verifier::external_body]
fn digraph_is_cyclic(node_count: usize, pairs: &Vec<(usize, usize)>) -> (r: bool)
    requires
        forall|k: int|
            0 <= k < pairs@.len() ==> (#[trigger] pairs@[k]).0 < node_count && pairs@[k].1
                < node_count,
    ensures
        r == has_cycle(pair_rel(pairs@)),
{
    let mut g = petgraph::graph::DiGraph::<(), (), usize>::with_capacity(node_count, pairs.len());
    for _ in 0..node_count {
        g.add_node(());
    }
    for &(s, t) in pairs.iter() {
        g.add_edge(petgraph::graph::NodeIndex::new(s), petgraph::graph::NodeIndex::new(t), ());
    }
    petgraph::algo::is_cyclic_directed(&g)
}

/// `pairs` lists, by node index, exactly the pairs of `rel`: each pair joins
/// two nodes related by `rel`, and each related pair of ids appears with the
/// first nodes that carry those ids.
pub open spec fn indexes_rel(
    p: Project,
    pairs: Seq<(usize, usize)>,
    rel: spec_fn(Seq<char>, Seq<char>) -> bool,
) -> bool {
    &&& forall|k: int|
        0 <= k < pairs.len() ==> (#[trigger] pairs[k]).0 < p.nodes@.len() && pairs[k].1
            < p.nodes@.len() && rel(p.nodes@[pairs[k].0 as int].id@, p.nodes@[pairs[k].1 as int].id@)
    &&& forall|a: Seq<char>, b: Seq<char>|
        #[trigger] rel(a, b) ==> exists|k: int|
            0 <= k < pairs.len() && p.is_first_with_id((#[trigger] pairs[k]).0 as int, a)
                && p.is_first_with_id(pairs[k].1 as int, b)
}

/// The index of the first node with id `a`, where there is one.
pub open spec fn first_index(p: Project, a: Seq<char>) -> int {
    choose|j: int| #[trigger] p.is_first_with_id(j, a)
}

/// Where some node has id `a`, a first one does.
pub proof fn lemma_has_first(p: Project, a: Seq<char>)
    requires
        p.has_node(a),
    ensures
        p.is_first_with_id(first_index(p, a), a),
{
    lemma_first_exists(p, a, p.nodes@.len() as int);
}

proof fn lemma_first_exists(p: Project, a: Seq<char>, k: int)
    requires
        0 <= k <= p.nodes@.len(),
        exists|i: int| 0 <= i < k && (#[trigger] p.nodes@[i]).id@ == a,
    ensures
        exists|j: int| #[trigger] p.is_first_with_id(j, a),
    decreases k,
{
    if exists|i: int| 0 <= i < k - 1 && (#[trigger] p.nodes@[i]).id@ == a {
        lemma_first_exists(p, a, k - 1);
    } else {
        let i = choose|i: int| 0 <= i < k && (#[trigger] p.nodes@[i]).id@ == a;
        assert(i == k - 1);
        assert(p.is_first_with_id(k - 1, a));
    }
}

pub(crate) proof fn lemma_first_unique(p: Project, i: int, j: int, a: Seq<char>)
    requires
        p.is_first_with_id(i, a),
        p.is_first_with_id(j, a),
    ensures
        i == j,
{
    if i < j {
        assert(p.nodes@[i].id@ != a);
    } else if j < i {
        assert(p.nodes@[j].id@ != a);
    }
}

/// Cycles of an index graph and of the id graph it lists correspond.
pub proof fn lemma_index_bridge(
    p: Project,
    pairs: Seq<(usize, usize)>,
    rel: spec_fn(Seq<char>, Seq<char>) -> bool,
)
    requires
        indexes_rel(p, pairs, rel),
    ensures
        has_cycle(pair_rel(pairs)) == has_cycle(rel),
{
    if has_cycle(pair_rel(pairs)) {
        let w = choose|w: Seq<usize>| is_cycle(pair_rel(pairs), w);
        let v = Seq::new(w.len(), |i: int| p.nodes@[w[i] as int].id@);
        assert forall|i: int| 0 <= i < v.len() - 1 implies #[trigger] rel(v[i], v[i + 1]) by {
            assert(pair_rel(pairs)(w[i], w[i + 1]));
            let k = choose|k: int| 0 <= k < pairs.len() && pairs[k] == (w[i], w[i + 1]);
            assert(pairs[k] == (w[i], w[i + 1]));
        }
        assert(is_cycle(rel, v));
    }
    if has_cycle(rel) {
        let v = choose|v: Seq<Seq<char>>| is_cycle(rel, v);
        let u = Seq::new(
            v.len(),
            |i: int| first_index(p, v[i]) as usize,
        );
        assert forall|i: int| 0 <= i < v.len() - 1 implies p.is_first_with_id(
            u[i] as int,
            v[i],
        ) && p.is_first_with_id(u[i + 1] as int, v[i + 1]) && #[trigger] pair_rel(pairs)(
            u[i],
            u[i + 1],
        ) by {
            assert(rel(v[i], v[i + 1]));
            let k = choose|k: int|
                0 <= k < pairs.len() && p.is_first_with_id((#[trigger] pairs[k]).0 as int, v[i])
                    && p.is_first_with_id(pairs[k].1 as int, v[i + 1]);
            let j0 = first_index(p, v[i]);
            let j1 = first_index(p, v[i + 1]);
            lemma_first_unique(p, j0, pairs[k].0 as int, v[i]);
            lemma_first_unique(p, j1, pairs[k].1 as int, v[i + 1]);
            assert(pairs[k] == (u[i], u[i + 1]));
        }
        let l = v.len() - 1;
        let i0: int = 0;
        let il: int = l - 1;
        assert(pair_rel(pairs)(u[i0], u[i0 + 1]));
        assert(pair_rel(pairs)(u[il], u[il + 1]));
        assert(u[0] == u[l]);
        assert(is_cycle(pair_rel(pairs), u));
    }
}

/// The edges whose two ends are nodes, by index of the first node with each id.
pub(crate) fn index_pairs(p: &Project) -> (r: Vec<(usize, usize)>)
    ensures
        indexes_rel(*p, r@, p.link_rel()),
{
    let mut r: Vec<(usize, usize)> = Vec::new();
    let mut k: usize = 0;
    while k < p.edges.len()
        invariant
            k <= p.edges@.len(),
            forall|m: int|
                0 <= m < r@.len() ==> (#[trigger] r@[m]).0 < p.nodes@.len() && r@[m].1
                    < p.nodes@.len() && p.links(
                    p.nodes@[r@[m].0 as int].id@,
                    p.nodes@[r@[m].1 as int].id@,
                ),
            forall|e: int|
                0 <= e < k && p.has_node(#[trigger] p.edges@[e].source@) && p.has_node(
                    p.edges@[e].target@,
                ) ==> exists|m: int|
                    0 <= m < r@.len() && p.is_first_with_id(
                        (#[trigger] r@[m]).0 as int,
                        p.edges@[e].source@,
                    ) && p.is_first_with_id(r@[m].1 as int, p.edges@[e].target@),
        decreases p.edges@.len() - k,
    {
        let e = &p.edges[k];
        let s = p.find_node_index(e.source.as_str());
        let t = p.find_node_index(e.target.as_str());
        let ghost r0 = r@;
        if let (Some(si), Some(ti)) = (s, t) {
            assert(p.has_edge(e.source@, e.target@));
            r.push((si, ti));
        }
        proof {
            assert forall|f: int|
                0 <= f < k + 1 && p.has_node(#[trigger] p.edges@[f].source@) && p.has_node(
                    p.edges@[f].target@,
                ) implies exists|m: int|
                0 <= m < r@.len() && p.is_first_with_id(
                    (#[trigger] r@[m]).0 as int,
                    p.edges@[f].source@,
                ) && p.is_first_with_id(r@[m].1 as int, p.edges@[f].target@) by {
                if f < k {
                    let m = choose|m: int|
                        0 <= m < r0.len() && p.is_first_with_id(
                            (#[trigger] r0[m]).0 as int,
                            p.edges@[f].source@,
                        ) && p.is_first_with_id(r0[m].1 as int, p.edges@[f].target@);
                    assert(r@[m] == r0[m]);
                } else {
                    let m = r@.len() - 1;
                    assert(r@[m] == (s.unwrap(), t.unwrap()));
                }
            }
        }
        k += 1;
    }
    assert forall|a: Seq<char>, b: Seq<char>| #[trigger] p.link_rel()(a, b) implies exists|m: int|
        0 <= m < r@.len() && p.is_first_with_id((#[trigger] r@[m]).0 as int, a)
            && p.is_first_with_id(r@[m].1 as int, b) by {
        assert(p.links(a, b));
        let e = choose|e: int|
            0 <= e < p.edges@.len() && (#[trigger] p.edges@[e]).source@ == a && p.edges@[e].target@
                == b;
        assert(p.has_node(p.edges@[e].source@));
    }
    r
}

/// The dependency graph with the edge `s -> t` added.
pub open spec fn rel_with_edge(p: Project, s: Seq<char>, t: Seq<char>) -> spec_fn(
    Seq<char>,
    Seq<char>,
) -> bool {
    |a: Seq<char>, b: Seq<char>| p.links(a, b) || (a == s && b == t)
}

/// Adding `source -> target` would close a cycle. Edges with a missing end are
/// ignored, and a candidate with a missing end creates none.
pub fn would_create_cycle(project: &Project, source: &str, target: &str) -> (r: bool)
    ensures
        r == (project.has_node(source@) && project.has_node(target@) && has_cycle(
            rel_with_edge(*project, source@, target@),
        )),
{
    let mut pairs = index_pairs(project);
    let s = project.find_node_index(source);
    let t = project.find_node_index(target);
    match (s, t) {
        (Some(si), Some(ti)) => {
            let ghost old_pairs = pairs@;
            pairs.push((si, ti));
            proof {
                let rel = rel_with_edge(*project, source@, target@);
                let last = pairs@.len() - 1;
                assert(pairs@[last] == (si, ti));
                assert forall|k: int| 0 <= k < pairs@.len() implies (#[trigger] pairs@[k]).0
                    < project.nodes@.len() && pairs@[k].1 < project.nodes@.len() && rel(
                    project.nodes@[pairs@[k].0 as int].id@,
                    project.nodes@[pairs@[k].1 as int].id@,
                ) by {
                    if k < last {
                        assert(pairs@[k] == old_pairs[k]);
                    }
                }
                assert forall|a: Seq<char>, b: Seq<char>| #[trigger] rel(a, b) implies exists|k: int|
                    0 <= k < pairs@.len() && project.is_first_with_id(
                        (#[trigger] pairs@[k]).0 as int,
                        a,
                    ) && project.is_first_with_id(pairs@[k].1 as int, b) by {
                    if project.links(a, b) {
                        assert(project.link_rel()(a, b));
                        let k = choose|k: int|
                            0 <= k < old_pairs.len() && project.is_first_with_id(
                                (#[trigger] old_pairs[k]).0 as int,
                                a,
                            ) && project.is_first_with_id(old_pairs[k].1 as int, b);
                        assert(pairs@[k] == old_pairs[k]);
                    } else {
                        assert(pairs@[last] == (si, ti));
                    }
                }
                lemma_index_bridge(*project, pairs@, rel);
            }
            digraph_is_cyclic(project.nodes.len(), &pairs)
        },
        _ => false,
    }
}

/// Whether the dependency graph (edges with a missing end ignored) has a cycle.
pub(crate) fn graph_is_cyclic(project: &Project) -> (r: bool)
    ensures
        r == has_cycle(project.link_rel()),
{
    let pairs = index_pairs(project);
    proof {
        lemma_index_bridge(*project, pairs@, project.link_rel());
    }
    digraph_is_cyclic(project.nodes.len(), &pairs)
}

} // verus!
