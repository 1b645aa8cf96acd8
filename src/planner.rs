//! Wave scheduling: Kahn-style topological layering of the project's nodes.
//! Wave `k` holds the nodes, not yet scheduled, all of whose dependencies
//! were scheduled in waves before `k`.

use vstd::prelude::*;
use crate::model::{str_equal, Project};

verus! {

/// The indices `j < i` for which `pred` holds, in increasing order.
pub open spec fn indices_where(pred: spec_fn(int) -> bool, i: int) -> Seq<int>
    decreases i,
{
    if i <= 0 {
        Seq::empty()
    } else {
        let s = indices_where(pred, i - 1);
        if pred(i - 1) {
            s.push(i - 1)
        } else {
            s
        }
    }
}

/// Node `m` is a dependency of node `n`: an edge runs from `m`'s id to `n`'s.
/// The plan works on ids: of several nodes with one id, only the first counts.
pub open spec fn depends_on(p: Project, n: int, m: int) -> bool {
    0 <= m < p.nodes@.len() && leads_its_id(p, m) && p.has_edge(p.nodes@[m].id@, p.nodes@[n].id@)
}

/// Node `n` is the first node with its id.
pub open spec fn leads_its_id(p: Project, n: int) -> bool {
    0 <= n < p.nodes@.len() && p.is_first_with_id(n, p.nodes@[n].id@)
}

/// Node `n` is the first with its id, is not in `done`, and all its
/// dependencies are.
pub open spec fn ready(p: Project, done: Set<int>, n: int) -> bool {
    &&& 0 <= n < p.nodes@.len()
    &&& leads_its_id(p, n)
    &&& !done.contains(n)
    &&& forall|m: int| #[trigger] depends_on(p, n, m) ==> done.contains(m)
}

/// The nodes scheduled in the first `k` waves.
pub open spec fn scheduled(p: Project, k: nat) -> Set<int>
    decreases k,
{
    if k == 0 {
        Set::empty()
    } else {
        let d = scheduled(p, (k - 1) as nat);
        d.union(Set::new(|n: int| ready(p, d, n)))
    }
}

/// Node `n` is in wave `k`.
pub open spec fn in_wave(p: Project, k: nat, n: int) -> bool {
    ready(p, scheduled(p, k), n)
}

/// The nodes of wave `k`, in node order.
pub open spec fn wave_members(p: Project, k: nat) -> Seq<int> {
    indices_where(|x: int| in_wave(p, k, x), p.nodes@.len() as int)
}

/// The nodes left out of the first `k` waves, in node order.
pub open spec fn left_after(p: Project, k: nat) -> Seq<int> {
    indices_where(|n: int| leads_its_id(p, n) && !scheduled(p, k).contains(n), p.nodes@.len() as int)
}

/// The first node of each id, in node order.
pub open spec fn id_leaders(p: Project) -> Seq<int> {
    indices_where(|n: int| leads_its_id(p, n), p.nodes@.len() as int)
}

/// The nodes in the first `k` waves, in node order.
pub open spec fn placed_after(p: Project, k: nat) -> Seq<int> {
    indices_where(|n: int| scheduled(p, k).contains(n), p.nodes@.len() as int)
}

/// The ids of the nodes at the given indices.
pub open spec fn ids_at(p: Project, idx: Seq<int>) -> Seq<String> {
    idx.map_values(|i: int| p.nodes@[i].id)
}

/// A set of nodes that can be generated in parallel.
#[derive(Debug, Clone)]
pub struct ExecutionWave {
    /// Position of the wave, from 0.
    pub wave_number: usize,
    /// Ids of the nodes of the wave.
    pub node_ids: Vec<String>,
}

/// Ordered waves of generation, and the nodes that cannot be scheduled.
#[derive(Debug, Clone)]
pub struct ExecutionPlan {
    pub waves: Vec<ExecutionWave>,
    /// Number of nodes in all waves together.
    pub total_nodes: usize,
    /// Nodes that no wave holds (they depend on a cycle).
    pub skipped_nodes: Vec<String>,
}

/// `plan` is the layering of `p`: wave `k` is `wave_members(p, k)` for each
/// wave, waves are non-empty, the next layer is empty, and the nodes of no
/// wave are skipped.
pub open spec fn is_plan_of(p: Project, plan: ExecutionPlan) -> bool {
    let k = plan.waves@.len() as nat;
    &&& forall|j: int|
        0 <= j < k ==> (#[trigger] plan.waves@[j]).wave_number == j && plan.waves@[j].node_ids@
            == ids_at(p, wave_members(p, j as nat)) && wave_members(p, j as nat).len() > 0
    &&& wave_members(p, k).len() == 0
    &&& plan.skipped_nodes@ == ids_at(p, left_after(p, k))
    &&& plan.total_nodes == placed_after(p, k).len()
}

/// Wave `k` adds its nodes to those placed before it.
pub proof fn lemma_placed_step(p: Project, k: nat)
    ensures
        placed_after(p, k + 1).len() == placed_after(p, k).len() + wave_members(p, k).len(),
        placed_after(p, k).len() <= p.nodes@.len(),
{
    let n = p.nodes@.len() as int;
    let d = scheduled(p, k);
    let d2 = scheduled(p, k + 1);
    lemma_indices_disjoint(|j: int| d.contains(j), |j: int| in_wave(p, k, j), n);
    lemma_indices_ext(
        |j: int| d2.contains(j),
        |j: int| (|j: int| d.contains(j))(j) || (|j: int| in_wave(p, k, j))(j),
        n,
    );
    lemma_indices_complement(|j: int| d.contains(j), n);
    lemma_indices_ext(|j: int| d.contains(j), |x: int| scheduled(p, k).contains(x), n);
    lemma_indices_ext(|j: int| d2.contains(j), |x: int| scheduled(p, k + 1).contains(x), n);
}

/// Indices lists depend on the predicate only below the bound.
pub proof fn lemma_indices_ext(a: spec_fn(int) -> bool, b: spec_fn(int) -> bool, i: int)
    requires
        forall|j: int| 0 <= j < i ==> #[trigger] a(j) == b(j),
    ensures
        indices_where(a, i) == indices_where(b, i),
    decreases i,
{
    if i > 0 {
        lemma_indices_ext(a, b, i - 1);
    }
}

/// Counting indices of two disjoint predicates.
pub proof fn lemma_indices_disjoint(a: spec_fn(int) -> bool, b: spec_fn(int) -> bool, i: int)
    requires
        forall|j: int| 0 <= j < i ==> !(#[trigger] a(j) && b(j)),
    ensures
        indices_where(|j: int| a(j) || b(j), i).len() == indices_where(a, i).len()
            + indices_where(b, i).len(),
    decreases i,
{
    if i > 0 {
        lemma_indices_disjoint(a, b, i - 1);
    }
}

/// A predicate and its negation split the indices below `i`.
pub proof fn lemma_indices_complement(a: spec_fn(int) -> bool, i: int)
    requires
        i >= 0,
    ensures
        indices_where(a, i).len() + indices_where(|j: int| !a(j), i).len() == i,
    decreases i,
{
    if i > 0 {
        lemma_indices_complement(a, i - 1);
    }
}

/// Members of the index list.
pub proof fn lemma_indices_members(a: spec_fn(int) -> bool, i: int)
    ensures
        forall|m: int|
            0 <= m < indices_where(a, i).len() ==> 0 <= #[trigger] indices_where(a, i)[m] < i
                && a(indices_where(a, i)[m]),
        forall|j: int| 0 <= j < i && #[trigger] a(j) ==> indices_where(a, i).contains(j),
    decreases i,
{
    if i > 0 {
        lemma_indices_members(a, i - 1);
        let s = indices_where(a, i - 1);
        assert forall|j: int| 0 <= j < i && #[trigger] a(j) implies indices_where(a, i).contains(j) by {
            if j < i - 1 {
                let m = choose|m: int| 0 <= m < s.len() && s[m] == j;
                assert(indices_where(a, i)[m] == j);
            } else {
                assert(indices_where(a, i)[s.len() as int] == j);
            }
        }
    }
}

/// Index lists are strictly increasing.
pub proof fn lemma_indices_increasing(a: spec_fn(int) -> bool, i: int)
    ensures
        forall|k: int, l: int|
            0 <= k < l < indices_where(a, i).len() ==> #[trigger] indices_where(a, i)[k]
                < #[trigger] indices_where(a, i)[l],
    decreases i,
{
    if i > 0 {
        lemma_indices_increasing(a, i - 1);
        lemma_indices_members(a, i - 1);
        let s = indices_where(a, i - 1);
        let t = indices_where(a, i);
        assert forall|k: int, l: int| 0 <= k < l < t.len() implies #[trigger] t[k] < #[trigger] t[l] by {
            if l < s.len() {
                assert(t[k] == s[k] && t[l] == s[l]);
            } else {
                assert(t[k] == s[k]);
                assert(0 <= s[k] < i - 1);
            }
        }
    }
}

/// Later waves extend earlier ones.
pub proof fn lemma_scheduled_grows(p: Project, a: nat, b: nat)
    requires
        a <= b,
    ensures
        scheduled(p, a).subset_of(scheduled(p, b)),
    decreases b - a,
{
    if a < b {
        lemma_scheduled_grows(p, a, (b - 1) as nat);
    }
}

/// A node is in at most one wave.
pub proof fn lemma_one_wave(p: Project, a: nat, b: nat, n: int)
    requires
        in_wave(p, a, n),
        in_wave(p, b, n),
    ensures
        a == b,
{
    if a < b {
        lemma_scheduled_grows(p, a + 1, b);
        assert(scheduled(p, a + 1).contains(n));
    } else if b < a {
        lemma_scheduled_grows(p, b + 1, a);
        assert(scheduled(p, b + 1).contains(n));
    }
}

/// A scheduled node was placed by some earlier wave.
pub proof fn lemma_scheduled_in_some_wave(p: Project, k: nat, m: int)
    requires
        scheduled(p, k).contains(m),
    ensures
        exists|j: nat| j < k && #[trigger] in_wave(p, j, m),
    decreases k,
{
    let d = scheduled(p, (k - 1) as nat);
    if d.contains(m) {
        lemma_scheduled_in_some_wave(p, (k - 1) as nat, m);
        let j = choose|j: nat| j < k - 1 && #[trigger] in_wave(p, j, m);
        assert(in_wave(p, j, m));
    } else {
        assert(in_wave(p, (k - 1) as nat, m));
    }
}

/// Every dependency of a node in wave `k` is in a wave before `k`.
pub proof fn lemma_waves_respect_dependencies(p: Project, k: nat, n: int, m: int)
    requires
        in_wave(p, k, n),
        depends_on(p, n, m),
    ensures
        exists|j: nat| j < k && #[trigger] in_wave(p, j, m),
{
    lemma_scheduled_in_some_wave(p, k, m);
}

/// A scheduled node is the first with its id.
pub proof fn lemma_scheduled_leads(p: Project, k: nat, n: int)
    requires
        scheduled(p, k).contains(n),
    ensures
        leads_its_id(p, n),
{
    lemma_scheduled_in_some_wave(p, k, n);
    let j = choose|j: nat| j < k && #[trigger] in_wave(p, j, n);
    assert(in_wave(p, j, n));
}

/// The waves and the skipped nodes together count every id once: as many
/// entries as there are first nodes of an id, which is every node where ids
/// are unique.
pub proof fn lemma_plan_counts_every_node(p: Project, plan: ExecutionPlan)
    requires
        is_plan_of(p, plan),
    ensures
        plan.total_nodes + plan.skipped_nodes@.len() == id_leaders(p).len(),
        p.node_ids_unique() ==> plan.total_nodes + plan.skipped_nodes@.len() == p.nodes@.len(),
{
    let k = plan.waves@.len() as nat;
    let n = p.nodes@.len() as int;
    let a = |x: int| scheduled(p, k).contains(x);
    let b = |x: int| leads_its_id(p, x) && !scheduled(p, k).contains(x);
    lemma_indices_disjoint(a, b, n);
    assert forall|x: int| 0 <= x < n implies (a(x) || b(x)) == #[trigger] leads_its_id(p, x) by {
        if a(x) {
            lemma_scheduled_leads(p, k, x);
        }
    }
    lemma_indices_ext(|x: int| a(x) || b(x), |x: int| leads_its_id(p, x), n);
    lemma_indices_ext(a, |x: int| scheduled(p, k).contains(x), n);
    lemma_indices_ext(b, |x: int| leads_its_id(p, x) && !scheduled(p, k).contains(x), n);
    if p.node_ids_unique() {
        assert forall|x: int| 0 <= x < n implies #[trigger] leads_its_id(p, x) by {
            assert forall|j: int| 0 <= j < x implies #[trigger] p.nodes@[j].id@ != p.nodes@[x].id@ by {
                assert(p.nodes@[j].id@ != p.nodes@[x].id@);
            }
        }
        lemma_indices_ext(|x: int| leads_its_id(p, x), |x: int| true, n);
        lemma_indices_complement(|x: int| true, n);
        lemma_indices_members(|x: int| !(|x: int| true)(x), n);
        if indices_where(|x: int| !(|x: int| true)(x), n).len() > 0 {
            let z = 0int;
            assert((|x: int| !(|x: int| true)(x))(indices_where(|x: int| !(|x: int| true)(x), n)[z]));
        }
    }
}

/// The ids of the nodes at `idx`, cloned.
fn ids_of(p: &Project, idx: &Vec<usize>) -> (r: Vec<String>)
    requires
        forall|m: int| 0 <= m < idx@.len() ==> #[trigger] idx@[m] < p.nodes@.len(),
    ensures
        r@ == idx@.map_values(|i: usize| p.nodes@[i as int].id),
{
    let mut r: Vec<String> = Vec::new();
    let mut m: usize = 0;
    while m < idx.len()
        invariant
            m <= idx@.len(),
            forall|t: int| 0 <= t < idx@.len() ==> #[trigger] idx@[t] < p.nodes@.len(),
            r@ == idx@.subrange(0, m as int).map_values(|i: usize| p.nodes@[i as int].id),
        decreases idx@.len() - m,
    {
        r.push(p.nodes[idx[m]].id.clone());
        m += 1;
        assert(r@ =~= idx@.subrange(0, m as int).map_values(|i: usize| p.nodes@[i as int].id));
    }
    assert(idx@.subrange(0, m as int) =~= idx@);
    r
}

/// Whether every dependency of node `n` is marked in `done`.
fn dependencies_done(p: &Project, done: &Vec<bool>, n: usize) -> (r: bool)
    requires
        n < p.nodes@.len(),
        done@.len() == p.nodes@.len(),
    ensures
        r == forall|m: int| #[trigger] depends_on(*p, n as int, m) ==> done@[m],
{
    let mut k: usize = 0;
    while k < p.edges.len()
        invariant
            n < p.nodes@.len(),
            done@.len() == p.nodes@.len(),
            k <= p.edges@.len(),
            forall|e: int, m: int|
                0 <= e < k && #[trigger] p.is_first_with_id(m, (#[trigger] p.edges@[e]).source@)
                    && p.edges@[e].target@ == p.nodes@[n as int].id@ ==> done@[m],
        decreases p.edges@.len() - k,
    {
        if str_equal(p.edges[k].target.as_str(), p.nodes[n].id.as_str()) {
            match p.find_node_index(p.edges[k].source.as_str()) {
                Some(m) => {
                    if !done[m] {
                        assert(depends_on(*p, n as int, m as int)) by {
                            assert(p.edges@[k as int].source@ == p.nodes@[m as int].id@);
                        }
                        return false;
                    }
                    proof {
                        assert forall|m2: int| #[trigger] p.is_first_with_id(m2, p.edges@[k as int].source@) implies m2 == m by {
                            crate::cycle::lemma_first_unique(*p, m2, m as int, p.edges@[k as int].source@);
                        }
                    }
                },
                None => {},
            }
        }
        k += 1;
    }
    assert forall|m: int| #[trigger] depends_on(*p, n as int, m) implies done@[m] by {
        let e = choose|e: int|
            0 <= e < p.edges@.len() && (#[trigger] p.edges@[e]).source@ == p.nodes@[m].id@
                && p.edges@[e].target@ == p.nodes@[n as int].id@;
        assert(p.is_first_with_id(m, p.edges@[e].source@));
    }
    true
}

/// Whether node `i` is the first node with its id.
fn leads_own_id(p: &Project, i: usize) -> (r: bool)
    requires
        i < p.nodes@.len(),
    ensures
        r == leads_its_id(*p, i as int),
{
    match p.find_node_index(p.nodes[i].id.as_str()) {
        Some(j) => {
            proof {
                if p.is_first_with_id(i as int, p.nodes@[i as int].id@) {
                    crate::cycle::lemma_first_unique(*p, i as int, j as int, p.nodes@[i as int].id@);
                }
            }
            j == i
        },
        None => false,
    }
}

impl ExecutionPlan {
    /// Plans generation of `project` in waves of mutually independent nodes.
    /// Edges with a missing end are ignored; nodes that depend on a cycle are
    /// skipped.
    pub fn from_project(project: &Project) -> (r: ExecutionPlan)
        ensures
            is_plan_of(*project, r),
    {
        let p = project;
        let n = p.nodes.len();
        let mut done: Vec<bool> = Vec::new();
        let mut i: usize = 0;
        while i < n
            invariant
                n == p.nodes@.len(),
                i <= n,
                done@.len() == i,
                forall|j: int| 0 <= j < i ==> !(#[trigger] done@[j]),
            decreases n - i,
        {
            done.push(false);
            i += 1;
        }
        let mut waves: Vec<ExecutionWave> = Vec::new();
        let mut total: usize = 0;
        let ghost mut k: nat = 0;
        proof {
            lemma_indices_ext(
                |j: int| scheduled(*p, 0).contains(j),
                |j: int| false,
                n as int,
            );
            lemma_indices_complement(|j: int| false, 0);
            assert(indices_where(|j: int| false, n as int).len() == 0) by {
                lemma_indices_members(|j: int| false, n as int);
                if indices_where(|j: int| false, n as int).len() > 0 {
                    let z = 0int;
                    assert((|j: int| false)(indices_where(|j: int| false, n as int)[z]));
                }
            }
        }
        loop
            invariant
                n == p.nodes@.len(),
                done@.len() == n,
                forall|j: int| 0 <= j < n ==> #[trigger] done@[j] == scheduled(*p, k).contains(j),
                forall|j: int| #[trigger] scheduled(*p, k).contains(j) ==> 0 <= j < n,
                waves@.len() == k,
                forall|j: int|
                    0 <= j < k ==> (#[trigger] waves@[j]).wave_number == j && waves@[j].node_ids@
                        == ids_at(*p, wave_members(*p, j as nat)) && wave_members(*p, j as nat).len()
                        > 0,
                total == placed_after(*p, k).len(),
                total <= n,
            ensures
                wave_members(*p, k).len() == 0,
            decreases n - total,
        {
            let ghost d = scheduled(*p, k);
            let mut ready_idx: Vec<usize> = Vec::new();
            let mut i: usize = 0;
            while i < n
                invariant
                    n == p.nodes@.len(),
                    done@.len() == n,
                    forall|j: int| 0 <= j < n ==> #[trigger] done@[j] == d.contains(j),
                    d == scheduled(*p, k),
                    i <= n,
                    ready_idx@.map_values(|x: usize| x as int) == indices_where(
                        |j: int| in_wave(*p, k, j),
                        i as int,
                    ),
                    forall|t: int| 0 <= t < ready_idx@.len() ==> #[trigger] ready_idx@[t] < i,
                decreases n - i,
            {
                let ghost before = ready_idx@;
                let dep_ok = dependencies_done(p, &done, i) && leads_own_id(p, i);
                proof {
                    assert(in_wave(*p, k, i as int) == (!done@[i as int] && dep_ok)) by {
                        if !done@[i as int] && dep_ok {
                            assert forall|m: int| #[trigger] depends_on(*p, i as int, m) implies d.contains(m) by {
                                assert(done@[m]);
                            }
                        }
                        if in_wave(*p, k, i as int) {
                            assert forall|m: int| #[trigger] depends_on(*p, i as int, m) implies done@[m] by {
                                assert(d.contains(m));
                            }
                        }
                    }
                }
                if !done[i] && dep_ok {
                    ready_idx.push(i);
                    assert(ready_idx@.map_values(|x: usize| x as int) =~= before.map_values(|x: usize| x as int).push(i as int));
                }
                i += 1;
            }
            let ghost members = wave_members(*p, k);
            assert(ready_idx@.map_values(|x: usize| x as int) == members);
            if ready_idx.len() == 0 {
                break;
            }
            let mut t: usize = 0;
            while t < ready_idx.len()
                invariant
                    n == p.nodes@.len(),
                    done@.len() == n,
                    d == scheduled(*p, k),
                    t <= ready_idx@.len(),
                    forall|s: int| 0 <= s < ready_idx@.len() ==> #[trigger] ready_idx@[s] < n,
                    ready_idx@.map_values(|x: usize| x as int) == members,
                    members == wave_members(*p, k),
                    forall|j: int|
                        0 <= j < n ==> #[trigger] done@[j] == (d.contains(j) || exists|s: int|
                            0 <= s < t && ready_idx@[s] == j),
                decreases ready_idx@.len() - t,
            {
                let idx = ready_idx[t];
                done[idx] = true;
                t += 1;
            }
            proof {
                lemma_indices_members(|x: int| in_wave(*p, k, x), n as int);
                let d2 = scheduled(*p, k + 1);
                assert forall|j: int| 0 <= j < n implies #[trigger] done@[j] == d2.contains(j) by {
                    if done@[j] && !d.contains(j) {
                        let s = choose|s: int| 0 <= s < ready_idx@.len() && ready_idx@[s] == j;
                        assert(members[s] == j);
                    }
                    if d2.contains(j) && !d.contains(j) {
                        assert(ready(*p, d, j));
                        assert((|x: int| in_wave(*p, k, x))(j));
                        assert(members.contains(j));
                        let s = choose|s: int| 0 <= s < members.len() && members[s] == j;
                        assert(ready_idx@[s] as int == members[s]);
                    }
                }
                assert forall|j: int| #[trigger] d2.contains(j) implies 0 <= j < n by {
                    if !d.contains(j) {
                        assert(ready(*p, d, j));
                    }
                }
                lemma_indices_disjoint(
                    |j: int| d.contains(j),
                    |j: int| in_wave(*p, k, j),
                    n as int,
                );
                lemma_indices_ext(
                    |j: int| d2.contains(j),
                    |j: int| (|j: int| d.contains(j))(j) || (|j: int| in_wave(*p, k, j))(j),
                    n as int,
                );
                lemma_indices_complement(|j: int| d2.contains(j), n as int);
            }
            let node_ids = ids_of(p, &ready_idx);
            proof {
                assert(node_ids@ =~= ids_at(*p, members));
            }
            waves.push(ExecutionWave { wave_number: waves.len(), node_ids });
            total = total + ready_idx.len();
            proof {
                k = k + 1;
            }
        }
        let mut left: Vec<usize> = Vec::new();
        let mut i: usize = 0;
        while i < n
            invariant
                n == p.nodes@.len(),
                done@.len() == n,
                forall|j: int| 0 <= j < n ==> #[trigger] done@[j] == scheduled(*p, k).contains(j),
                i <= n,
                left@.map_values(|x: usize| x as int) == indices_where(
                    |j: int| leads_its_id(*p, j) && !scheduled(*p, k).contains(j),
                    i as int,
                ),
                forall|t: int| 0 <= t < left@.len() ==> #[trigger] left@[t] < i,
            decreases n - i,
        {
            let ghost before = left@;
            if !done[i] && leads_own_id(p, i) {
                left.push(i);
                assert(left@.map_values(|x: usize| x as int) =~= before.map_values(|x: usize| x as int).push(i as int));
            }
            i += 1;
        }
        let skipped_nodes = ids_of(p, &left);
        assert(skipped_nodes@ =~= ids_at(*p, left_after(*p, k)));
        ExecutionPlan { waves, total_nodes: total, skipped_nodes }
    }

    /// The ids of all waves, wave after wave.
    pub fn ordered_node_ids(&self) -> (r: Vec<String>)
        ensures
            r@ == self.waves@.map_values(|w: ExecutionWave| w.node_ids@).flatten(),
    {
        let mut r: Vec<String> = Vec::new();
        let mut j: usize = 0;
        while j < self.waves.len()
            invariant
                j <= self.waves@.len(),
                r@ == self.waves@.subrange(0, j as int).map_values(|w: ExecutionWave| w.node_ids@).flatten(),
            decreases self.waves@.len() - j,
        {
            let ids = &self.waves[j].node_ids;
            let ghost r0 = r@;
            let mut m: usize = 0;
            while m < ids.len()
                invariant
                    m <= ids@.len(),
                    r@ == r0 + ids@.subrange(0, m as int),
                decreases ids@.len() - m,
            {
                r.push(ids[m].clone());
                m += 1;
                assert(r@ =~= r0 + ids@.subrange(0, m as int));
            }
            proof {
                let s0 = self.waves@.subrange(0, j as int).map_values(|w: ExecutionWave| w.node_ids@);
                let s1 = self.waves@.subrange(0, j + 1).map_values(|w: ExecutionWave| w.node_ids@);
                assert(s1 =~= s0.push(self.waves@[j as int].node_ids@));
                s0.lemma_flatten_push(self.waves@[j as int].node_ids@);
                assert(ids@.subrange(0, m as int) =~= ids@);
            }
            j += 1;
        }
        assert(self.waves@.subrange(0, j as int) =~= self.waves@);
        r
    }

    /// Whether some wave holds the id `node_id`.
    pub fn contains_node(&self, node_id: &str) -> (r: bool)
        ensures
            r == exists|j: int, m: int|
                0 <= j < self.waves@.len() && 0 <= m < self.waves@[j].node_ids@.len()
                    && (#[trigger] self.waves@[j].node_ids@[m])@ == node_id@,
    {
        let mut j: usize = 0;
        while j < self.waves.len()
            invariant
                j <= self.waves@.len(),
                forall|a: int, m: int|
                    0 <= a < j && 0 <= m < self.waves@[a].node_ids@.len()
                        ==> (#[trigger] self.waves@[a].node_ids@[m])@ != node_id@,
            decreases self.waves@.len() - j,
        {
            let mut m: usize = 0;
            while m < self.waves[j].node_ids.len()
                invariant
                    j < self.waves@.len(),
                    m <= self.waves@[j as int].node_ids@.len(),
                    forall|a: int, m2: int|
                        0 <= a < j && 0 <= m2 < self.waves@[a].node_ids@.len()
                            ==> (#[trigger] self.waves@[a].node_ids@[m2])@ != node_id@,
                    forall|m2: int| 0 <= m2 < m ==> (#[trigger] self.waves@[j as int].node_ids@[m2])@ != node_id@,
                decreases self.waves@[j as int].node_ids@.len() - m,
            {
                if str_equal(self.waves[j].node_ids[m].as_str(), node_id) {
                    return true;
                }
                m += 1;
            }
            j += 1;
        }
        false
    }
}

} // verus!
