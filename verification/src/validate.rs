//! Validation of a pipeline: unique names, known dependencies, no cycle.

use crate::graph::{invert, inverted, lemma_edges, occurs, position_of, resolved};
use crate::pipeline::{graph_of, Pipeline, TaskDef, TaskGraph};
use vstd::prelude::*;
use vstd::string::StringExecFns;

verus! {

/// Why a pipeline was rejected.
#[derive(Debug)]
pub enum ValidationError {
    /// Two tasks share this name.
    DuplicateName(String),
    /// `task` names `dependency`, which no task of the pipeline is called.
    UnknownDependency { task: String, dependency: String },
    /// The task of this name lies on a dependency cycle.
    CycleDetected(String),
}

impl ValidationError {
    /// The error as one line of text.
    pub fn message(&self) -> (r: String)
        ensures
            r@ == match *self {
                ValidationError::DuplicateName(name) => "duplicate task name '"@ + name@ + "'"@,
                ValidationError::UnknownDependency { task, dependency } => "task '"@ + task@
                    + "' depends on unknown '"@ + dependency@ + "'"@,
                ValidationError::CycleDetected(name) => "cycle detected at "@ + name@,
            },
    {
        match self {
            ValidationError::DuplicateName(name) => {
                let mut s = String::from_str("duplicate task name '");
                s.append(name.as_str());
                s.append("'");
                s
            },
            ValidationError::UnknownDependency { task, dependency } => {
                let mut s = String::from_str("task '");
                s.append(task.as_str());
                s.append("' depends on unknown '");
                s.append(dependency.as_str());
                s.append("'");
                s
            },
            ValidationError::CycleDetected(name) => {
                let mut s = String::from_str("cycle detected at ");
                s.append(name.as_str());
                s
            },
        }
    }
}

/// An earlier task has the name of task `j`.
pub open spec fn duplicated(g: TaskGraph, j: int) -> bool {
    exists|i: int| 0 <= i < j && g.names[i] == g.names[j]
}

/// Task `j` is the first in document order whose name was used before it.
pub open spec fn first_duplicate(g: TaskGraph, j: int) -> bool {
    &&& 0 <= j < g.len()
    &&& duplicated(g, j)
    &&& forall|j2: int| 0 <= j2 < j ==> !duplicated(g, j2)
}

/// The `k`-th dependency of task `i` names no task.
pub open spec fn unknown(g: TaskGraph, i: int, k: int) -> bool {
    &&& 0 <= i < g.len()
    &&& 0 <= k < g.deps[i].len()
    &&& !g.defines(g.deps[i][k])
}

/// The `k`-th dependency of task `i` is the first unknown one in document order.
pub open spec fn first_unknown(g: TaskGraph, i: int, k: int) -> bool {
    &&& unknown(g, i, k)
    &&& forall|i2: int, k2: int| #[trigger]
        unknown(g, i2, k2) ==> i < i2 || (i == i2 && k <= k2)
}

/// Task `v` lies on a dependency cycle.
pub open spec fn on_cycle(g: TaskGraph, v: int) -> bool {
    exists|c: Seq<int>| g.is_cycle(c) && c[0] == v
}

/// The first task whose name an earlier task already has, if any.
pub fn find_duplicate(tasks: &Vec<TaskDef>) -> (r: Option<usize>)
    ensures
        match r {
            Some(j) => first_duplicate(graph_of(tasks@), j as int),
            None => graph_of(tasks@).unique_names(),
        },
{
    let ghost g = graph_of(tasks@);
    let mut j: usize = 0;
    while j < tasks.len()
        invariant
            j <= tasks.len(),
            g == graph_of(tasks@),
            forall|j2: int| 0 <= j2 < j ==> !duplicated(g, j2),
        decreases tasks.len() - j,
    {
        let mut i: usize = 0;
        while i < j
            invariant
                i <= j < tasks.len(),
                g == graph_of(tasks@),
                forall|i2: int| 0 <= i2 < i ==> g.names[i2] != g.names[j as int],
                forall|j2: int| 0 <= j2 < j ==> !duplicated(g, j2),
            decreases j - i,
        {
            if tasks[i].name == tasks[j].name {
                assert(g.names[i as int] == g.names[j as int]);
                assert(duplicated(g, j as int));
                return Some(j);
            }
            i += 1;
        }
        assert(!duplicated(g, j as int));
        j += 1;
    }
    proof {
        assert forall|i: int, j: int| 0 <= i < j < g.len() implies g.names[i] != g.names[j] by {
            assert(!duplicated(g, j));
        }
    }
    None
}

/// Each task's dependencies as positions in the task list, or the place of
/// the first dependency that names no task.
pub fn resolve(tasks: &Vec<TaskDef>) -> (r: Result<Vec<Vec<usize>>, (usize, usize)>)
    ensures
        match r {
            Ok(deps) => resolved(graph_of(tasks@), deps@),
            Err((i, k)) => first_unknown(graph_of(tasks@), i as int, k as int),
        },
{
    let ghost g = graph_of(tasks@);
    let mut deps: Vec<Vec<usize>> = Vec::new();
    let mut i: usize = 0;
    while i < tasks.len()
        invariant
            i <= tasks.len(),
            g == graph_of(tasks@),
            deps.len() == i,
            forall|i2: int| 0 <= i2 < i ==> (#[trigger] deps[i2]).len() == g.deps[i2].len(),
            forall|i2: int, k2: int|
                0 <= i2 < i && 0 <= k2 < g.deps[i2].len() ==> 0 <= (#[trigger] deps[i2][k2])
                    < g.len() && g.names[deps[i2][k2] as int] == g.deps[i2][k2],
            forall|i2: int, k2: int| 0 <= i2 < i ==> !unknown(g, i2, k2),
        decreases tasks.len() - i,
    {
        let mut row: Vec<usize> = Vec::new();
        let mut k: usize = 0;
        while k < tasks[i].depends_on.len()
            invariant
                i < tasks.len(),
                g == graph_of(tasks@),
                k <= tasks[i as int].depends_on.len(),
                row.len() == k,
                forall|k2: int|
                    0 <= k2 < k ==> 0 <= (#[trigger] row[k2]) < g.len() && g.names[row[k2] as int]
                        == g.deps[i as int][k2],
                forall|i2: int, k2: int| 0 <= i2 < i ==> !unknown(g, i2, k2),
                forall|k2: int| 0 <= k2 < k ==> !unknown(g, i as int, k2),
            decreases tasks[i as int].depends_on.len() - k,
        {
            match position_of(tasks, &tasks[i].depends_on[k]) {
                Some(j) => {
                    row.push(j);
                    assert(g.defines(g.deps[i as int][k as int])) by {
                        assert(g.names[j as int] == g.deps[i as int][k as int]);
                    }
                },
                None => {
                    return Err((i, k));
                },
            }
            k += 1;
        }
        deps.push(row);
        i += 1;
    }
    Ok(deps)
}

/// `w` is among the successors of `u`.
pub open spec fn edge(adj: Seq<Vec<usize>>, u: int, w: int) -> bool {
    0 <= u < adj.len() && occurs(adj[u]@, w)
}

/// Every successor is a node of the graph.
pub open spec fn closed_graph(adj: Seq<Vec<usize>>) -> bool {
    forall|u: int, p: int|
        0 <= u < adj.len() && 0 <= p < adj[u].len() ==> (#[trigger] adj[u][p]) < adj.len()
}

/// `c` is a closed walk: an edge leads from each node of `c` to the next, and
/// from the last to the first.
pub open spec fn closed_walk(adj: Seq<Vec<usize>>, c: Seq<int>) -> bool {
    &&& c.len() > 0
    &&& forall|k: int| 0 <= k < c.len() - 1 ==> edge(adj, #[trigger] c[k], c[k + 1])
    &&& edge(adj, c.last(), c[0])
}

/// The depth-first visit of `node` as a function: the marks after it and
/// the node at which an edge back into the current path was seen, if any.
/// A mark of 0 is unvisited, 1 is visiting, 2 is done; `fuel` bounds the depth.
pub open spec fn visit_spec(adj: Seq<Vec<usize>>, color: Seq<u8>, node: int, fuel: nat) -> (
    Seq<u8>,
    Option<int>,
)
    decreases fuel, 0int, 0int,
{
    if color[node] == 1 {
        (color, Some(node))
    } else if color[node] == 2 || fuel == 0 {
        (color, None)
    } else {
        let inner = scan_spec(adj, color.update(node, 1u8), node, 0, (fuel - 1) as nat);
        match inner.1 {
            Some(v) => inner,
            None => (inner.0.update(node, 2u8), None),
        }
    }
}

/// The visits of the successors of `node` from the `idx`-th on, in order,
/// up to the first that sees an edge back into the path.
pub open spec fn scan_spec(
    adj: Seq<Vec<usize>>,
    color: Seq<u8>,
    node: int,
    idx: int,
    fuel: nat,
) -> (Seq<u8>, Option<int>)
    decreases fuel, 1int, adj[node].len() - idx,
{
    if idx < 0 || idx >= adj[node].len() {
        (color, None)
    } else {
        let step = visit_spec(adj, color, adj[node][idx] as int, fuel);
        match step.1 {
            Some(v) => step,
            None => scan_spec(adj, step.0, node, idx + 1, fuel),
        }
    }
}

/// The visits of the nodes from `t` on, in order, up to the first that
/// sees an edge back into the path.
pub open spec fn search_spec(adj: Seq<Vec<usize>>, color: Seq<u8>, t: int) -> Option<int>
    decreases adj.len() - t,
{
    if t < 0 || t >= adj.len() {
        None
    } else {
        let step = visit_spec(adj, color, t, adj.len());
        match step.1 {
            Some(v) => Some(v),
            None => search_spec(adj, step.0, t + 1),
        }
    }
}

/// The node at which the depth-first search of the whole graph, which
/// visits the nodes and the successors of each in order, first sees an edge
/// back into its path; `None` where it sees none.
pub open spec fn first_back_edge(adj: Seq<Vec<usize>>) -> Option<int> {
    search_spec(adj, Seq::new(adj.len(), |x: int| 0u8), 0)
}

/// The result of a search as a position.
pub open spec fn found(r: Option<usize>) -> Option<int> {
    match r {
        Some(v) => Some(v as int),
        None => None,
    }
}

/// The nodes being visited are exactly those of `path`, which follows edges.
spec fn path_ok(adj: Seq<Vec<usize>>, color: Seq<u8>, path: Seq<int>) -> bool {
    &&& forall|k: int|
        0 <= k < path.len() ==> 0 <= (#[trigger] path[k]) < color.len() && color[path[k]] == 1
    &&& forall|k1: int, k2: int| 0 <= k1 < k2 < path.len() ==> path[k1] != path[k2]
    &&& forall|x: int| 0 <= x < color.len() && #[trigger] color[x] == 1 ==> path.contains(x)
    &&& forall|k: int| 0 <= k < path.len() - 1 ==> edge(adj, #[trigger] path[k], path[k + 1])
}

/// The finished nodes are exactly those of `fin`, and every edge from a
/// finished node leads to one that finished earlier.
spec fn fin_ok(adj: Seq<Vec<usize>>, color: Seq<u8>, fin: Seq<int>) -> bool {
    &&& forall|a: int|
        0 <= a < fin.len() ==> 0 <= (#[trigger] fin[a]) < color.len() && color[fin[a]] == 2
    &&& forall|a1: int, a2: int| 0 <= a1 < a2 < fin.len() ==> fin[a1] != fin[a2]
    &&& forall|x: int| 0 <= x < color.len() && #[trigger] color[x] == 2 ==> fin.contains(x)
    &&& forall|a: int, w: int|
        #![trigger edge(adj, fin[a], w)]
        0 <= a < fin.len() && edge(adj, fin[a], w) ==> exists|b: int|
            0 <= b < a && #[trigger] fin[b] == w
}

/// A sequence of distinct nodes is no longer than the graph has nodes.
proof fn lemma_distinct_len(s: Seq<int>, n: int)
    requires
        forall|k: int| 0 <= k < s.len() ==> 0 <= #[trigger] s[k] < n,
        forall|k1: int, k2: int| 0 <= k1 < k2 < s.len() ==> s[k1] != s[k2],
        n >= 0,
    ensures
        s.len() <= n,
{
    vstd::seq_lib::seq_to_set_is_finite(s);
    assert(s.no_duplicates());
    s.unique_seq_to_set();
    vstd::set_lib::lemma_int_range(0, n);
    assert(s.to_set().subset_of(vstd::set_lib::set_int_range(0, n))) by {
        assert forall|x: int| s.to_set().contains(x) implies vstd::set_lib::set_int_range(
            0,
            n,
        ).contains(x) by {
            let k = choose|k: int| 0 <= k < s.len() && s[k] == x;
        }
    }
    vstd::set_lib::lemma_len_subset(s.to_set(), vstd::set_lib::set_int_range(0, n));
}

/// Depth-first visit of `node`. Returns the node at which an edge back into
/// the current path was seen, or `None` once `node` and all it reaches are finished.
fn visit(
    node: usize,
    adj: &Vec<Vec<usize>>,
    color: &mut Vec<u8>,
    Ghost(path): Ghost<Seq<int>>,
    fin: &mut Ghost<Seq<int>>,
) -> (r: Option<usize>)
    requires
        node < adj.len(),
        old(color).len() == adj.len(),
        closed_graph(adj@),
        path_ok(adj@, old(color)@, path),
        fin_ok(adj@, old(color)@, old(fin)@),
        path.len() > 0 ==> edge(adj@, path.last(), node as int),
    ensures
        final(color).len() == adj.len(),
        path.len() <= adj.len(),
        (final(color)@, found(r)) == visit_spec(
            adj@,
            old(color)@,
            node as int,
            (adj.len() - path.len()) as nat,
        ),
        match r {
            Some(v) => v < adj.len() && exists|c: Seq<int>| closed_walk(adj@, c) && c[0] == v,
            None => {
                &&& final(color)[node as int] == 2
                &&& path_ok(adj@, final(color)@, path)
                &&& fin_ok(adj@, final(color)@, final(fin)@)
                &&& forall|x: int|
                    0 <= x < adj.len() && old(color)[x] == 2 ==> #[trigger] final(color)[x] == 2
            },
        },
    decreases adj.len() - path.len(),
{
    let c = color[node];
    proof {
        lemma_distinct_len(path, adj.len() as int);
    }
    if c == 1 {
        proof {
            let k = choose|k: int| 0 <= k < path.len() && path[k] == node as int;
            let walk = path.subrange(k, path.len() as int);
            assert(walk[0] == node as int);
            assert(walk.last() == path.last());
            assert forall|m: int| 0 <= m < walk.len() - 1 implies edge(
                adj@,
                #[trigger] walk[m],
                walk[m + 1],
            ) by {
                assert(walk[m] == path[k + m]);
                assert(walk[m + 1] == path[k + m + 1]);
            }
            assert(closed_walk(adj@, walk));
        }
        return Some(node);
    }
    if c == 2 {
        return None;
    }
    color.set(node, 1);
    let ghost path2 = path.push(node as int);
    proof {
        assert forall|x: int| 0 <= x < color.len() && #[trigger] color[x] == 1 implies path2.contains(
            x,
        ) by {
            if x == node {
                assert(path2[path.len() as int] == x);
            } else {
                assert(old(color)[x] == 1);
                let k = choose|k: int| 0 <= k < path.len() && path[k] == x;
                assert(path2[k] == x);
            }
        }
        assert forall|k: int| 0 <= k < path2.len() - 1 implies edge(
            adj@,
            #[trigger] path2[k],
            path2[k + 1],
        ) by {
            if k < path.len() - 1 {
                assert(path2[k] == path[k]);
                assert(path2[k + 1] == path[k + 1]);
            }
        }
        assert(path_ok(adj@, color@, path2));
        assert forall|x: int| 0 <= x < color.len() && #[trigger] color[x] == 2 implies fin@.contains(
            x,
        ) by {
            assert(old(color)[x] == 2);
        }
        assert(fin_ok(adj@, color@, fin@));
        lemma_distinct_len(path2, adj.len() as int);
    }
    let ghost gray = color@;
    let ghost fuel = (adj.len() - path2.len()) as nat;
    let mut idx: usize = 0;
    while idx < adj[node].len()
        invariant
            node < adj.len(),
            color.len() == adj.len(),
            closed_graph(adj@),
            path2 == path.push(node as int),
            path2.len() <= adj.len(),
            fuel == adj.len() - path2.len(),
            old(color).len() == adj.len(),
            old(color)[node as int] != 1,
            old(color)[node as int] != 2,
            gray == old(color)@.update(node as int, 1u8),
            scan_spec(adj@, gray, node as int, 0, fuel) == scan_spec(
                adj@,
                color@,
                node as int,
                idx as int,
                fuel,
            ),
            path_ok(adj@, color@, path2),
            fin_ok(adj@, color@, fin@),
            idx <= adj[node as int].len(),
            forall|p: int| 0 <= p < idx ==> color[#[trigger] adj[node as int][p] as int] == 2,
            forall|x: int| 0 <= x < adj.len() && old(color)[x] == 2 ==> #[trigger] color[x] == 2,
        decreases adj[node as int].len() - idx,
    {
        let next = adj[node][idx];
        assert(edge(adj@, node as int, next as int)) by {
            assert(adj[node as int]@[idx as int] == next);
        }
        let ghost before = color@;
        match visit(next, adj, color, Ghost(path2), fin) {
            Some(v) => {
                proof {
                    assert(visit_spec(adj@, before, next as int, fuel) == (color@, Some(v as int)));
                    assert(scan_spec(adj@, before, node as int, idx as int, fuel) == (
                        color@,
                        Some(v as int),
                    ));
                    assert(visit_spec(adj@, old(color)@, node as int, (fuel + 1) as nat) == (
                        color@,
                        Some(v as int),
                    ));
                }
                return Some(v);
            },
            None => {},
        }
        idx += 1;
    }
    color.set(node, 2);
    let ghost fin1 = fin@;
    *fin = Ghost(fin1.push(node as int));
    proof {
        let fin2 = fin@;
        assert(color@[node as int] == 2);
        // the path loses its last node
        assert forall|x: int| 0 <= x < color.len() && #[trigger] color[x] == 1 implies path.contains(
            x,
        ) by {
            let k = choose|k: int| 0 <= k < path2.len() && path2[k] == x;
            assert(k < path.len());
            assert(path[k] == x);
        }
        assert forall|k: int| 0 <= k < path.len() implies 0 <= (#[trigger] path[k]) < color.len()
            && color[path[k]] == 1 by {
            assert(path2[k] == path[k]);
            assert(path2[path.len() as int] == node);
        }
        assert forall|k: int| 0 <= k < path.len() - 1 implies edge(
            adj@,
            #[trigger] path[k],
            path[k + 1],
        ) by {
            assert(path2[k] == path[k]);
            assert(path2[k + 1] == path[k + 1]);
        }
        assert forall|k1: int, k2: int| 0 <= k1 < k2 < path.len() implies path[k1] != path[k2] by {
            assert(path2[k1] == path[k1]);
            assert(path2[k2] == path[k2]);
        }
        assert(path_ok(adj@, color@, path));
        // the finished nodes gain `node`
        assert forall|a: int| 0 <= a < fin2.len() implies 0 <= (#[trigger] fin2[a]) < color.len()
            && color[fin2[a]] == 2 by {
            if a < fin1.len() {
                assert(fin2[a] == fin1[a]);
            }
        }
        assert forall|a1: int, a2: int| 0 <= a1 < a2 < fin2.len() implies fin2[a1] != fin2[a2] by {
            assert(fin2[a1] == fin1[a1]);
            if a2 < fin1.len() {
                assert(fin2[a2] == fin1[a2]);
            } else {
                assert(path2[path.len() as int] == node);
            }
        }
        assert forall|x: int| 0 <= x < color.len() && #[trigger] color[x] == 2 implies fin2.contains(
            x,
        ) by {
            if x == node {
                assert(fin2[fin1.len() as int] == x);
            } else {
                let a = choose|a: int| 0 <= a < fin1.len() && fin1[a] == x;
                assert(fin2[a] == x);
            }
        }
        assert forall|a: int, w: int|
            #![trigger edge(adj@, fin2[a], w)]
            0 <= a < fin2.len() && edge(adj@, fin2[a], w) implies exists|b: int|
            0 <= b < a && #[trigger] fin2[b] == w by {
            if a < fin1.len() {
                assert(fin2[a] == fin1[a]);
                assert(edge(adj@, fin1[a], w));
                let b = choose|b: int| 0 <= b < a && #[trigger] fin1[b] == w;
                assert(fin2[b] == w);
            } else {
                let p = choose|p: int| 0 <= p < adj[node as int]@.len() && adj[node as int]@[p] == w;
                assert(color[adj[node as int][p] as int] == 2);
                assert(w != node);
                let b = choose|b: int| 0 <= b < fin1.len() && fin1[b] == w;
                assert(fin2[b] == w);
            }
        }
        assert(fin_ok(adj@, color@, fin2));
    }
    None
}

/// With every node finished, the `k`-th node of a walk finished at least
/// `k` places before the first.
proof fn lemma_descends(adj: Seq<Vec<usize>>, color: Seq<u8>, fin: Seq<int>, c: Seq<int>, k: int)
    requires
        color.len() == adj.len(),
        closed_graph(adj),
        fin_ok(adj, color, fin),
        forall|x: int| 0 <= x < color.len() ==> color[x] == 2,
        c.len() > 0,
        forall|m: int| 0 <= m < c.len() - 1 ==> edge(adj, #[trigger] c[m], c[m + 1]),
        0 <= c[0] < adj.len(),
        0 <= k < c.len(),
    ensures
        exists|a: int, a0: int|
            0 <= a <= a0 - k && a0 < fin.len() && #[trigger] fin[a] == c[k] && #[trigger] fin[a0]
                == c[0],
    decreases k,
{
    if k == 0 {
        assert(color[c[0]] == 2);
        let a = choose|a: int| 0 <= a < fin.len() && fin[a] == c[0];
        assert(fin[a] == c[k] && fin[a] == c[0]);
    } else {
        lemma_descends(adj, color, fin, c, k - 1);
        let (a, a0) = choose|a: int, a0: int|
            0 <= a <= a0 - (k - 1) && a0 < fin.len() && #[trigger] fin[a] == c[k - 1]
                && #[trigger] fin[a0] == c[0];
        assert(edge(adj, c[k - 1], c[k - 1 + 1]));
        assert(edge(adj, fin[a], c[k]));
        let b = choose|b: int| 0 <= b < a && #[trigger] fin[b] == c[k];
        assert(fin[b] == c[k] && fin[a0] == c[0]);
    }
}

/// A node on a closed walk of the graph, or `None` if the graph has none.
pub fn find_cycle(adj: &Vec<Vec<usize>>) -> (r: Option<usize>)
    requires
        closed_graph(adj@),
    ensures
        found(r) == first_back_edge(adj@),
        match r {
            Some(v) => v < adj.len() && exists|c: Seq<int>| closed_walk(adj@, c) && c[0] == v,
            None => forall|c: Seq<int>| !closed_walk(adj@, c),
        },
{
    let n = adj.len();
    let mut color: Vec<u8> = Vec::new();
    while color.len() < n
        invariant
            color.len() <= n,
            forall|x: int| 0 <= x < color.len() ==> color[x] == 0,
        decreases n - color.len(),
    {
        color.push(0);
    }
    let mut fin: Ghost<Seq<int>> = Ghost(Seq::empty());
    let mut t: usize = 0;
    assert(color@ =~= Seq::new(adj.len() as nat, |x: int| 0u8));
    while t < n
        invariant
            n == adj.len(),
            color.len() == n,
            t <= n,
            first_back_edge(adj@) == search_spec(adj@, color@, t as int),
            closed_graph(adj@),
            path_ok(adj@, color@, Seq::<int>::empty()),
            fin_ok(adj@, color@, fin@),
            forall|x: int| 0 <= x < t ==> color[x] == 2,
        decreases n - t,
    {
        match visit(t, adj, &mut color, Ghost(Seq::empty()), &mut fin) {
            Some(v) => {
                return Some(v);
            },
            None => {},
        }
        t += 1;
    }
    proof {
        assert forall|c: Seq<int>| !closed_walk(adj@, c) by {
            if closed_walk(adj@, c) {
                let last = c.len() - 1;
                if c.len() == 1 {
                    assert(c.last() == c[0]);
                } else {
                    assert(edge(adj@, c[0int], c[0int + 1]));
                }
                lemma_descends(adj@, color@, fin@, c, last);
                let (a, a0) = choose|a: int, a0: int|
                    0 <= a <= a0 - last && a0 < fin@.len() && #[trigger] fin@[a] == c[last]
                        && #[trigger] fin@[a0] == c[0];
                assert(edge(adj@, fin@[a], c[0]));
                let b = choose|b: int| 0 <= b < a && #[trigger] fin@[b] == c[0];
                assert(b == a0);
            }
        }
    }
    None
}

/// The task graph of a valid pipeline, by position in the task list.
pub struct Dag {
    /// For each task, the tasks it depends on.
    pub deps: Vec<Vec<usize>>,
    /// For each task, the tasks that depend on it, in ascending order.
    pub dependents: Vec<Vec<usize>>,
}

/// What an error says about the task graph it was raised for.
pub open spec fn explains(e: ValidationError, g: TaskGraph) -> bool {
    match e {
        ValidationError::DuplicateName(name) => exists|j: int|
            first_duplicate(g, j) && name@ == g.names[j],
        ValidationError::UnknownDependency { task, dependency } => {
            &&& g.unique_names()
            &&& exists|i: int, k: int|
                first_unknown(g, i, k) && task@ == g.names[i] && dependency@ == g.deps[i][k]
        },
        ValidationError::CycleDetected(name) => {
            &&& g.unique_names()
            &&& g.deps_known()
            &&& exists|v: int|
                0 <= v < g.len() && on_cycle(g, v) && #[trigger] observed_at(g, v) && name@
                    == g.names[v]
        },
    }
}

/// Task `v` is where the depth-first search over the dependents, which
/// starts from each task in document order, first sees an edge back into
/// its path.
pub open spec fn observed_at(g: TaskGraph, v: int) -> bool {
    exists|deps: Seq<Vec<usize>>, dependents: Seq<Vec<usize>>|
        resolved(g, deps) && #[trigger] inverted(deps, dependents) && first_back_edge(dependents)
            == Some(v)
}

/// An error that explains a graph shows that the graph is not valid.
pub proof fn lemma_error_refutes(e: ValidationError, g: TaskGraph)
    requires
        explains(e, g),
    ensures
        !g.valid(),
{
    match e {
        ValidationError::DuplicateName(name) => {
            let j = choose|j: int| first_duplicate(g, j) && name@ == g.names[j];
            let i = choose|i: int| 0 <= i < j && g.names[i] == g.names[j];
        },
        ValidationError::UnknownDependency { task, dependency } => {
            let (i, k) = choose|i: int, k: int|
                first_unknown(g, i, k) && task@ == g.names[i] && dependency@ == g.deps[i][k];
            assert(unknown(g, i, k));
        },
        ValidationError::CycleDetected(name) => {
            let v = choose|v: int|
                0 <= v < g.len() && on_cycle(g, v) && #[trigger] observed_at(g, v) && name@
                    == g.names[v];
            let c = choose|c: Seq<int>| g.is_cycle(c) && c[0] == v;
        },
    }
}

/// Builds the task graph by position, or says why the tasks are no valid
/// pipeline: a duplicate name, else an unknown dependency, else a cycle.
pub fn analyse(tasks: &Vec<TaskDef>) -> (r: Result<Dag, ValidationError>)
    ensures
        match r {
            Ok(dag) => {
                &&& graph_of(tasks@).valid()
                &&& resolved(graph_of(tasks@), dag.deps@)
                &&& inverted(dag.deps@, dag.dependents@)
            },
            Err(e) => explains(e, graph_of(tasks@)),
        },
{
    let ghost g = graph_of(tasks@);
    match find_duplicate(tasks) {
        Some(j) => {
            return Err(ValidationError::DuplicateName(tasks[j].name.clone()));
        },
        None => {},
    }
    let deps = match resolve(tasks) {
        Ok(deps) => deps,
        Err((i, k)) => {
            return Err(
                ValidationError::UnknownDependency {
                    task: tasks[i].name.clone(),
                    dependency: tasks[i].depends_on[k].clone(),
                },
            );
        },
    };
    proof {
        assert forall|i: int, k: int| 0 <= i < g.len() && 0 <= k < g.deps[i].len() implies g.defines(
            #[trigger] g.deps[i][k],
        ) by {
            assert(g.names[deps[i][k] as int] == g.deps[i][k]);
        }
    }
    let dependents = invert(&deps);
    match find_cycle(&dependents) {
        Some(v) => {
            proof {
                let c = choose|c: Seq<int>| closed_walk(dependents@, c) && c[0] == v;
                lemma_walk_is_cycle(g, deps@, dependents@, c);
                assert(on_cycle(g, v as int));
                assert(inverted(deps@, dependents@));
                assert(observed_at(g, v as int));
            }
            Err(ValidationError::CycleDetected(tasks[v].name.clone()))
        },
        None => {
            proof {
                assert forall|c: Seq<int>| !g.is_cycle(c) by {
                    if g.is_cycle(c) {
                        lemma_cycle_is_walk(g, deps@, dependents@, c);
                    }
                }
            }
            Ok(Dag { deps, dependents })
        },
    }
}

/// Checks that task names are unique, that every dependency names a task of
/// the pipeline and that no task depends on itself through others. The first
/// violation found, in that order, is the error.
pub fn validate_pipeline(p: &Pipeline) -> (r: Result<(), ValidationError>)
    ensures
        r is Ok <==> p.graph().valid(),
        r matches Err(e) ==> explains(e, p.graph()),
{
    match analyse(&p.tasks) {
        Ok(_) => Ok(()),
        Err(e) => {
            proof {
                lemma_error_refutes(e, p.graph());
            }
            Err(e)
        },
    }
}

/// A closed walk over the dependents is a dependency cycle.
proof fn lemma_walk_is_cycle(
    g: TaskGraph,
    deps: Seq<Vec<usize>>,
    dependents: Seq<Vec<usize>>,
    c: Seq<int>,
)
    requires
        g.well_formed(),
        g.unique_names(),
        resolved(g, deps),
        inverted(deps, dependents),
        closed_walk(dependents, c),
    ensures
        g.is_cycle(c),
{
    assert forall|k: int| 0 <= k < c.len() - 1 implies g.depends_on(#[trigger] c[k + 1], c[k]) by {
        assert(edge(dependents, c[k], c[k + 1]));
        lemma_target_in_range(dependents, c[k], c[k + 1]);
        lemma_edges(g, deps, dependents, c[k + 1], c[k]);
    }
    lemma_target_in_range(dependents, c.last(), c[0]);
    lemma_edges(g, deps, dependents, c[0], c.last());
}

/// A dependency cycle is a closed walk over the dependents.
proof fn lemma_cycle_is_walk(
    g: TaskGraph,
    deps: Seq<Vec<usize>>,
    dependents: Seq<Vec<usize>>,
    c: Seq<int>,
)
    requires
        g.well_formed(),
        g.unique_names(),
        resolved(g, deps),
        inverted(deps, dependents),
        g.is_cycle(c),
    ensures
        closed_walk(dependents, c),
{
    assert forall|k: int| 0 <= k < c.len() - 1 implies edge(dependents, #[trigger] c[k], c[k + 1]) by {
        assert(g.depends_on(c[k + 1], c[k]));
        lemma_edges(g, deps, dependents, c[k + 1], c[k]);
    }
    lemma_edges(g, deps, dependents, c[0], c.last());
}

/// An edge of a graph whose successors are nodes ends at a node.
proof fn lemma_target_in_range(adj: Seq<Vec<usize>>, u: int, w: int)
    requires
        closed_graph(adj),
        edge(adj, u, w),
    ensures
        0 <= w < adj.len(),
{
    let p = choose|p: int| 0 <= p < adj[u]@.len() && adj[u]@[p] == w;
    assert(adj[u][p] < adj.len());
}

} // verus!
