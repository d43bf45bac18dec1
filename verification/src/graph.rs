//! The task graph by index: each task's dependencies and dependents as
//! positions in the task list.

use crate::pipeline::{TaskDef, TaskGraph, graph_of};
use vstd::prelude::*;

verus! {

/// How often `x` occurs in `s`.
pub open spec fn count(s: Seq<usize>, x: int) -> nat
    decreases s.len(),
{
    if s.len() == 0 {
        0
    } else {
        count(s.drop_last(), x) + if s.last() == x {
            1nat
        } else {
            0nat
        }
    }
}

/// `x` is an element of `s`.
pub open spec fn occurs(s: Seq<usize>, x: int) -> bool {
    exists|p: int| 0 <= p < s.len() && s[p] == x
}

/// `x` occurs in `s` exactly when its count is positive.
pub proof fn lemma_count_contains(s: Seq<usize>, x: int)
    ensures
        count(s, x) > 0 <==> occurs(s, x),
    decreases s.len(),
{
    if s.len() > 0 {
        lemma_count_contains(s.drop_last(), x);
        if count(s, x) > 0 {
            if s.last() == x {
                assert(s[s.len() - 1] == x);
            } else {
                let p = choose|p: int| 0 <= p < s.drop_last().len() && s.drop_last()[p] == x;
                assert(s[p] == x);
            }
        }
        if exists|p: int| 0 <= p < s.len() && s[p] == x {
            let p = choose|p: int| 0 <= p < s.len() && s[p] == x;
            if p < s.len() - 1 {
                assert(s.drop_last()[p] == x);
            }
        }
    }
}

/// Appending one element raises the count of that element by one and leaves the others.
pub proof fn lemma_count_push(s: Seq<usize>, y: usize, x: int)
    ensures
        count(s.push(y), x) == count(s, x) + if y == x {
            1nat
        } else {
            0nat
        },
{
    assert(s.push(y).drop_last() =~= s);
}

/// `deps[i][k]` is the position of the task that the `k`-th dependency of task `i` names.
pub open spec fn resolved(g: TaskGraph, deps: Seq<Vec<usize>>) -> bool {
    &&& deps.len() == g.len()
    &&& forall|i: int| 0 <= i < g.len() ==> (#[trigger] deps[i]).len() == g.deps[i].len()
    &&& forall|i: int, k: int|
        0 <= i < g.len() && 0 <= k < g.deps[i].len() ==> 0 <= (#[trigger] deps[i][k]) < g.len()
            && g.names[deps[i][k] as int] == g.deps[i][k]
}

/// `dependents[j]` lists the tasks that depend on task `j` in ascending
/// order, once for each time they name it.
pub open spec fn inverted(deps: Seq<Vec<usize>>, dependents: Seq<Vec<usize>>) -> bool {
    &&& dependents.len() == deps.len()
    &&& forall|j: int, p: int, q: int|
        0 <= j < dependents.len() && 0 <= p <= q < dependents[j].len() ==> (
        #[trigger] dependents[j][p]) <= (#[trigger] dependents[j][q])
    &&& forall|j: int, p: int|
        0 <= j < dependents.len() && 0 <= p < dependents[j].len() ==> 0 <= (
        #[trigger] dependents[j][p]) < deps.len()
    &&& forall|i: int, j: int|
        0 <= i < deps.len() && 0 <= j < deps.len() ==> count(dependents[j]@, i) == count(
            deps[i]@,
            j,
        )
}

/// With unique names, task `i` depends on task `j` exactly when `j` is among
/// the resolved dependencies of `i`, and exactly when `i` is among the
/// dependents of `j`.
pub proof fn lemma_edges(
    g: TaskGraph,
    deps: Seq<Vec<usize>>,
    dependents: Seq<Vec<usize>>,
    i: int,
    j: int,
)
    requires
        g.well_formed(),
        g.unique_names(),
        resolved(g, deps),
        inverted(deps, dependents),
        0 <= i < g.len(),
        0 <= j < g.len(),
    ensures
        g.depends_on(i, j) <==> occurs(deps[i]@, j),
        g.depends_on(i, j) <==> occurs(dependents[j]@, i),
{
    lemma_count_contains(deps[i]@, j);
    lemma_count_contains(dependents[j]@, i);
    if g.depends_on(i, j) {
        let k = choose|k: int| 0 <= k < g.deps[i].len() && g.deps[i][k] == g.names[j];
        assert(g.names[deps[i][k] as int] == g.deps[i][k]);
        assert(deps[i]@[k] == j);
    }
    if occurs(deps[i]@, j) {
        let k = choose|k: int| 0 <= k < deps[i]@.len() && deps[i]@[k] == j;
        assert(g.names[deps[i][k] as int] == g.deps[i][k]);
        assert(g.deps[i][k] == g.names[j]);
    }
}

/// The position of the first task named `name`, if there is one.
pub fn position_of(tasks: &Vec<TaskDef>, name: &String) -> (r: Option<usize>)
    ensures
        match r {
            Some(j) => j < tasks.len() && tasks[j as int].name@ == name@ && forall|j2: int|
                0 <= j2 < j ==> tasks[j2].name@ != name@,
            None => !graph_of(tasks@).defines(name@),
        },
{
    let mut j: usize = 0;
    while j < tasks.len()
        invariant
            j <= tasks.len(),
            forall|j2: int| 0 <= j2 < j ==> tasks[j2].name@ != name@,
        decreases tasks.len() - j,
    {
        if tasks[j].name == *name {
            return Some(j);
        }
        j += 1;
    }
    None
}

/// The tasks that depend on each task, from each task's dependencies.
pub fn invert(deps: &Vec<Vec<usize>>) -> (dependents: Vec<Vec<usize>>)
    requires
        forall|i: int, k: int|
            0 <= i < deps.len() && 0 <= k < deps[i].len() ==> (#[trigger] deps[i][k]) < deps.len(),
    ensures
        inverted(deps@, dependents@),
{
    let n = deps.len();
    let mut dependents: Vec<Vec<usize>> = Vec::new();
    while dependents.len() < n
        invariant
            dependents.len() <= n,
            forall|j: int| 0 <= j < dependents.len() ==> (#[trigger] dependents[j]).len() == 0,
        decreases n - dependents.len(),
    {
        dependents.push(Vec::new());
    }
    let mut i: usize = 0;
    while i < n
        invariant
            n == deps.len(),
            dependents.len() == n,
            i <= n,
            forall|i2: int, k: int|
                0 <= i2 < deps.len() && 0 <= k < deps[i2].len() ==> (#[trigger] deps[i2][k])
                    < deps.len(),
            forall|j: int, p: int|
                0 <= j < n && 0 <= p < dependents[j].len() ==> (#[trigger] dependents[j][p]) < i,
            forall|j: int, p: int, q: int|
                0 <= j < n && 0 <= p <= q < dependents[j].len() ==> (#[trigger] dependents[j][p])
                    <= (#[trigger] dependents[j][q]),
            forall|i2: int, j: int|
                0 <= i2 < i && 0 <= j < n ==> count(dependents[j]@, i2) == count(deps[i2]@, j),
        decreases n - i,
    {
        let mut k: usize = 0;
        proof {
            assert forall|j: int| 0 <= j < n implies count(#[trigger] dependents[j]@, i as int)
                == 0 by {
                lemma_count_contains(dependents[j]@, i as int);
                if occurs(dependents[j]@, i as int) {
                    let p = choose|p: int| 0 <= p < dependents[j]@.len() && dependents[j]@[p] == i;
                    assert(dependents[j][p] < i);
                }
            }
        }
        while k < deps[i].len()
            invariant
                n == deps.len(),
                dependents.len() == n,
                i < n,
                k <= deps[i as int].len(),
                forall|i2: int, k: int|
                    0 <= i2 < deps.len() && 0 <= k < deps[i2].len() ==> (#[trigger] deps[i2][k])
                        < deps.len(),
                forall|j: int, p: int|
                    0 <= j < n && 0 <= p < dependents[j].len() ==> (#[trigger] dependents[j][p])
                        <= i,
                forall|j: int, p: int, q: int|
                    0 <= j < n && 0 <= p <= q < dependents[j].len() ==> (
                    #[trigger] dependents[j][p]) <= (#[trigger] dependents[j][q]),
                forall|i2: int, j: int|
                    0 <= i2 < i && 0 <= j < n ==> count(dependents[j]@, i2) == count(
                        deps[i2]@,
                        j,
                    ),
                forall|j: int|
                    0 <= j < n ==> count(#[trigger] dependents[j]@, i as int) == count(
                        deps[i as int]@.take(k as int),
                        j,
                    ),
            decreases deps[i as int].len() - k,
        {
            let j0 = deps[i][k];
            let ghost before = dependents@;
            let mut row: Vec<usize> = Vec::new();
            std::mem::swap(&mut row, &mut dependents[j0]);
            row.push(i);
            dependents.set(j0, row);
            proof {
                let row_i = deps[i as int]@;
                assert(row_i.take(k + 1).drop_last() =~= row_i.take(k as int));
                assert(dependents[j0 as int]@ == before[j0 as int]@.push(i));
                assert forall|j: int, p: int, q: int|
                    0 <= j < n && 0 <= p <= q < dependents[j].len() implies (
                #[trigger] dependents[j][p]) <= (#[trigger] dependents[j][q]) by {
                    if j == j0 {
                        if q < before[j].len() {
                            assert(before[j][p] <= before[j][q]);
                        } else if p < before[j].len() {
                            assert(before[j][p] <= i);
                        }
                    } else {
                        assert(dependents[j] == before[j]);
                        assert(before[j][p] <= before[j][q]);
                    }
                }
                assert forall|i2: int, j: int| 0 <= i2 <= i && 0 <= j < n implies count(
                    dependents[j]@,
                    i2,
                ) == if i2 < i {
                    count(deps[i2]@, j)
                } else {
                    count(row_i.take(k + 1), j)
                } by {
                    if j == j0 {
                        lemma_count_push(before[j0 as int]@, i, i2);
                    } else {
                        assert(dependents[j] == before[j]);
                    }
                }
            }
            k += 1;
        }
        proof {
            assert(deps[i as int]@.take(k as int) =~= deps[i as int]@);
            assert forall|j: int, p: int|
                0 <= j < n && 0 <= p < dependents[j].len() implies (#[trigger] dependents[j][p])
                < i + 1 by {}
        }
        i += 1;
    }
    dependents
}

} // verus!
