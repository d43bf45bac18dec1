//! The scheduling decisions of a run: which task may start, and what a
//! completion changes. The caller runs the tasks and reports back.

use crate::graph::{count, inverted, lemma_count_contains, lemma_edges, occurs, resolved};
use crate::interpolate::{bindings, has_token, interpolate_command, interpolated};
use crate::pipeline::{graph_of, Pipeline, TaskDef, TaskGraph};
use crate::validate::{analyse, explains, lemma_error_refutes, ValidationError};
use vstd::prelude::*;

verus! {

/// Where a task stands in its life.
#[derive(Clone, Copy, Debug, PartialEq, Eq, Structural)]
pub enum TaskState {
    /// Some dependency has not delivered a result yet.
    Pending,
    /// All dependencies delivered; waiting for a free slot.
    Ready,
    /// Handed out to run.
    Running,
    /// The command ran to its end and its result was recorded.
    Exited,
    /// The command could not be run to its end.
    Errored,
}

/// How often `Running` occurs in `states`.
pub open spec fn running(states: Seq<TaskState>) -> nat
    decreases states.len(),
{
    if states.len() == 0 {
        0
    } else {
        running(states.drop_last()) + if states.last() == TaskState::Running {
            1nat
        } else {
            0nat
        }
    }
}

/// No element of `s` occurs twice.
pub open spec fn distinct(s: Seq<usize>) -> bool {
    forall|k1: int, k2: int| 0 <= k1 < k2 < s.len() ==> s[k1] != s[k2]
}

/// The state in which a run begins: tasks without dependencies are ready.
pub open spec fn initial_states(g: TaskGraph) -> Seq<TaskState> {
    Seq::new(
        g.names.len(),
        |d: int|
            if g.deps[d].len() == 0 {
                TaskState::Ready
            } else {
                TaskState::Pending
            },
    )
}

/// What a scheduler holds, as plain values.
pub struct SchedulerView {
    pub tasks: Seq<TaskDef>,
    pub states: Seq<TaskState>,
    /// The ready tasks in the order in which they will start.
    pub ready: Seq<usize>,
    pub cap: nat,
    pub stop_on_fail: bool,
    pub aborted: bool,
    pub shutdown: bool,
    /// Name and captured output of each task that exited, in order of completion.
    pub outputs: Seq<(Seq<char>, Seq<char>)>,
    pub vars: Seq<(Seq<char>, Seq<char>)>,
    /// Every task handed out so far, in order.
    pub dispatched: Seq<usize>,
    /// Every task that exited so far, in order.
    pub completed: Seq<usize>,
    /// What each of them left, in the same order.
    pub reports: Seq<TaskReport>,
}

impl SchedulerView {
    /// The dependency structure of the tasks.
    pub open spec fn graph(self) -> TaskGraph {
        graph_of(self.tasks)
    }

    /// Task `d` has been handed out.
    pub open spec fn started(self, d: int) -> bool {
        self.states[d] == TaskState::Running || self.states[d] == TaskState::Exited
            || self.states[d] == TaskState::Errored
    }

    /// A task may be handed out now.
    pub open spec fn can_dispatch(self) -> bool {
        !self.aborted && !self.shutdown && running(self.states) < self.cap && self.ready.len() > 0
    }

    /// A task that is past pending depends only on tasks that have exited.
    pub open spec fn order_ok(self) -> bool {
        forall|d: int, j: int| #[trigger]
            self.graph().depends_on(d, j) && self.states[d] != TaskState::Pending
                ==> self.states[j] == TaskState::Exited
    }

    /// The tasks handed out are exactly those of the dispatch log, which
    /// holds none twice.
    pub open spec fn dispatch_ok(self) -> bool {
        &&& distinct(self.dispatched)
        &&& forall|k: int|
            0 <= k < self.dispatched.len() ==> (#[trigger] self.dispatched[k]) < self.states.len()
                && self.started(self.dispatched[k] as int)
        &&& forall|d: int|
            0 <= d < self.states.len() && #[trigger] self.started(d) ==> occurs(self.dispatched, d)
    }

    /// The queue holds exactly the ready tasks, none twice.
    pub open spec fn queue_ok(self) -> bool {
        &&& distinct(self.ready)
        &&& forall|k: int|
            0 <= k < self.ready.len() ==> (#[trigger] self.ready[k]) < self.states.len()
                && self.states[self.ready[k] as int] == TaskState::Ready
        &&& forall|d: int|
            0 <= d < self.states.len() && #[trigger] self.states[d] == TaskState::Ready ==> occurs(
                self.ready,
                d,
            )
    }

    /// The tasks that exited are exactly those of the completion log, which
    /// holds none twice; each left one output under its name, and one report.
    pub open spec fn record_ok(self) -> bool {
        &&& distinct(self.completed)
        &&& self.outputs.len() == self.completed.len()
        &&& self.reports.len() == self.completed.len()
        &&& forall|p: int|
            0 <= p < self.completed.len() ==> (#[trigger] self.completed[p]) < self.states.len()
                && self.states[self.completed[p] as int] == TaskState::Exited && self.outputs[p].0
                == self.tasks[self.completed[p] as int].name@
        &&& forall|d: int|
            0 <= d < self.states.len() && #[trigger] self.states[d] == TaskState::Exited
                ==> occurs(self.completed, d)
    }

    /// What holds of a scheduler at every moment of a run.
    pub open spec fn inv(self) -> bool {
        &&& self.graph().valid()
        &&& self.states.len() == self.tasks.len()
        &&& self.order_ok()
        &&& running(self.states) <= self.cap
        &&& self.dispatch_ok()
        &&& self.queue_ok()
        &&& self.record_ok()
        &&& self.aborted ==> self.stop_on_fail
    }
}

/// How many entries of `row` point at a task that has not exited.
pub open spec fn unmet(row: Seq<usize>, states: Seq<TaskState>) -> nat
    decreases row.len(),
{
    if row.len() == 0 {
        0
    } else {
        unmet(row.drop_last(), states) + if states[row.last() as int] != TaskState::Exited {
            1nat
        } else {
            0nat
        }
    }
}

/// Nothing is unmet exactly when every entry points at a task that exited.
pub proof fn lemma_unmet_zero(row: Seq<usize>, states: Seq<TaskState>)
    ensures
        unmet(row, states) == 0 <==> forall|k: int|
            0 <= k < row.len() ==> states[#[trigger] row[k] as int] == TaskState::Exited,
        unmet(row, states) <= row.len(),
    decreases row.len(),
{
    if row.len() > 0 {
        lemma_unmet_zero(row.drop_last(), states);
        if unmet(row, states) == 0 {
            assert forall|k: int| 0 <= k < row.len() implies states[#[trigger] row[k] as int]
                == TaskState::Exited by {
                if k < row.len() - 1 {
                    assert(row.drop_last()[k] == row[k]);
                }
            }
        }
        if forall|k: int| 0 <= k < row.len() ==> states[#[trigger] row[k] as int]
            == TaskState::Exited {
            assert forall|k: int| 0 <= k < row.drop_last().len() implies states[#[trigger] row.drop_last()[k] as int]
                == TaskState::Exited by {
                assert(row.drop_last()[k] == row[k]);
            }
            assert(states[row[row.len() - 1] as int] == TaskState::Exited);
        }
    }
}

/// While no task has exited, every entry is unmet.
pub proof fn lemma_unmet_fresh(row: Seq<usize>, states: Seq<TaskState>)
    requires
        forall|d: int| 0 <= d < states.len() ==> states[d] != TaskState::Exited,
        forall|k: int| 0 <= k < row.len() ==> (#[trigger] row[k]) < states.len(),
    ensures
        unmet(row, states) == row.len(),
    decreases row.len(),
{
    if row.len() > 0 {
        assert forall|k: int| 0 <= k < row.drop_last().len() implies (#[trigger] row.drop_last()[k])
            < states.len() by {
            assert(row.drop_last()[k] == row[k]);
        }
        lemma_unmet_fresh(row.drop_last(), states);
        assert(row.last() == row[row.len() - 1]);
    }
}

/// What a change of one state does to the unmet entries of a row: nothing,
/// unless the task exits, which meets every entry that points at it.
pub proof fn lemma_unmet_update(row: Seq<usize>, states: Seq<TaskState>, i: int, v: TaskState)
    requires
        0 <= i < states.len(),
        forall|k: int| 0 <= k < row.len() ==> (#[trigger] row[k]) < states.len(),
        states[i] != TaskState::Exited,
    ensures
        v != TaskState::Exited ==> unmet(row, states.update(i, v)) == unmet(row, states),
        v == TaskState::Exited ==> unmet(row, states.update(i, v)) == unmet(row, states) - count(
            row,
            i,
        ),
        count(row, i) <= unmet(row, states),
    decreases row.len(),
{
    if row.len() > 0 {
        assert forall|k: int| 0 <= k < row.drop_last().len() implies (#[trigger] row.drop_last()[k])
            < states.len() by {
            assert(row.drop_last()[k] == row[k]);
        }
        lemma_unmet_update(row.drop_last(), states, i, v);
        assert(row.last() == row[row.len() - 1]);
    }
}

/// What a change of one state does to the number of running tasks.
pub proof fn lemma_running_update(states: Seq<TaskState>, i: int, v: TaskState)
    requires
        0 <= i < states.len(),
    ensures
        running(states.update(i, v)) == running(states) - (if states[i] == TaskState::Running {
            1int
        } else {
            0int
        }) + (if v == TaskState::Running {
            1int
        } else {
            0int
        }),
    decreases states.len(),
{
    let after = states.update(i, v);
    if i == states.len() - 1 {
        assert(after.drop_last() =~= states.drop_last());
    } else {
        assert(after.drop_last() =~= states.drop_last().update(i, v));
        lemma_running_update(states.drop_last(), i, v);
    }
}

/// Where nothing runs, the number of running tasks is zero.
pub proof fn lemma_running_none(states: Seq<TaskState>)
    requires
        forall|d: int| 0 <= d < states.len() ==> states[d] != TaskState::Running,
    ensures
        running(states) == 0,
    decreases states.len(),
{
    if states.len() > 0 {
        lemma_running_none(states.drop_last());
    }
}

/// A prefix holds an element no more often than the whole.
pub proof fn lemma_count_take(s: Seq<usize>, p: int, x: int)
    requires
        0 <= p <= s.len(),
    ensures
        count(s.take(p), x) <= count(s, x),
        p < s.len() ==> count(s.take(p + 1), x) == count(s.take(p), x) + if s[p] == x {
            1nat
        } else {
            0nat
        },
    decreases s.len(),
{
    if p == s.len() {
        assert(s.take(p) =~= s);
    } else {
        assert(s.take(p) =~= s.drop_last().take(p));
        lemma_count_take(s.drop_last(), p, x);
        assert(s.take(p + 1).drop_last() =~= s.take(p));
    }
}

/// Takes from each count one for every time the task occurs in `row`.
fn settle(indegree: &mut Vec<usize>, row: &Vec<usize>)
    requires
        forall|p: int| 0 <= p < row.len() ==> (#[trigger] row[p]) < old(indegree).len(),
        forall|x: int| 0 <= x < old(indegree).len() ==> count(row@, x) <= #[trigger] old(indegree)[x],
    ensures
        final(indegree).len() == old(indegree).len(),
        forall|x: int|
            0 <= x < old(indegree).len() ==> #[trigger] final(indegree)[x] == old(indegree)[x]
                - count(row@, x),
{
    let mut p: usize = 0;
    assert(row@.take(0) =~= Seq::empty());
    while p < row.len()
        invariant
            p <= row.len(),
            indegree.len() == old(indegree).len(),
            forall|q: int| 0 <= q < row.len() ==> (#[trigger] row[q]) < old(indegree).len(),
            forall|x: int|
                0 <= x < old(indegree).len() ==> count(row@, x) <= #[trigger] old(indegree)[x],
            forall|x: int|
                0 <= x < indegree.len() ==> #[trigger] indegree[x] == old(indegree)[x] - count(
                    row@.take(p as int),
                    x,
                ),
        decreases row.len() - p,
    {
        let d = row[p];
        proof {
            lemma_count_take(row@, p as int, d as int);
            lemma_count_take(row@, p + 1, d as int);
            assert(old(indegree)[d as int] >= count(row@, d as int));
            assert forall|x: int| 0 <= x < indegree.len() implies count(row@.take(p + 1), x)
                == count(row@.take(p as int), x) + if x == d {
                1nat
            } else {
                0nat
            } by {
                lemma_count_take(row@, p as int, x);
            }
        }
        let v = indegree[d];
        indegree.set(d, v - 1);
        p += 1;
    }
    assert(row@.take(row.len() as int) =~= row@);
}

/// The states after the pending tasks of `row` whose count reached zero became ready.
pub open spec fn promoted(states: Seq<TaskState>, indegree: Seq<usize>, row: Seq<usize>) -> Seq<
    TaskState,
> {
    Seq::new(
        states.len(),
        |x: int|
            if occurs(row, x) && states[x] == TaskState::Pending && indegree[x] == 0 {
                TaskState::Ready
            } else {
                states[x]
            },
    )
}

/// Makes ready each pending task of `row` whose count reached zero, and
/// queues it behind the tasks that are ready already.
fn promote(
    states: &mut Vec<TaskState>,
    ready: &mut Vec<usize>,
    indegree: &Vec<usize>,
    row: &Vec<usize>,
)
    requires
        old(states).len() == indegree.len(),
        forall|p: int| 0 <= p < row.len() ==> (#[trigger] row[p]) < indegree.len(),
        forall|p: int, q: int| 0 <= p <= q < row.len() ==> row[p] <= row[q],
    ensures
        final(states)@ == promoted(old(states)@, indegree@, row@),
        final(ready).len() >= old(ready).len(),
        final(ready)@.take(old(ready).len() as int) == old(ready)@,
        forall|k: int|
            old(ready).len() <= k < final(ready).len() ==> (#[trigger] final(ready)[k])
                < indegree.len() && old(states)[final(ready)[k] as int] == TaskState::Pending
                && final(states)[final(ready)[k] as int] == TaskState::Ready,
        forall|k1: int, k2: int|
            old(ready).len() <= k1 < k2 < final(ready).len() ==> final(ready)[k1] < final(ready)[k2],
        forall|x: int|
            0 <= x < indegree.len() && old(states)[x] == TaskState::Pending
                && #[trigger] final(states)[x] == TaskState::Ready ==> occurs(final(ready)@, x),
{
    let ghost start = states@;
    let ghost queue = ready@;
    let mut p: usize = 0;
    proof {
        assert(row@.take(0) =~= Seq::empty());
        assert(states@ =~= promoted(start, indegree@, row@.take(0)));
    }
    while p < row.len()
        invariant
            p <= row.len(),
            states.len() == indegree.len(),
            start.len() == indegree.len(),
            forall|q: int| 0 <= q < row.len() ==> (#[trigger] row[q]) < indegree.len(),
            forall|q1: int, q2: int| 0 <= q1 <= q2 < row.len() ==> row[q1] <= row[q2],
            forall|k: int|
                queue.len() <= k < ready.len() ==> occurs(row@.take(p as int), #[trigger] ready[k] as int),
            states@ == promoted(start, indegree@, row@.take(p as int)),
            ready.len() >= queue.len(),
            ready@.take(queue.len() as int) == queue,
            forall|k: int|
                queue.len() <= k < ready.len() ==> (#[trigger] ready[k]) < indegree.len()
                    && start[ready[k] as int] == TaskState::Pending && states[ready[k] as int]
                    == TaskState::Ready,
            forall|k1: int, k2: int|
                queue.len() <= k1 < k2 < ready.len() ==> ready[k1] < ready[k2],
            forall|x: int|
                0 <= x < indegree.len() && start[x] == TaskState::Pending && #[trigger] states[x]
                    == TaskState::Ready ==> occurs(ready@, x),
        decreases row.len() - p,
    {
        let d = row[p];
        let ghost seen = row@.take(p as int);
        let ghost seen1 = row@.take(p + 1);
        let ghost states0 = states@;
        let ghost ready0 = ready@;
        proof {
            assert(seen1 =~= seen.push(d));
            assert forall|x: int| occurs(seen1, x) == (occurs(seen, x) || x == d) by {
                if occurs(seen, x) {
                    let q = choose|q: int| 0 <= q < seen.len() && seen[q] == x;
                    assert(seen1[q] == x);
                }
                if x == d {
                    assert(seen1[p as int] == x);
                }
                if occurs(seen1, x) {
                    let q = choose|q: int| 0 <= q < seen1.len() && seen1[q] == x;
                    if q < p {
                        assert(seen[q] == x);
                    }
                }
            }
        }
        if indegree[d] == 0 && states[d] == TaskState::Pending {
            states.set(d, TaskState::Ready);
            ready.push(d);
            proof {
                assert(ready@.take(queue.len() as int) =~= ready0.take(queue.len() as int));
                assert forall|x: int|
                    0 <= x < indegree.len() && start[x] == TaskState::Pending
                        && #[trigger] states[x] == TaskState::Ready implies occurs(ready@, x) by {
                    if x == d {
                        assert(ready@[ready0.len() as int] == x);
                    } else {
                        assert(states0[x] == TaskState::Ready);
                        let k = choose|k: int| 0 <= k < ready0.len() && ready0[k] == x;
                        assert(ready@[k] == x);
                    }
                }
                assert forall|k1: int, k2: int|
                    queue.len() <= k1 < k2 < ready.len() implies ready[k1] < ready[k2] by {
                    if k2 == ready0.len() {
                        assert(ready0[k1] == ready[k1]);
                        assert(states0[ready0[k1] as int] == TaskState::Ready);
                        assert(occurs(seen, ready0[k1] as int));
                        let q = choose|q: int| 0 <= q < seen.len() && seen[q] == ready0[k1];
                        assert(row[q] <= row[p as int]);
                    } else {
                        assert(ready0[k1] == ready[k1] && ready0[k2] == ready[k2]);
                    }
                }
                assert forall|k: int| queue.len() <= k < ready.len() implies (#[trigger] ready[k])
                    < indegree.len() && start[ready[k] as int] == TaskState::Pending
                    && states[ready[k] as int] == TaskState::Ready by {
                    if k < ready0.len() {
                        assert(ready0[k] == ready[k]);
                    }
                }
            }
        }
        proof {
            assert(states@ =~= promoted(start, indegree@, seen1));
            assert forall|k: int| queue.len() <= k < ready.len() implies occurs(
                seen1,
                #[trigger] ready[k] as int,
            ) by {
                if k < ready0.len() {
                    assert(ready0[k] == ready[k]);
                    assert(occurs(seen, ready0[k] as int));
                }
            }
        }
        p += 1;
    }
    assert(row@.take(row.len() as int) =~= row@);
}

/// The unmet entries of a row depend only on which tasks have exited.
pub proof fn lemma_unmet_same(row: Seq<usize>, a: Seq<TaskState>, b: Seq<TaskState>)
    requires
        a.len() == b.len(),
        forall|k: int| 0 <= k < row.len() ==> (#[trigger] row[k]) < a.len(),
        forall|j: int|
            0 <= j < a.len() ==> (a[j] == TaskState::Exited) == (b[j] == TaskState::Exited),
    ensures
        unmet(row, a) == unmet(row, b),
    decreases row.len(),
{
    if row.len() > 0 {
        assert forall|k: int| 0 <= k < row.drop_last().len() implies (#[trigger] row.drop_last()[k])
            < a.len() by {
            assert(row.drop_last()[k] == row[k]);
        }
        lemma_unmet_same(row.drop_last(), a, b);
        assert(row.last() == row[row.len() - 1]);
    }
}

/// The number of running tasks depends only on which tasks run.
pub proof fn lemma_running_same(a: Seq<TaskState>, b: Seq<TaskState>)
    requires
        a.len() == b.len(),
        forall|j: int|
            0 <= j < a.len() ==> (a[j] == TaskState::Running) == (b[j] == TaskState::Running),
    ensures
        running(a) == running(b),
    decreases a.len(),
{
    if a.len() > 0 {
        lemma_running_same(a.drop_last(), b.drop_last());
    }
}

/// Nothing is unmet for task `d` exactly when every task it depends on has exited.
pub proof fn lemma_unmet_graph(
    g: TaskGraph,
    deps: Seq<Vec<usize>>,
    dependents: Seq<Vec<usize>>,
    states: Seq<TaskState>,
    d: int,
)
    requires
        g.well_formed(),
        g.unique_names(),
        resolved(g, deps),
        inverted(deps, dependents),
        states.len() == g.len(),
        0 <= d < g.len(),
    ensures
        unmet(deps[d]@, states) == 0 <==> forall|j: int| #[trigger]
            g.depends_on(d, j) ==> states[j] == TaskState::Exited,
{
    lemma_unmet_zero(deps[d]@, states);
    if unmet(deps[d]@, states) == 0 {
        assert forall|j: int| #[trigger] g.depends_on(d, j) implies states[j]
            == TaskState::Exited by {
            lemma_edges(g, deps, dependents, d, j);
            let k = choose|k: int| 0 <= k < deps[d]@.len() && deps[d]@[k] == j;
            assert(states[deps[d]@[k] as int] == TaskState::Exited);
        }
    }
    if forall|j: int| #[trigger] g.depends_on(d, j) ==> states[j] == TaskState::Exited {
        assert forall|k: int| 0 <= k < deps[d]@.len() implies states[#[trigger] deps[d]@[k] as int]
            == TaskState::Exited by {
            let j = deps[d][k] as int;
            lemma_edges(g, deps, dependents, d, j);
            assert(occurs(deps[d]@, j));
            assert(g.depends_on(d, j));
        }
    }
}

/// How a task came back from its run.
#[derive(Debug)]
pub enum Outcome {
    /// The command ran to its end; a code other than 0 is a failure.
    Exited { stdout: String, stderr: String, code: Option<i32> },
    /// The command could not be started, waited for, or finished in time.
    Errored { message: String },
}

impl Outcome {
    /// The task failed: it did not run to its end, or ended with a code other than 0.
    pub open spec fn failed(self) -> bool {
        match self {
            Outcome::Exited { code, .. } => code != Some(0i32),
            Outcome::Errored { .. } => true,
        }
    }
}

/// What a completion means for the run.
#[derive(Clone, Copy, Debug, PartialEq, Eq, Structural)]
pub enum Verdict {
    /// The task named was not running; nothing changed.
    Ignored,
    /// The run goes on.
    Continue,
    /// The run has been aborted; nothing more will be handed out.
    Abort,
}

/// While task `i` has not exited, no count is below the number of times
/// the task occurs among the dependents of `i`.
proof fn lemma_settle_ok(
    deps: Seq<Vec<usize>>,
    dependents: Seq<Vec<usize>>,
    states: Seq<TaskState>,
    indegree: Seq<usize>,
    i: int,
)
    requires
        inverted(deps, dependents),
        states.len() == deps.len(),
        indegree.len() == deps.len(),
        0 <= i < deps.len(),
        states[i] != TaskState::Exited,
        forall|d: int, k: int|
            0 <= d < deps.len() && 0 <= k < deps[d].len() ==> (#[trigger] deps[d][k]) < deps.len(),
        forall|x: int| 0 <= x < deps.len() ==> #[trigger] indegree[x] == unmet(deps[x]@, states),
    ensures
        forall|x: int| 0 <= x < indegree.len() ==> count(dependents[i]@, x) <= #[trigger] indegree[x],
{
    assert forall|x: int| 0 <= x < indegree.len() implies count(dependents[i]@, x)
        <= #[trigger] indegree[x] by {
        lemma_unmet_update(deps[x]@, states, i, TaskState::Exited);
    }
}

/// One task leaves the running state for `v`, and nothing more changes: the
/// order among the tasks holds as before, and one task less is running.
proof fn lemma_leave(
    g: TaskGraph,
    deps: Seq<Vec<usize>>,
    dependents: Seq<Vec<usize>>,
    before: Seq<TaskState>,
    i: int,
    v: TaskState,
)
    requires
        g.well_formed(),
        g.unique_names(),
        resolved(g, deps),
        inverted(deps, dependents),
        before.len() == g.len(),
        0 <= i < g.len(),
        before[i] == TaskState::Running,
        v == TaskState::Exited || v == TaskState::Errored,
        forall|x: int|
            0 <= x < g.len() && before[x] != TaskState::Pending ==> unmet(
                #[trigger] deps[x]@,
                before,
            ) == 0,
    ensures
        running(before.update(i, v)) == running(before) - 1,
        forall|x: int|
            0 <= x < g.len() && before.update(i, v)[x] != TaskState::Pending ==> unmet(
                #[trigger] deps[x]@,
                before.update(i, v),
            ) == 0,
        v == TaskState::Errored ==> forall|x: int|
            0 <= x < g.len() ==> unmet(#[trigger] deps[x]@, before.update(i, v)) == unmet(
                deps[x]@,
                before,
            ),
        forall|d: int, j: int| #[trigger]
            g.depends_on(d, j) && before.update(i, v)[d] != TaskState::Pending ==> before.update(
                i,
                v,
            )[j] == TaskState::Exited,
{
    let after = before.update(i, v);
    lemma_running_update(before, i, v);
    assert forall|x: int| 0 <= x < g.len() implies (after[x] != TaskState::Pending ==> unmet(
        #[trigger] deps[x]@,
        after,
    ) == 0) && (v == TaskState::Errored ==> unmet(deps[x]@, after) == unmet(deps[x]@, before)) by {
        lemma_unmet_update(deps[x]@, before, i, v);
    }
    assert forall|d: int, j: int| #[trigger]
        g.depends_on(d, j) && after[d] != TaskState::Pending implies after[j]
        == TaskState::Exited by {
        lemma_unmet_graph(g, deps, dependents, after, d);
    }
}

/// Task `i` exits and its dependents are settled and promoted: the counts
/// are exact again, and the states are those that the release of `i` gives.
proof fn lemma_release(
    g: TaskGraph,
    deps: Seq<Vec<usize>>,
    dependents: Seq<Vec<usize>>,
    before: Seq<TaskState>,
    after: Seq<TaskState>,
    indeg0: Seq<usize>,
    indeg1: Seq<usize>,
    i: int,
)
    requires
        g.well_formed(),
        g.unique_names(),
        resolved(g, deps),
        inverted(deps, dependents),
        before.len() == g.len(),
        indeg0.len() == g.len(),
        indeg1.len() == g.len(),
        0 <= i < g.len(),
        before[i] == TaskState::Running,
        forall|x: int| 0 <= x < g.len() ==> #[trigger] indeg0[x] == unmet(deps[x]@, before),
        forall|x: int|
            0 <= x < g.len() && before[x] == TaskState::Pending ==> #[trigger] indeg0[x] > 0,
        forall|x: int|
            0 <= x < g.len() && before[x] != TaskState::Pending ==> unmet(
                #[trigger] deps[x]@,
                before,
            ) == 0,
        forall|x: int|
            0 <= x < g.len() ==> #[trigger] indeg1[x] == indeg0[x] - count(dependents[i]@, x),
        after == promoted(before.update(i, TaskState::Exited), indeg1, dependents[i]@),
    ensures
        forall|x: int| 0 <= x < g.len() ==> #[trigger] indeg1[x] == unmet(deps[x]@, after),
        forall|x: int|
            0 <= x < g.len() && after[x] == TaskState::Pending ==> #[trigger] indeg1[x] > 0,
        forall|x: int|
            0 <= x < g.len() && after[x] != TaskState::Pending ==> unmet(
                #[trigger] deps[x]@,
                after,
            ) == 0,
        forall|x: int|
            0 <= x < g.len() ==> #[trigger] after[x] == if before.update(i, TaskState::Exited)[x]
                == TaskState::Pending && (forall|j: int| #[trigger]
                g.depends_on(x, j) ==> before.update(i, TaskState::Exited)[j]
                    == TaskState::Exited) {
                TaskState::Ready
            } else {
                before.update(i, TaskState::Exited)[x]
            },
        forall|d: int, j: int| #[trigger]
            g.depends_on(d, j) && after[d] != TaskState::Pending ==> after[j]
                == TaskState::Exited,
        running(after) == running(before) - 1,
        forall|x: int|
            0 <= x < g.len() ==> (after[x] == TaskState::Ready) == (before[x] == TaskState::Ready
                || (before[x] == TaskState::Pending && after[x] != TaskState::Pending)),
{
    let s1 = before.update(i, TaskState::Exited);
    let row = dependents[i]@;
    lemma_running_update(before, i, TaskState::Exited);
    lemma_running_same(after, s1);
    assert forall|x: int| 0 <= x < g.len() implies unmet(#[trigger] deps[x]@, after) == unmet(
        deps[x]@,
        s1,
    ) && unmet(deps[x]@, s1) == unmet(deps[x]@, before) - count(deps[x]@, i) && count(row, x)
        == count(deps[x]@, i) by {
        lemma_unmet_same(deps[x]@, after, s1);
        lemma_unmet_update(deps[x]@, before, i, TaskState::Exited);
    }
    assert forall|x: int| 0 <= x < g.len() implies indeg1[x] == unmet(deps[x]@, after) by {
        assert(unmet(deps[x]@, after) == unmet(deps[x]@, s1));
    }
    assert forall|x: int| 0 <= x < g.len() && after[x] == TaskState::Pending implies indeg1[x]
        > 0 by {
        assert(unmet(deps[x]@, after) == unmet(deps[x]@, s1));
        lemma_count_contains(row, x);
        assert(indeg0[x] > 0);
    }
    assert forall|x: int| 0 <= x < g.len() && after[x] != TaskState::Pending implies unmet(
        #[trigger] deps[x]@,
        after,
    ) == 0 by {
        assert(indeg1[x] == unmet(deps[x]@, after));
    }
    assert forall|x: int| 0 <= x < g.len() implies #[trigger] after[x] == if s1[x]
        == TaskState::Pending && (forall|j: int| #[trigger]
        g.depends_on(x, j) ==> s1[j] == TaskState::Exited) {
        TaskState::Ready
    } else {
        s1[x]
    } by {
        lemma_unmet_graph(g, deps, dependents, s1, x);
        lemma_count_contains(row, x);
        assert(unmet(deps[x]@, after) == unmet(deps[x]@, s1));
        if s1[x] == TaskState::Pending {
            assert(indeg0[x] > 0);
        }
    }
    assert forall|d: int, j: int| #[trigger]
        g.depends_on(d, j) && after[d] != TaskState::Pending implies after[j]
        == TaskState::Exited by {
        lemma_unmet_graph(g, deps, dependents, after, d);
    }
}

/// The completion log, the outputs and the reports gain task `i`, which
/// exits; the logs are in order as before.
proof fn lemma_log_exit(before: SchedulerView, after: SchedulerView, i: usize)
    requires
        before.record_ok(),
        before.dispatch_ok(),
        before.states.len() == before.tasks.len(),
        before.is_running(i as int),
        after.tasks == before.tasks,
        after.states.len() == before.states.len(),
        forall|x: int|
            0 <= x < before.states.len() ==> (#[trigger] after.states[x] == TaskState::Exited) == (
            x == i || before.states[x] == TaskState::Exited),
        forall|x: int|
            0 <= x < before.states.len() ==> #[trigger] after.started(x) == before.started(x),
        after.dispatched == before.dispatched,
        after.completed == before.completed.push(i),
        after.outputs.len() == before.outputs.len() + 1,
        after.outputs.take(before.outputs.len() as int) == before.outputs,
        after.outputs.last().0 == before.tasks[i as int].name@,
        after.reports.len() == before.reports.len() + 1,
    ensures
        after.record_ok(),
        after.dispatch_ok(),
{
    let m = before.completed.len() as int;
    assert forall|k1: int, k2: int| 0 <= k1 < k2 < after.completed.len() implies after.completed[k1]
        != after.completed[k2] by {
        if k2 == m {
            assert(before.states[before.completed[k1] as int] == TaskState::Exited);
        }
    }
    assert forall|p: int| 0 <= p < after.completed.len() implies (#[trigger] after.completed[p])
        < after.states.len() && after.states[after.completed[p] as int] == TaskState::Exited
        && after.outputs[p].0 == after.tasks[after.completed[p] as int].name@ by {
        if p < m {
            assert(before.states[before.completed[p] as int] == TaskState::Exited);
            assert(after.outputs[p] == after.outputs.take(m)[p]);
        }
    }
    assert forall|d: int|
        0 <= d < after.states.len() && #[trigger] after.states[d]
            == TaskState::Exited implies occurs(after.completed, d) by {
        if d == i {
            assert(after.completed[m] == d);
        } else {
            assert(before.states[d] == TaskState::Exited);
            let k = choose|k: int| 0 <= k < m && before.completed[k] == d;
            assert(after.completed[k] == d);
        }
    }
    assert forall|k: int| 0 <= k < after.dispatched.len() implies (#[trigger] after.dispatched[k])
        < after.states.len() && after.started(after.dispatched[k] as int) by {
        assert(before.started(before.dispatched[k] as int));
    }
    assert forall|d: int|
        0 <= d < after.states.len() && #[trigger] after.started(d) implies occurs(
        after.dispatched,
        d,
    ) by {
        assert(before.started(d));
    }
}

/// The queue grows at its end by the tasks that became ready, and by no other.
proof fn lemma_queue_grow(before: SchedulerView, after: SchedulerView)
    requires
        before.queue_ok(),
        after.states.len() == before.states.len(),
        after.ready.len() >= before.ready.len(),
        after.ready.take(before.ready.len() as int) == before.ready,
        forall|x: int|
            0 <= x < before.states.len() && before.states[x] == TaskState::Ready
                ==> #[trigger] after.states[x] == TaskState::Ready,
        forall|x: int|
            0 <= x < before.states.len() && before.states[x] != TaskState::Ready
                && #[trigger] after.states[x] == TaskState::Ready ==> occurs(after.ready, x),
        forall|k: int|
            before.ready.len() <= k < after.ready.len() ==> (#[trigger] after.ready[k])
                < after.states.len() && before.states[after.ready[k] as int] != TaskState::Ready
                && after.states[after.ready[k] as int] == TaskState::Ready,
        forall|k1: int, k2: int|
            before.ready.len() <= k1 < k2 < after.ready.len() ==> after.ready[k1]
                != after.ready[k2],
    ensures
        after.queue_ok(),
{
    let m = before.ready.len() as int;
    assert forall|k: int| 0 <= k < m implies after.ready[k] == before.ready[k] by {
        assert(after.ready[k] == after.ready.take(m)[k]);
    }
    assert forall|k: int| 0 <= k < after.ready.len() implies (#[trigger] after.ready[k])
        < after.states.len() && after.states[after.ready[k] as int] == TaskState::Ready by {
        if k < m {
            assert(before.states[before.ready[k] as int] == TaskState::Ready);
        }
    }
    assert forall|k1: int, k2: int| 0 <= k1 < k2 < after.ready.len() implies after.ready[k1]
        != after.ready[k2] by {
        if k1 < m {
            assert(before.states[before.ready[k1] as int] == TaskState::Ready);
        }
    }
    assert forall|d: int|
        0 <= d < after.states.len() && #[trigger] after.states[d]
            == TaskState::Ready implies occurs(after.ready, d) by {
        if before.states[d] == TaskState::Ready {
            let k = choose|k: int| 0 <= k < m && before.ready[k] == d;
            assert(after.ready[k] == d);
        }
    }
}

/// A task handed out to run.
#[derive(Debug)]
pub struct Dispatch {
    /// Position of the task in the pipeline.
    pub index: usize,
    pub task: String,
    /// The command to run, with every token substituted or removed.
    pub command: String,
    pub retries: u32,
    pub timeout: Option<u64>,
    /// The backend the task asks for, `"local"` when it names none.
    pub backend: String,
}

/// What became of a task that ran to its end.
#[derive(Debug, Clone)]
pub struct TaskReport {
    pub task: String,
    pub command: String,
    pub stdout: String,
    pub stderr: String,
    /// `None` where the process ended without an exit code.
    pub exit_code: Option<i32>,
}

/// The scheduling state of one run.
pub struct Scheduler {
    tasks: Vec<TaskDef>,
    deps: Vec<Vec<usize>>,
    dependents: Vec<Vec<usize>>,
    indegree: Vec<usize>,
    states: Vec<TaskState>,
    ready: Vec<usize>,
    in_flight: usize,
    concurrency: usize,
    stop_on_fail: bool,
    aborted: bool,
    shutdown: bool,
    outputs: Vec<(String, String)>,
    vars: Vec<(String, String)>,
    reports: Vec<TaskReport>,
    dispatched: Ghost<Seq<usize>>,
    completed: Ghost<Seq<usize>>,
}

impl View for Scheduler {
    type V = SchedulerView;

    closed spec fn view(&self) -> SchedulerView {
        SchedulerView {
            tasks: self.tasks@,
            states: self.states@,
            ready: self.ready@,
            cap: self.concurrency as nat,
            stop_on_fail: self.stop_on_fail,
            aborted: self.aborted,
            shutdown: self.shutdown,
            outputs: bindings(self.outputs@),
            vars: bindings(self.vars@),
            dispatched: self.dispatched@,
            completed: self.completed@,
            reports: self.reports@,
        }
    }
}

impl SchedulerView {
    /// Task `i` is in flight.
    pub open spec fn is_running(self, i: int) -> bool {
        0 <= i < self.states.len() && self.states[i] == TaskState::Running
    }

    /// A failure of task `i` aborts the run.
    pub open spec fn halts_on(self, i: int, failed: bool) -> bool {
        failed && self.stop_on_fail && self.tasks[i].continue_on_fail != Some(true)
    }

    /// In `states`, every task that `d` depends on has exited.
    pub open spec fn deps_exited(self, d: int, states: Seq<TaskState>) -> bool {
        forall|j: int| #[trigger] self.graph().depends_on(d, j) ==> states[j] == TaskState::Exited
    }

    /// The states after task `i` exited and every pending task whose
    /// dependencies have now all exited became ready.
    pub open spec fn released(self, i: int) -> Seq<TaskState> {
        let s1 = self.states.update(i, TaskState::Exited);
        Seq::new(
            s1.len(),
            |d: int|
                if s1[d] == TaskState::Pending && self.deps_exited(d, s1) {
                    TaskState::Ready
                } else {
                    s1[d]
                },
        )
    }

    /// `after` is the state that the completion of the running task `i`
    /// with `outcome` and the command `command` leads to. A failure under
    /// stop-on-fail aborts the run, unless the task is exempt; an aborted
    /// run releases nothing; a task that did not run to its end releases
    /// nothing and leaves no output.
    pub open spec fn completes(
        self,
        after: SchedulerView,
        i: usize,
        command: String,
        outcome: Outcome,
    ) -> bool {
        let halt = self.aborted || self.halts_on(i as int, outcome.failed());
        &&& after.tasks == self.tasks
        &&& after.cap == self.cap
        &&& after.stop_on_fail == self.stop_on_fail
        &&& after.shutdown == self.shutdown
        &&& after.vars == self.vars
        &&& after.dispatched == self.dispatched
        &&& after.aborted == halt
        &&& after.ready.len() >= self.ready.len()
        &&& after.ready.take(self.ready.len() as int) == self.ready
        &&& forall|k1: int, k2: int|
            self.ready.len() <= k1 < k2 < after.ready.len() ==> after.ready[k1] < after.ready[k2]
        &&& match outcome {
            Outcome::Exited { stdout, stderr, code } => {
                &&& after.outputs == self.outputs.push((self.tasks[i as int].name@, stdout@))
                &&& after.completed == self.completed.push(i)
                &&& after.reports == self.reports.push(
                    TaskReport {
                        task: self.tasks[i as int].name,
                        command,
                        stdout,
                        stderr,
                        exit_code: code,
                    },
                )
                &&& after.states == if halt {
                    self.states.update(i as int, TaskState::Exited)
                } else {
                    self.released(i as int)
                }
            },
            Outcome::Errored { .. } => {
                &&& after.outputs == self.outputs
                &&& after.completed == self.completed
                &&& after.reports == self.reports
                &&& after.states == self.states.update(i as int, TaskState::Errored)
                &&& after.ready == self.ready
            },
        }
    }

    /// The state after the first ready task was handed out.
    pub open spec fn dispatch(self) -> SchedulerView {
        SchedulerView {
            states: self.states.update(self.ready[0] as int, TaskState::Running),
            ready: self.ready.skip(1),
            dispatched: self.dispatched.push(self.ready[0]),
            ..self
        }
    }
}

impl Scheduler {
    /// The bookkeeping agrees with the states: each count of unmet
    /// dependencies is exact, and the public invariant holds.
    pub closed spec fn wf(&self) -> bool {
        let g = graph_of(self.tasks@);
        &&& self@.inv()
        &&& resolved(g, self.deps@)
        &&& inverted(self.deps@, self.dependents@)
        &&& self.indegree.len() == self.tasks.len()
        &&& self.in_flight == running(self.states@)
        &&& forall|d: int|
            0 <= d < self.tasks.len() && self.states[d] != TaskState::Pending ==> unmet(
                #[trigger] self.deps[d]@,
                self.states@,
            ) == 0
        &&& !self.aborted ==> forall|d: int|
            0 <= d < self.tasks.len() ==> #[trigger] self.indegree[d] == unmet(
                self.deps[d]@,
                self.states@,
            )
        &&& !self.aborted ==> forall|d: int|
            0 <= d < self.tasks.len() && self.states[d] == TaskState::Pending
                ==> #[trigger] self.indegree[d] > 0
    }

    /// A well-formed scheduler meets the public invariant.
    pub proof fn law_well_formed(&self)
        requires
            self.wf(),
        ensures
            self@.inv(),
    {
    }

    /// Sets up a run of `pipeline` with the outside variables `vars`. A
    /// pipeline that is not valid is refused with the validator's error.
    pub fn new(pipeline: Pipeline, vars: Vec<(String, String)>) -> (r: Result<
        Scheduler,
        ValidationError,
    >)
        ensures
            r is Ok <==> pipeline.graph().valid(),
            match r {
                Ok(s) => {
                    &&& s.wf()
                    &&& s@.inv()
                    &&& s@.tasks == pipeline.tasks@
                    &&& s@.states == initial_states(pipeline.graph())
                    &&& s@.cap == match pipeline.concurrency {
                        Some(c) => c as nat,
                        None => 4nat,
                    }
                    &&& s@.stop_on_fail == (pipeline.stop_on_fail == Some(true))
                    &&& !s@.aborted
                    &&& !s@.shutdown
                    &&& s@.outputs.len() == 0
                    &&& s@.vars == bindings(vars@)
                    &&& s@.dispatched.len() == 0
                    &&& s@.completed.len() == 0
                    &&& s@.reports.len() == 0
                    &&& forall|k1: int, k2: int|
                        0 <= k1 < k2 < s@.ready.len() ==> s@.ready[k1] < s@.ready[k2]
                },
                Err(e) => explains(e, pipeline.graph()),
            },
    {
        let ghost g = pipeline.graph();
        let concurrency = pipeline.concurrency_cap();
        let stop_on_fail = pipeline.stops_on_fail();
        let dag = match analyse(&pipeline.tasks) {
            Ok(dag) => dag,
            Err(e) => {
                proof {
                    lemma_error_refutes(e, g);
                }
                return Err(e);
            },
        };
        let n = pipeline.tasks.len();
        let mut indegree: Vec<usize> = Vec::new();
        let mut states: Vec<TaskState> = Vec::new();
        let mut ready: Vec<usize> = Vec::new();
        let mut d: usize = 0;
        while d < n
            invariant
                d <= n,
                n == pipeline.tasks.len(),
                g == pipeline.graph(),
                resolved(g, dag.deps@),
                indegree.len() == d,
                states.len() == d,
                forall|x: int| 0 <= x < d ==> #[trigger] indegree[x] == dag.deps[x].len(),
                forall|x: int| 0 <= x < d ==> #[trigger] states[x] == initial_states(g)[x],
                forall|k1: int, k2: int| 0 <= k1 < k2 < ready.len() ==> ready[k1] < ready[k2],
                forall|k: int|
                    0 <= k < ready.len() ==> (#[trigger] ready[k]) < d && initial_states(
                        g,
                    )[ready[k] as int] == TaskState::Ready,
                forall|x: int|
                    0 <= x < d && #[trigger] initial_states(g)[x] == TaskState::Ready ==> occurs(
                        ready@,
                        x,
                    ),
            decreases n - d,
        {
            let k = dag.deps[d].len();
            indegree.push(k);
            if k == 0 {
                states.push(TaskState::Ready);
                let ghost before = ready@;
                ready.push(d);
                proof {
                    assert forall|x: int|
                        0 <= x < d + 1 && #[trigger] initial_states(g)[x]
                            == TaskState::Ready implies occurs(ready@, x) by {
                        if x < d {
                            let p = choose|p: int| 0 <= p < before.len() && before[p] == x;
                            assert(ready@[p] == x);
                        } else {
                            assert(ready@[before.len() as int] == x);
                        }
                    }
                }
            } else {
                states.push(TaskState::Pending);
            }
            d += 1;
        }
        let s = Scheduler {
            tasks: pipeline.tasks,
            deps: dag.deps,
            dependents: dag.dependents,
            indegree,
            states,
            ready,
            in_flight: 0,
            concurrency,
            stop_on_fail,
            aborted: false,
            shutdown: false,
            outputs: Vec::new(),
            vars,
            reports: Vec::new(),
            dispatched: Ghost(Seq::empty()),
            completed: Ghost(Seq::empty()),
        };
        proof {
            assert(s.states@ =~= initial_states(g));
            lemma_running_none(s.states@);
            assert forall|x: int| 0 <= x < n implies unmet(#[trigger] s.deps[x]@, s.states@)
                == s.deps[x].len() by {
                lemma_unmet_fresh(s.deps[x]@, s.states@);
            }
            assert(s@.outputs =~= Seq::empty());
            assert(s@.inv());
            assert(s.wf());
        }
        Ok(s)
    }

    /// The number of tasks handed out and not yet reported back.
    pub fn in_flight(&self) -> (r: usize)
        requires
            self.wf(),
        ensures
            r == running(self@.states),
            r <= self@.cap,
    {
        self.in_flight
    }

    /// Whether a failure has ended the run.
    pub fn is_aborted(&self) -> (r: bool)
        ensures
            r == self@.aborted,
    {
        self.aborted
    }

    /// Stops further tasks from being handed out; those in flight go on.
    pub fn request_shutdown(&mut self)
        requires
            old(self).wf(),
        ensures
            final(self).wf(),
            final(self)@.inv(),
            old(self)@.steps_to(final(self)@),
            final(self)@ == (SchedulerView { shutdown: true, ..old(self)@ }),
    {
        self.shutdown = true;
        proof {
            let before = old(self)@;
            let after = self@;
            assert(after == (SchedulerView { shutdown: true, ..before }));
            assert(after.graph() == before.graph());
            assert forall|d: int| after.started(d) == before.started(d) by {}
            assert(after.inv());
        }
    }

    /// The reports of the tasks that exited, in order of completion.
    pub fn reports(&self) -> (r: &Vec<TaskReport>)
        ensures
            r@ == self@.reports,
    {
        &self.reports
    }

    /// Hands out the first ready task, if the run goes on and a slot is free.
    /// Its command is the task's template interpolated with the outputs
    /// recorded so far.
    pub fn next_task(&mut self) -> (r: Option<Dispatch>)
        requires
            old(self).wf(),
        ensures
            final(self).wf(),
            final(self)@.inv(),
            old(self)@.steps_to(final(self)@),
            match r {
                Some(job) => {
                    &&& old(self)@.can_dispatch()
                    &&& job.index == old(self)@.ready[0]
                    &&& final(self)@ == old(self)@.dispatch()
                    &&& job.task@ == old(self)@.tasks[job.index as int].name@
                    &&& job.command@ == interpolated(
                        old(self)@.tasks[job.index as int].run@,
                        old(self)@.outputs,
                        old(self)@.vars,
                    )
                    &&& !has_token(job.command@)
                    &&& job.retries == match old(self)@.tasks[job.index as int].retries {
                        Some(n) => n,
                        None => 0u32,
                    }
                    &&& job.timeout == old(self)@.tasks[job.index as int].timeout
                    &&& job.backend@ == match old(self)@.tasks[job.index as int].backend {
                        Some(b) => b@,
                        None => "local"@,
                    }
                },
                None => !old(self)@.can_dispatch() && final(self)@ == old(self)@,
            },
    {
        if self.aborted || self.shutdown || self.in_flight >= self.concurrency || self.ready.len()
            == 0 {
            return None;
        }
        let d = self.ready.remove(0);
        self.states.set(d, TaskState::Running);
        self.in_flight += 1;
        self.dispatched = Ghost(self.dispatched@.push(d));
        proof {
            let before = old(self)@;
            let after = self@;
            assert(after.ready =~= before.ready.skip(1));
            assert(before.ready[0] == d);
            lemma_running_update(before.states, d as int, TaskState::Running);
            assert forall|x: int| 0 <= x < self.tasks.len() implies unmet(
                #[trigger] self.deps[x]@,
                self.states@,
            ) == unmet(self.deps[x]@, before.states) by {
                lemma_unmet_update(self.deps[x]@, before.states, d as int, TaskState::Running);
            }
            assert(distinct(after.dispatched)) by {
                assert forall|k1: int, k2: int|
                    0 <= k1 < k2 < after.dispatched.len() implies after.dispatched[k1]
                    != after.dispatched[k2] by {
                    if k2 == before.dispatched.len() {
                        assert(before.started(before.dispatched[k1] as int));
                    }
                }
            }
            assert forall|x: int|
                0 <= x < after.states.len() && #[trigger] after.started(x) implies occurs(
                after.dispatched,
                x,
            ) by {
                if x == d {
                    assert(after.dispatched[before.dispatched.len() as int] == x);
                } else {
                    assert(before.started(x));
                    let k = choose|k: int|
                        0 <= k < before.dispatched.len() && before.dispatched[k] == x;
                    assert(after.dispatched[k] == x);
                }
            }
            assert forall|k: int| 0 <= k < after.ready.len() implies (#[trigger] after.ready[k])
                < after.states.len() && after.states[after.ready[k] as int]
                == TaskState::Ready by {
                assert(after.ready[k] == before.ready[k + 1]);
            }
            assert forall|x: int|
                0 <= x < after.states.len() && #[trigger] after.states[x]
                    == TaskState::Ready implies occurs(after.ready, x) by {
                assert(before.states[x] == TaskState::Ready);
                let k = choose|k: int| 0 <= k < before.ready.len() && before.ready[k] == x;
                assert(after.ready[k - 1] == x);
            }
            assert forall|k: int| 0 <= k < after.dispatched.len() implies (
            #[trigger] after.dispatched[k]) < after.states.len() && after.started(
                after.dispatched[k] as int,
            ) by {
                if k < before.dispatched.len() {
                    assert(before.started(before.dispatched[k] as int));
                }
            }
            assert forall|p: int| 0 <= p < after.completed.len() implies (
            #[trigger] after.completed[p]) < after.states.len()
                && after.states[after.completed[p] as int] == TaskState::Exited
                && after.outputs[p].0 == after.tasks[after.completed[p] as int].name@ by {
                assert(before.states[before.completed[p] as int] == TaskState::Exited);
            }
            assert(after.inv());
            assert(after == before.dispatch());
        }
        let command = interpolate_command(self.tasks[d].run.as_str(), &self.outputs, &self.vars);
        let backend = match &self.tasks[d].backend {
            Some(b) => b.clone(),
            None => "local".to_string(),
        };
        Some(
            Dispatch {
                index: d,
                task: self.tasks[d].name.clone(),
                command,
                retries: self.tasks[d].retry_count(),
                timeout: self.tasks[d].timeout,
                backend,
            },
        )
    }

    /// Records that the task of `job` came back with `outcome`. A task that
    /// exited leaves a report and its output, and releases the tasks that
    /// waited for it alone; a failure under stop-on-fail aborts the run
    /// instead, unless the task is exempt. A task that is not in flight is ignored.
    pub fn complete(&mut self, job: &Dispatch, outcome: Outcome) -> (r: Verdict)
        requires
            old(self).wf(),
        ensures
            final(self).wf(),
            final(self)@.inv(),
            old(self)@.steps_to(final(self)@),
            !old(self)@.is_running(job.index as int) ==> r == Verdict::Ignored && final(self)@
                == old(self)@,
            old(self)@.is_running(job.index as int) ==> old(self)@.completes(
                final(self)@,
                job.index,
                job.command,
                outcome,
            ) && r == if final(self)@.aborted {
                Verdict::Abort
            } else {
                Verdict::Continue
            },
    {
        let i = job.index;
        if i >= self.tasks.len() || self.states[i] != TaskState::Running {
            return Verdict::Ignored;
        }
        let exempt = self.tasks[i].tolerates_failure();
        let ghost given = outcome;
        match outcome {
            Outcome::Errored { message } => {
                let halt = self.aborted || (self.stop_on_fail && !exempt);
                self.fail(i, halt);
                proof {
                    assert(self@.ready.take(old(self)@.ready.len() as int) =~= old(self)@.ready);
                    assert(old(self)@.completes(self@, i, job.command, given));
                }
                if halt {
                    Verdict::Abort
                } else {
                    Verdict::Continue
                }
            },
            Outcome::Exited { stdout, stderr, code } => {
                let failed = match code {
                    Some(c) => c != 0,
                    None => true,
                };
                let halt = self.aborted || (failed && self.stop_on_fail && !exempt);
                let report = TaskReport {
                    task: self.tasks[i].name.clone(),
                    command: job.command.clone(),
                    stdout,
                    stderr,
                    exit_code: code,
                };
                self.finish(i, report, halt);
                proof {
                    assert(old(self)@.completes(self@, i, job.command, given));
                }
                if halt {
                    Verdict::Abort
                } else {
                    Verdict::Continue
                }
            },
        }
    }

    /// The running task `i` did not run to its end.
    fn fail(&mut self, i: usize, halt: bool)
        requires
            old(self).wf(),
            old(self)@.is_running(i as int),
            halt == (old(self)@.aborted || old(self)@.halts_on(i as int, true)),
        ensures
            final(self).wf(),
            final(self)@ == (SchedulerView {
                states: old(self)@.states.update(i as int, TaskState::Errored),
                aborted: halt,
                ..old(self)@
            }),
    {
        let ghost before = self@;
        proof {
            lemma_leave(
                before.graph(),
                self.deps@,
                self.dependents@,
                before.states,
                i as int,
                TaskState::Errored,
            );
        }
        self.states.set(i, TaskState::Errored);
        self.in_flight -= 1;
        self.aborted = halt;
        proof {
            let after = self@;
            assert forall|x: int| 0 <= x < before.states.len() implies #[trigger] after.started(x)
                == before.started(x) by {}
            assert(after.dispatch_ok()) by {
                assert forall|k: int| 0 <= k < after.dispatched.len() implies (
                #[trigger] after.dispatched[k]) < after.states.len() && after.started(
                    after.dispatched[k] as int,
                ) by {
                    assert(before.started(before.dispatched[k] as int));
                }
                assert forall|d: int|
                    0 <= d < after.states.len() && #[trigger] after.started(d) implies occurs(
                    after.dispatched,
                    d,
                ) by {
                    assert(before.started(d));
                }
            }
            assert(after.queue_ok()) by {
                assert(after.ready.take(before.ready.len() as int) =~= before.ready);
                lemma_queue_grow(before, after);
            }
            assert(after.record_ok()) by {
                assert forall|p: int| 0 <= p < after.completed.len() implies (
                #[trigger] after.completed[p]) < after.states.len()
                    && after.states[after.completed[p] as int] == TaskState::Exited
                    && after.outputs[p].0 == after.tasks[after.completed[p] as int].name@ by {
                    assert(before.states[before.completed[p] as int] == TaskState::Exited);
                }
            }
            assert(after.order_ok());
        }
    }

    /// The running task `i` exited and left `report`.
    fn finish(&mut self, i: usize, report: TaskReport, halt: bool)
        requires
            old(self).wf(),
            old(self)@.is_running(i as int),
            halt ==> old(self)@.aborted || old(self)@.stop_on_fail,
            !halt ==> !old(self)@.aborted,
            report.task == old(self)@.tasks[i as int].name,
        ensures
            final(self).wf(),
            final(self)@.tasks == old(self)@.tasks,
            final(self)@.cap == old(self)@.cap,
            final(self)@.stop_on_fail == old(self)@.stop_on_fail,
            final(self)@.shutdown == old(self)@.shutdown,
            final(self)@.vars == old(self)@.vars,
            final(self)@.dispatched == old(self)@.dispatched,
            final(self)@.aborted == halt,
            final(self)@.ready.len() >= old(self)@.ready.len(),
            final(self)@.ready.take(old(self)@.ready.len() as int) == old(self)@.ready,
            forall|k1: int, k2: int|
                old(self)@.ready.len() <= k1 < k2 < final(self)@.ready.len()
                    ==> final(self)@.ready[k1] < final(self)@.ready[k2],
            final(self)@.outputs == old(self)@.outputs.push((report.task@, report.stdout@)),
            final(self)@.completed == old(self)@.completed.push(i),
            final(self)@.reports == old(self)@.reports.push(report),
            final(self)@.states == if halt {
                old(self)@.states.update(i as int, TaskState::Exited)
            } else {
                old(self)@.released(i as int)
            },
    {
        let ghost before = self@;
        let ghost g = before.graph();
        let ghost indeg0 = self.indegree@;
        let ghost s1 = before.states.update(i as int, TaskState::Exited);
        proof {
            lemma_leave(g, self.deps@, self.dependents@, before.states, i as int, TaskState::Exited);
            if !halt {
                lemma_settle_ok(self.deps@, self.dependents@, before.states, indeg0, i as int);
            }
        }
        self.states.set(i, TaskState::Exited);
        self.in_flight -= 1;
        self.outputs.push((report.task.clone(), report.stdout.clone()));
        self.reports.push(report);
        self.completed = Ghost(self.completed@.push(i));
        self.aborted = halt;
        if !halt {
            settle(&mut self.indegree, &self.dependents[i]);
            promote(&mut self.states, &mut self.ready, &self.indegree, &self.dependents[i]);
        }
        proof {
            let after = self@;
            assert(after.outputs =~= before.outputs.push((report.task@, report.stdout@)));
            assert(after.outputs.take(before.outputs.len() as int) =~= before.outputs);
            assert(after.ready.take(before.ready.len() as int) =~= before.ready);
            if !halt {
                lemma_release(
                    g,
                    self.deps@,
                    self.dependents@,
                    before.states,
                    after.states,
                    indeg0,
                    self.indegree@,
                    i as int,
                );
                assert(after.states =~= before.released(i as int));
            }
            assert forall|x: int| 0 <= x < before.states.len() implies (#[trigger] after.states[x]
                == TaskState::Exited) == (x == i || before.states[x] == TaskState::Exited) by {}
            assert forall|x: int| 0 <= x < before.states.len() implies #[trigger] after.started(x)
                == before.started(x) by {}
            lemma_log_exit(before, after, i);
            lemma_queue_grow(before, after);
            assert(after.order_ok());
        }
    }
}

/// Task `j` is among the tasks that `d` depends on, directly or through others.
pub open spec fn depends_transitively(g: TaskGraph, d: int, j: int) -> bool {
    exists|path: Seq<int>| #[trigger] leads(g, path, d, j)
}

/// `path` leads from `d` to `j`, each task depending on the next.
pub open spec fn leads(g: TaskGraph, path: Seq<int>, d: int, j: int) -> bool {
    &&& path.len() >= 2
    &&& path[0] == d
    &&& path.last() == j
    &&& forall|k: int| 0 <= k < path.len() - 1 ==> g.depends_on(#[trigger] path[k], path[k + 1])
}

/// Along a path that starts at a task past pending, every later task has exited.
proof fn lemma_path_exited(v: SchedulerView, path: Seq<int>, k: int)
    requires
        v.inv(),
        path.len() >= 2,
        v.states[path[0]] != TaskState::Pending,
        forall|m: int| 0 <= m < path.len() - 1 ==> v.graph().depends_on(#[trigger] path[m], path[m + 1]),
        1 <= k < path.len(),
    ensures
        v.states[path[k]] == TaskState::Exited,
    decreases k,
{
    if k > 1 {
        lemma_path_exited(v, path, k - 1);
    }
    assert(v.graph().depends_on(path[k - 1], path[k - 1 + 1]));
}

/// A task that is ready, running or done depends, directly and through
/// others, only on tasks that have exited, each of them in the completion
/// log with its output bound to its name.
pub proof fn law_dependencies_exited(v: SchedulerView, d: int, j: int)
    requires
        v.inv(),
        v.states[d] != TaskState::Pending,
        depends_transitively(v.graph(), d, j),
    ensures
        0 <= j < v.states.len(),
        v.states[j] == TaskState::Exited,
        exists|p: int|
            0 <= p < v.completed.len() && v.completed[p] == j && #[trigger] v.outputs[p].0
                == v.tasks[j].name@,
{
    let path = choose|path: Seq<int>| #[trigger] leads(v.graph(), path, d, j);
    lemma_path_exited(v, path, path.len() - 1);
    assert(v.graph().depends_on(path[path.len() - 2], path[path.len() - 2 + 1]));
    let p = choose|p: int| 0 <= p < v.completed.len() && v.completed[p] == j;
    assert(v.outputs[p].0 == v.tasks[v.completed[p] as int].name@);
}

/// When a task is handed out, every task it depends on, directly or through
/// others, has exited before.
pub proof fn law_dispatch_after_dependencies(v: SchedulerView, j: int)
    requires
        v.inv(),
        v.can_dispatch(),
        depends_transitively(v.graph(), v.ready[0] as int, j),
    ensures
        v.states[j] == TaskState::Exited,
        occurs(v.completed, j),
{
    assert(v.states[v.ready[0] as int] == TaskState::Ready);
    law_dependencies_exited(v, v.ready[0] as int, j);
}

/// No more tasks are in flight than the cap allows.
pub proof fn law_concurrency_bound(v: SchedulerView)
    requires
        v.inv(),
    ensures
        running(v.states) <= v.cap,
{
}

/// No task stands twice in the log of the tasks handed out.
pub proof fn law_dispatched_once(v: SchedulerView, k1: int, k2: int)
    requires
        v.inv(),
        0 <= k1 < v.dispatched.len(),
        0 <= k2 < v.dispatched.len(),
        k1 != k2,
    ensures
        v.dispatched[k1] != v.dispatched[k2],
{
    if k1 < k2 {
    } else {
        assert(v.dispatched[k2] != v.dispatched[k1]);
    }
}

impl SchedulerView {
    /// `after` is reached from this state by one call: a task handed out, a
    /// completion recorded, a shutdown requested, or a call that changed nothing.
    pub open spec fn steps_to(self, after: SchedulerView) -> bool {
        ||| after == self
        ||| self.can_dispatch() && after == self.dispatch()
        ||| after == (SchedulerView { shutdown: true, ..self })
        ||| exists|i: usize, command: String, outcome: Outcome|
            self.is_running(i as int) && #[trigger] self.completes(after, i, command, outcome)
    }
}

/// A failure under stop-on-fail aborts the run, unless the task is exempt.
pub proof fn law_failure_aborts(
    before: SchedulerView,
    after: SchedulerView,
    i: usize,
    command: String,
    outcome: Outcome,
)
    requires
        before.completes(after, i, command, outcome),
        outcome.failed(),
        before.stop_on_fail,
        before.tasks[i as int].continue_on_fail != Some(true),
    ensures
        after.aborted,
        !after.can_dispatch(),
{
}

/// Once the run is aborted, it stays aborted and no task is handed out any more.
pub proof fn law_abort_is_final(before: SchedulerView, after: SchedulerView)
    requires
        before.aborted,
        before.steps_to(after),
    ensures
        after.aborted,
        after.dispatched == before.dispatched,
        !after.can_dispatch(),
{
}

/// Once a shutdown is requested, no task is handed out any more.
pub proof fn law_shutdown_is_final(before: SchedulerView, after: SchedulerView)
    requires
        before.shutdown,
        before.steps_to(after),
    ensures
        after.shutdown,
        after.dispatched == before.dispatched,
{
}

/// A task that was handed out is never pending or ready again, and the log
/// of the tasks handed out only grows at its end.
pub proof fn law_no_second_dispatch(before: SchedulerView, after: SchedulerView, d: int)
    requires
        before.inv(),
        before.steps_to(after),
        0 <= d < before.states.len(),
        before.started(d),
    ensures
        after.started(d),
        before.dispatched.len() <= after.dispatched.len(),
        after.dispatched.take(before.dispatched.len() as int) == before.dispatched,
{
    assert(before.dispatched.take(before.dispatched.len() as int) =~= before.dispatched);
    if after == before {
    } else if before.can_dispatch() && after == before.dispatch() {
        assert(before.states[before.ready[0] as int] == TaskState::Ready);
        assert(after.dispatched.take(before.dispatched.len() as int) =~= before.dispatched);
    } else if after == (SchedulerView { shutdown: true, ..before }) {
    } else {
        let (i, command, outcome) = choose|i: usize, command: String, outcome: Outcome|
            before.is_running(i as int) && #[trigger] before.completes(after, i, command, outcome);
    }
}

} // verus!
