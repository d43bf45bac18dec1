//! The pipeline document: tasks, their dependencies and their policies.

use vstd::prelude::*;

verus! {

/// One task of a pipeline.
#[derive(Debug, Clone)]
pub struct TaskDef {
    pub name: String,
    pub depends_on: Vec<String>,
    pub run: String,
    pub retries: Option<u32>,
    /// Wall-clock limit in seconds.
    pub timeout: Option<u64>,
    pub backend: Option<String>,
    /// Reserved; nothing reads it.
    pub cache_key: Option<String>,
    pub continue_on_fail: Option<bool>,
}

/// A pipeline: an ordered list of tasks and the run-wide settings.
#[derive(Debug, Clone)]
pub struct Pipeline {
    pub name: Option<String>,
    pub concurrency: Option<usize>,
    pub stop_on_fail: Option<bool>,
    pub tasks: Vec<TaskDef>,
}

/// The views of a sequence of strings.
pub open spec fn texts(v: Seq<String>) -> Seq<Seq<char>> {
    Seq::new(v.len(), |k: int| v[k]@)
}

/// The dependency structure of a task list: the name of each task and the
/// names it depends on, both in document order.
pub struct TaskGraph {
    pub names: Seq<Seq<char>>,
    pub deps: Seq<Seq<Seq<char>>>,
}

/// The dependency structure of `tasks`.
pub open spec fn graph_of(tasks: Seq<TaskDef>) -> TaskGraph {
    TaskGraph {
        names: Seq::new(tasks.len(), |i: int| tasks[i].name@),
        deps: Seq::new(tasks.len(), |i: int| texts(tasks[i].depends_on@)),
    }
}

impl TaskGraph {
    /// Number of tasks.
    pub open spec fn len(self) -> int {
        self.names.len() as int
    }

    /// Both components describe the same tasks.
    pub open spec fn well_formed(self) -> bool {
        self.deps.len() == self.names.len()
    }

    /// No two tasks share a name.
    pub open spec fn unique_names(self) -> bool {
        forall|i: int, j: int| 0 <= i < j < self.len() ==> self.names[i] != self.names[j]
    }

    /// `name` is the name of some task.
    pub open spec fn defines(self, name: Seq<char>) -> bool {
        exists|j: int| 0 <= j < self.len() && self.names[j] == name
    }

    /// Every dependency of every task names a task of the pipeline.
    pub open spec fn deps_known(self) -> bool {
        forall|i: int, k: int|
            0 <= i < self.len() && 0 <= k < self.deps[i].len() ==> self.defines(
                #[trigger] self.deps[i][k],
            )
    }

    /// Task `i` lists task `j` among its dependencies: an edge from `j` to `i`.
    pub open spec fn depends_on(self, i: int, j: int) -> bool {
        &&& 0 <= i < self.len()
        &&& 0 <= j < self.len()
        &&& self.deps[i].contains(self.names[j])
    }

    /// `c` is a closed walk along edges: each task of `c` is a dependency of
    /// the next one, and the last is a dependency of the first.
    pub open spec fn is_cycle(self, c: Seq<int>) -> bool {
        &&& c.len() > 0
        &&& forall|k: int| 0 <= k < c.len() - 1 ==> self.depends_on(#[trigger] c[k + 1], c[k])
        &&& self.depends_on(c[0], c.last())
    }

    /// No closed walk along edges exists.
    pub open spec fn acyclic(self) -> bool {
        forall|c: Seq<int>| !self.is_cycle(c)
    }

    /// The three conditions a runnable pipeline meets.
    pub open spec fn valid(self) -> bool {
        &&& self.unique_names()
        &&& self.deps_known()
        &&& self.acyclic()
    }
}

impl Pipeline {
    /// The dependency structure of the pipeline's tasks.
    pub open spec fn graph(&self) -> TaskGraph {
        graph_of(self.tasks@)
    }

    /// The concurrency cap: 4 unless the document sets one.
    pub fn concurrency_cap(&self) -> (r: usize)
        ensures
            r == match self.concurrency {
                Some(c) => c,
                None => 4usize,
            },
    {
        match self.concurrency {
            Some(c) => c,
            None => 4,
        }
    }

    /// Whether the first failure aborts the run: `false` unless the document says so.
    pub fn stops_on_fail(&self) -> (r: bool)
        ensures
            r == (self.stop_on_fail == Some(true)),
    {
        match self.stop_on_fail {
            Some(b) => b,
            None => false,
        }
    }
}

impl TaskDef {
    /// How many times a failed run is tried again: 0 unless the document sets it.
    pub fn retry_count(&self) -> (r: u32)
        ensures
            r == match self.retries {
                Some(n) => n,
                None => 0u32,
            },
    {
        match self.retries {
            Some(n) => n,
            None => 0,
        }
    }

    /// True when a failure of the task does not end the run.
    pub fn tolerates_failure(&self) -> (r: bool)
        ensures
            r == (self.continue_on_fail == Some(true)),
    {
        match self.continue_on_fail {
            Some(b) => b,
            None => false,
        }
    }
}

} // verus!
