//! Hooks that may change a task before it is scheduled.

use crate::pipeline::TaskDef;
use vstd::prelude::*;

verus! {

/// A hook that looks at each task before the run and may change it.
pub trait Plugin: Send + Sync {
    /// The name of the plugin.
    fn name(&self) -> &str;

    /// Looks at `task`, with the variables of the run in `globals`; an
    /// error refuses the task.
    fn preprocess(&self, task: &mut TaskDef, globals: &Vec<(String, String)>) -> Result<(), String>;
}

/// The plugin that changes nothing.
#[derive(Debug, Clone, Copy)]
pub struct NoopPlugin;

impl Plugin for NoopPlugin {
    fn name(&self) -> (r: &str)
        ensures
            r@ == "noop"@,
    {
        "noop"
    }

    fn preprocess(&self, task: &mut TaskDef, globals: &Vec<(String, String)>) -> (r: Result<
        (),
        String,
    >)
        ensures
            r is Ok,
            *final(task) == *old(task),
    {
        Ok(())
    }
}

} // verus!
