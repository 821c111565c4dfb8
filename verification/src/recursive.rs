//! An almost-recursive task: running `recur(depth)` with a positive depth
//! hands a new task `recur(depth - 1)` to [`spawn`], through the separate
//! function [`spawn_recur`].
use vstd::prelude::*;

verus! {

/// The task `recur(depth)`, not yet run.
#[derive(PartialEq, Eq, Structural, Debug, Clone, Copy)]
pub struct Recur {
    pub depth: usize,
}

/// The task that recurs `depth` times; creating it runs nothing.
pub fn recur(depth: usize) -> (task: Recur)
    ensures
        task.depth == depth,
{
    Recur { depth }
}

/// The task that `recur(depth)` spawns when run, if any.
pub open spec fn spawned_by(depth: usize) -> Option<Recur> {
    if depth == 0 {
        None
    } else {
        Some(Recur { depth: (depth - 1) as usize })
    }
}

/// Running `recur(d)` spawns a task exactly one level down when `d > 0`,
/// and nothing at depth zero.
pub proof fn lemma_spawns_one_level_down(depth: usize)
    ensures
        depth == 0 <==> spawned_by(depth) is None,
        depth > 0 ==> (spawned_by(depth) is Some && spawned_by(depth)->0.depth + 1 == depth),
{
}

impl Recur {
    /// Runs the task: at depth zero it stops; otherwise it spawns
    /// `recur(depth - 1)` and returns the spawned task's description.
    pub fn run(self) -> (spawned: Option<Recur>)
        ensures
            spawned == spawned_by(self.depth),
            self.depth == 0 ==> spawned is None,
            self.depth > 0 ==> (spawned is Some && spawned->0.depth + 1 == self.depth),
    {
        if self.depth == 0 {
            return None;
        }
        Some(spawn_recur(self.depth - 1))
    }
}

/// Spawns the task `recur(depth)`, and returns its description.
pub fn spawn_recur(depth: usize) -> (spawned: Recur)
    ensures
        spawned.depth == depth,
{
    let task = recur(depth);
    spawn(task);
    task
}

/// Accepts a task to run and drops it without running it.
pub fn spawn<F: Send + 'static>(_future: F) {
}

} // verus!
