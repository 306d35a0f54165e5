//! The task record: the single entity managed by the store.

use vstd::prelude::*;

verus! {

/// Mathematical model of a task: the id, the name as a character sequence,
/// and the completion flag.
pub ghost struct TaskView {
    pub id: u64,
    pub name: Seq<char>,
    pub completed: bool,
}

/// A task record. `id` is the caller-supplied unique key, `name` is free-form
/// text, and `completed` is the completion flag.
pub struct Task {
    pub id: u64,
    pub name: String,
    pub completed: bool,
}

impl View for Task {
    type V = TaskView;

    open spec fn view(&self) -> TaskView {
        TaskView { id: self.id, name: self.name@, completed: self.completed }
    }
}

impl Clone for Task {
    fn clone(&self) -> (r: Self)
        ensures
            r == *self,
    {
        Task { id: self.id, name: self.name.clone(), completed: self.completed }
    }
}

} // verus!
