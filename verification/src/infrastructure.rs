//! A replaceable adapter implementing the domain's persistence port.

use vstd::prelude::*;
use std::collections::BTreeMap;
use crate::domain::{RepositoryError, Task, TaskRepository, TaskView};

verus! {

broadcast use vstd::laws_cmp::group_laws_cmp;

/// Tasks kept in memory, keyed by identifier.
#[derive(Debug)]
pub struct InMemoryTaskRepository {
    tasks: TaskStore,
}

// The storage representation is not part of the public interface.
#[derive(Debug)]
pub(crate) struct TaskStore {
    entries: BTreeMap<u64, Task>,
}

impl View for InMemoryTaskRepository {
    type V = Map<u64, TaskView>;

    closed spec fn view(&self) -> Map<u64, TaskView> {
        self.tasks.entries@.map_values(|t: Task| t@)
    }
}

/// The stored tasks after inserting `t`: unchanged when its identifier is
/// taken.
pub open spec fn after_insert(m: Map<u64, TaskView>, t: TaskView) -> Map<u64, TaskView> {
    if m.contains_key(t.id) {
        m
    } else {
        m.insert(t.id, t)
    }
}

/// The stored task with identifier `id`, if any.
pub open spec fn lookup(m: Map<u64, TaskView>, id: u64) -> Option<TaskView> {
    if m.contains_key(id) {
        Some(m[id])
    } else {
        None
    }
}

/// A task read back after it was inserted under a free identifier is the
/// task that was inserted; inserting under a taken identifier leaves what
/// any read gives unchanged.
pub proof fn lemma_read_after_insert(m: Map<u64, TaskView>, t: TaskView, id: u64)
    ensures
        !m.contains_key(t.id) ==> lookup(after_insert(m, t), t.id) == Some(t),
        m.contains_key(t.id) ==> lookup(after_insert(m, t), id) == lookup(m, id),
        id != t.id ==> lookup(after_insert(m, t), id) == lookup(m, id),
{
}

impl Default for InMemoryTaskRepository {
    fn default() -> (r: Self)
        ensures
            r@ == Map::<u64, TaskView>::empty(),
    {
        let r = InMemoryTaskRepository { tasks: TaskStore { entries: BTreeMap::new() } };
        assert(r@ =~= Map::<u64, TaskView>::empty());
        r
    }
}

impl TaskRepository for InMemoryTaskRepository {
    /// Stores a copy of the task unless its identifier is taken; the stored
    /// tasks are then unchanged.
    fn insert(&mut self, task: &Task) -> (r: Result<(), RepositoryError>)
        ensures
            final(self)@ == after_insert(old(self)@, task@),
            r == if old(self)@.contains_key(task@.id) {
                Err::<(), RepositoryError>(RepositoryError::DuplicateId(task@.id))
            } else {
                Ok(())
            },
    {
        let id = task.id();
        if self.tasks.entries.contains_key(&id) {
            return Err(RepositoryError::DuplicateId(id));
        }
        let copy = task.clone();
        self.tasks.entries.insert(id, copy);
        assert(self@ =~= old(self)@.insert(task@.id, task@));
        Ok(())
    }

    /// A copy of the task with this identifier, if one is stored.
    fn find(&self, id: u64) -> (r: Result<Option<Task>, RepositoryError>)
        ensures
            match r {
                Ok(Some(t)) => lookup(self@, id) == Some(t@),
                Ok(None) => lookup(self@, id) == None::<TaskView>,
                Err(_) => false,
            },
    {
        match self.tasks.entries.get(&id) {
            Some(t) => Ok(Some(t.clone())),
            None => Ok(None),
        }
    }
}

} // verus!
