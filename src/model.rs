//! Tasks and the ordered list that holds them.
use vstd::prelude::*;

verus! {

/// The mathematical value of a task.
pub struct TaskV {
    pub name: Seq<char>,
    pub author: Option<Seq<char>>,
    pub creation: u64,
    pub completed: Option<u64>,
}

/// One to-do item. `completed` is `None` while the task is open and holds the
/// completion time (Unix seconds) once it is done.
#[derive(Debug)]
pub struct Task {
    pub name: String,
    pub author: Option<String>,
    pub creation: u64,
    pub completed: Option<u64>,
}

pub open spec fn opt_str_view(o: Option<String>) -> Option<Seq<char>> {
    match o {
        Some(s) => Some(s@),
        None => None,
    }
}

impl View for Task {
    type V = TaskV;

    open spec fn view(&self) -> TaskV {
        TaskV {
            name: self.name@,
            author: opt_str_view(self.author),
            creation: self.creation,
            completed: self.completed,
        }
    }
}

/// The whole persisted unit: tasks in insertion order. A task's identifier is
/// its 1-based position in `tasks`.
#[derive(Debug)]
pub struct List {
    pub tasks: Vec<Task>,
}

impl View for List {
    type V = Seq<TaskV>;

    open spec fn view(&self) -> Seq<TaskV> {
        tasks_view(self.tasks@)
    }
}

/// The values of a sequence of tasks.
pub open spec fn tasks_view(v: Seq<Task>) -> Seq<TaskV> {
    v.map_values(|t: Task| t@)
}

impl Task {
    /// A new open task with no author, created at `creation`.
    pub fn new(name: String, creation: u64) -> (r: Task)
        ensures
            r@ == (TaskV { name: name@, author: None, creation, completed: None }),
    {
        Task { name, author: None, creation, completed: None }
    }
}

impl List {
    /// The empty list.
    pub fn new() -> (r: List)
        ensures
            r@ == Seq::<TaskV>::empty(),
    {
        List { tasks: Vec::new() }
    }

    /// Appends `task` at the end of the list.
    pub fn add_task(&mut self, task: Task)
        ensures
            final(self)@ == old(self)@.push(task@),
    {
        self.tasks.push(task);
        proof {
            assert(self@ =~= old(self)@.push(task@));
        }
    }
}


/// A task that is still open, with its identifier: its 1-based position in
/// the whole list.
#[derive(Debug)]
pub struct Entry {
    pub id: usize,
    pub task: Task,
}

impl View for Entry {
    type V = (nat, TaskV);

    open spec fn view(&self) -> (nat, TaskV) {
        (self.id as nat, self.task@)
    }
}

pub open spec fn entries_view(v: Seq<Entry>) -> Seq<(nat, TaskV)> {
    v.map_values(|e: Entry| e@)
}

/// The open tasks of `l`, in order, each with its position in `l` counted
/// from 1.
pub open spec fn pending(l: Seq<TaskV>) -> Seq<(nat, TaskV)>
    decreases l.len(),
{
    if l.len() == 0 {
        Seq::empty()
    } else if l.last().completed is None {
        pending(l.drop_last()).push((l.len(), l.last()))
    } else {
        pending(l.drop_last())
    }
}

/// `t` marked as completed at `now`.
pub open spec fn completed_at(t: TaskV, now: u64) -> TaskV {
    TaskV { completed: Some(now), ..t }
}

impl Task {
    /// An equal task that owns its own strings.
    pub fn duplicate(&self) -> (r: Task)
        ensures
            r@ == self@,
    {
        let author = match &self.author {
            Some(a) => Some(a.clone()),
            None => None,
        };
        Task { name: self.name.clone(), author, creation: self.creation, completed: self.completed }
    }
}

impl List {
    /// Marks the task at 0-based `index` as completed at `now`; `false`, with
    /// nothing changed, where there is no such task.
    pub fn complete(&mut self, index: usize, now: u64) -> (found: bool)
        ensures
            found == (index < old(self)@.len()),
            found ==> final(self)@ == old(self)@.update(
                index as int,
                completed_at(old(self)@[index as int], now),
            ),
            !found ==> final(self)@ == old(self)@,
    {
        if index < self.tasks.len() {
            let ghost before = self@;
            let mut t = self.tasks.remove(index);
            t.completed = Some(now);
            self.tasks.insert(index, t);
            assert(self@ =~= before.update(index as int, completed_at(before[index as int], now)));
            true
        } else {
            false
        }
    }

    /// Removes and returns the task at 0-based `index`; `None`, with nothing
    /// changed, where there is no such task.
    pub fn delete(&mut self, index: usize) -> (r: Option<Task>)
        ensures
            r is Some == (index < old(self)@.len()),
            r matches Some(t) ==> t@ == old(self)@[index as int] && final(self)@ == old(
                self,
            )@.remove(index as int),
            r is None ==> final(self)@ == old(self)@,
    {
        if index < self.tasks.len() {
            let ghost before = self@;
            let t = self.tasks.remove(index);
            assert(self@ =~= before.remove(index as int));
            Some(t)
        } else {
            None
        }
    }

    /// The open tasks with their identifiers, in list order.
    pub fn pending(&self) -> (r: Vec<Entry>)
        ensures
            entries_view(r@) == pending(self@),
    {
        let mut r: Vec<Entry> = Vec::new();
        let mut k: usize = 0;
        while k < self.tasks.len()
            invariant
                k <= self.tasks.len(),
                entries_view(r@) == pending(self@.take(k as int)),
            decreases self.tasks.len() - k,
        {
            let ghost pre = self@.take(k as int);
            assert(self@.take(k + 1).drop_last() =~= pre);
            assert(self@.take(k + 1).last() == self.tasks@[k as int]@);
            if self.tasks[k].completed.is_none() {
                let ghost before = r@;
                r.push(Entry { id: k + 1, task: self.tasks[k].duplicate() });
                assert(entries_view(r@) =~= entries_view(before).push(((k + 1) as nat, self.tasks@[k as int]@)));
            }
            k += 1;
        }
        assert(self@.take(k as int) =~= self@);
        r
    }
}

/// The identifiers that a listing shows are positions in the whole list, not
/// renumbered after the completed tasks are left out: each entry is the open
/// task at that position, they rise strictly, and every open task has one.
pub proof fn lemma_pending_ids(l: Seq<TaskV>)
    ensures
        forall|k: int|
            0 <= k < pending(l).len() ==> {
                let (id, t) = #[trigger] pending(l)[k];
                &&& 1 <= id <= l.len()
                &&& l[id - 1] == t
                &&& t.completed is None
            },
        forall|k1: int, k2: int|
            0 <= k1 < k2 < pending(l).len() ==> (#[trigger] pending(l)[k1]).0 < (
            #[trigger] pending(l)[k2]).0,
        forall|i: int|
            0 <= i < l.len() && (#[trigger] l[i]).completed is None ==> exists|k: int|
                0 <= k < pending(l).len() && (#[trigger] pending(l)[k]).0 == i + 1,
    decreases l.len(),
{
    if l.len() > 0 {
        let p = l.drop_last();
        lemma_pending_ids(p);
        let n = l.len() as int;
        assert forall|i: int|
            0 <= i < l.len() && (#[trigger] l[i]).completed is None implies exists|k: int|
                0 <= k < pending(l).len() && (#[trigger] pending(l)[k]).0 == i + 1 by {
            if i < n - 1 {
                assert(p[i] == l[i]);
                let k = choose|k: int| 0 <= k < pending(p).len() && (#[trigger] pending(p)[k]).0 == i + 1;
                assert(pending(l)[k] == pending(p)[k]);
            } else {
                assert(pending(l)[pending(p).len() as int].0 == i + 1);
            }
        }
        assert forall|k: int| 0 <= k < pending(l).len() implies {
            let (id, t) = #[trigger] pending(l)[k];
            &&& 1 <= id <= l.len()
            &&& l[id - 1] == t
            &&& t.completed is None
        } by {
            if k < pending(p).len() {
                assert(pending(l)[k] == pending(p)[k]);
                let (id, t) = pending(p)[k];
                assert(p[id - 1] == l[id - 1]);
            }
        }
    }
}
} // verus!
