//! The coordinator's task-lifecycle state machine.
//!
//! A [`TaskData`] value holds one job's scheduling state: the pending,
//! active and finished tasks of the map and the reduce phase. Each
//! operation — dispatching a task to a requesting worker, accepting a
//! completion report, reclaiming leases that have run out — is an
//! ordinary function from the old state to the new one, described
//! exactly by a spec-level transition function. The lock, the blocking
//! wait and the clock live outside the crate: callers pass the current
//! time in as a plain number and serialize calls themselves.
//!
//! Time is a non-negative tick count from any fixed origin; only
//! differences of timestamps matter.

use crate::text::str_eq;
use vstd::prelude::*;

verus! {

/// What kind of work a reply carries: a map task, a reduce task, or the
/// signal that the whole job is finished and the worker may exit.
#[derive(Clone, Copy, Debug, PartialEq, Eq, Structural)]
pub enum TaskType {
    MapTask,
    ReduceTask,
    Finished,
}

/// The coordinator's answer to a task request. Fields that the task
/// type does not use are zero or empty.
pub struct TaskReply {
    pub task_type: TaskType,
    pub file_name: String,
    pub file_nums: Vec<u32>,
    pub task_num: u32,
    pub n_reduce: u32,
}

/// The mathematical content of a [`TaskReply`].
#[verifier::ext_equal]
pub ghost struct ReplyView {
    pub task_type: TaskType,
    pub file_name: Seq<char>,
    pub file_nums: Seq<int>,
    pub task_num: int,
    pub n_reduce: int,
}

impl View for TaskReply {
    type V = ReplyView;

    open spec fn view(&self) -> ReplyView {
        ReplyView {
            task_type: self.task_type,
            file_name: self.file_name@,
            file_nums: self.file_nums@.map_values(|n: u32| n as int),
            task_num: self.task_num as int,
            n_reduce: self.n_reduce as int,
        }
    }
}

/// The view of an optional reply, for contracts.
pub open spec fn opt_reply_view(r: Option<TaskReply>) -> Option<ReplyView> {
    match r {
        Some(t) => Some(t@),
        None => None,
    }
}

/// A map task handed to a worker and not yet reported done.
pub struct ActiveMapTask {
    pub file_name: String,
    pub started: u64,
}

/// A reduce task handed to a worker and not yet reported done.
pub struct ActiveReduceTask {
    pub task_num: u32,
    pub started: u64,
}

/// The coordinator's whole scheduling state as mathematical values.
/// Active tasks are (identity, start time) pairs; the ghost sets record
/// the job's input files, what has finished, and every map task number
/// ever issued.
#[verifier::ext_equal]
pub ghost struct TaskDataView {
    pub n_reduce: int,
    pub pending_map: Seq<Seq<char>>,
    pub active_map: Seq<(Seq<char>, int)>,
    pub map_counter: int,
    pub finished_map_nums: Seq<int>,
    pub map_done: bool,
    pub pending_reduce: Seq<int>,
    pub active_reduce: Seq<(int, int)>,
    pub reduce_done: bool,
    pub input_files: Set<Seq<char>>,
    pub finished_map_files: Set<Seq<char>>,
    pub finished_reduce: Set<int>,
    pub issued_map_nums: Set<int>,
}

/// The coordinator's scheduling state for one job.
pub struct TaskData {
    n_reduce: u32,
    pending_map_tasks: Vec<String>,
    active_map_tasks: Vec<ActiveMapTask>,
    map_task_counter: u32,
    finished_map_tasks: Vec<u32>,
    map_done: bool,
    pending_reduce_tasks: Vec<u32>,
    active_reduce_tasks: Vec<ActiveReduceTask>,
    reduce_done: bool,
    input_files: Ghost<Set<Seq<char>>>,
    finished_map_files: Ghost<Set<Seq<char>>>,
    finished_reduce_set: Ghost<Set<int>>,
    issued_map_nums: Ghost<Set<int>>,
}

impl View for TaskData {
    type V = TaskDataView;

    closed spec fn view(&self) -> TaskDataView {
        TaskDataView {
            n_reduce: self.n_reduce as int,
            pending_map: self.pending_map_tasks.deep_view(),
            active_map: self.active_map_tasks@.map_values(
                |t: ActiveMapTask| (t.file_name@, t.started as int),
            ),
            map_counter: self.map_task_counter as int,
            finished_map_nums: self.finished_map_tasks@.map_values(|n: u32| n as int),
            map_done: self.map_done,
            pending_reduce: self.pending_reduce_tasks@.map_values(|n: u32| n as int),
            active_reduce: self.active_reduce_tasks@.map_values(
                |t: ActiveReduceTask| (t.task_num as int, t.started as int),
            ),
            reduce_done: self.reduce_done,
            input_files: self.input_files@,
            finished_map_files: self.finished_map_files@,
            finished_reduce: self.finished_reduce_set@,
            issued_map_nums: self.issued_map_nums@,
        }
    }
}

/// True iff an active task started at `started` has outlived its lease
/// at time `now`.
pub open spec fn expired(started: int, lease: int, now: int) -> bool {
    now > started + lease
}

/// True iff some active entry carries this identity.
pub open spec fn active_has<A>(a: Seq<(A, int)>, key: A) -> bool {
    exists|i: int| 0 <= i < a.len() && a[i].0 == key
}

/// The index of the active entry with this identity (unique when the
/// identities are distinct).
pub open spec fn active_idx<A>(a: Seq<(A, int)>, key: A) -> int {
    choose|i: int| 0 <= i < a.len() && a[i].0 == key
}

/// The reduce bucket indices of a job with `n` buckets, as a set.
pub open spec fn bucket_range(n: int) -> Set<int> {
    Set::new(|i: int| 0 <= i < n)
}

/// The reduce bucket indices in ascending order.
pub open spec fn seq_range(n: int) -> Seq<int>
    recommends
        n >= 0,
{
    Seq::new(n as nat, |i: int| i)
}

/// The active entries whose lease has not run out at `now`, in order.
pub open spec fn kept_tasks<A>(a: Seq<(A, int)>, now: int, lease: int) -> Seq<(A, int)>
    decreases a.len(),
{
    if a.len() == 0 {
        Seq::empty()
    } else {
        let p = kept_tasks(a.drop_last(), now, lease);
        if expired(a.last().1, lease, now) {
            p
        } else {
            p.push(a.last())
        }
    }
}

/// The identities of the active entries whose lease has run out at
/// `now`, in order.
pub open spec fn reclaimed_tasks<A>(a: Seq<(A, int)>, now: int, lease: int) -> Seq<A>
    decreases a.len(),
{
    if a.len() == 0 {
        Seq::empty()
    } else {
        let p = reclaimed_tasks(a.drop_last(), now, lease);
        if expired(a.last().1, lease, now) {
            p.push(a.last().0)
        } else {
            p
        }
    }
}

/// Well-formedness of the map phase: every filename is in at most one
/// of pending, active and finished; together with finished they cover
/// exactly the job's input files; and a done phase holds no work.
pub open spec fn map_wf(v: TaskDataView) -> bool {
    &&& forall|i: int, j: int|
        0 <= i < j < v.pending_map.len() ==> v.pending_map[i] != v.pending_map[j]
    &&& forall|i: int, j: int|
        0 <= i < j < v.active_map.len() ==> v.active_map[i].0 != v.active_map[j].0
    &&& forall|i: int|
        0 <= i < v.pending_map.len() ==> !active_has(v.active_map, #[trigger] v.pending_map[i])
    &&& forall|i: int|
        0 <= i < v.pending_map.len() ==> !v.finished_map_files.contains(#[trigger] v.pending_map[i])
    &&& forall|i: int|
        0 <= i < v.active_map.len() ==> !v.finished_map_files.contains(
            (#[trigger] v.active_map[i]).0,
        )
    &&& forall|i: int|
        0 <= i < v.pending_map.len() ==> v.input_files.contains(#[trigger] v.pending_map[i])
    &&& forall|i: int|
        0 <= i < v.active_map.len() ==> v.input_files.contains((#[trigger] v.active_map[i]).0)
    &&& forall|f: Seq<char>|
        v.finished_map_files.contains(f) ==> v.input_files.contains(f)
    &&& forall|f: Seq<char>|
        v.input_files.contains(f) ==> v.pending_map.contains(f) || active_has(v.active_map, f)
            || v.finished_map_files.contains(f)
    &&& (v.map_done ==> v.pending_map.len() == 0 && v.active_map.len() == 0)
}

/// Well-formedness of the reduce phase: empty before the map phase is
/// done; afterwards every bucket index is in exactly one of pending,
/// active and finished.
pub open spec fn reduce_wf(v: TaskDataView) -> bool {
    &&& (!v.map_done ==> v.pending_reduce.len() == 0 && v.active_reduce.len() == 0
        && v.finished_reduce == Set::<int>::empty() && !v.reduce_done)
    &&& forall|i: int, j: int|
        0 <= i < j < v.pending_reduce.len() ==> v.pending_reduce[i] != v.pending_reduce[j]
    &&& forall|i: int, j: int|
        0 <= i < j < v.active_reduce.len() ==> v.active_reduce[i].0 != v.active_reduce[j].0
    &&& forall|i: int|
        0 <= i < v.pending_reduce.len() ==> 0 <= #[trigger] v.pending_reduce[i] < v.n_reduce
            && !active_has(v.active_reduce, v.pending_reduce[i]) && !v.finished_reduce.contains(
            v.pending_reduce[i],
        )
    &&& forall|i: int|
        0 <= i < v.active_reduce.len() ==> 0 <= (#[trigger] v.active_reduce[i]).0 < v.n_reduce
            && !v.finished_reduce.contains(v.active_reduce[i].0)
    &&& forall|b: int| v.finished_reduce.contains(b) ==> 0 <= b < v.n_reduce
    &&& (v.map_done ==> forall|b: int|
        0 <= b < v.n_reduce ==> v.pending_reduce.contains(b) || active_has(v.active_reduce, b)
            || v.finished_reduce.contains(b))
    &&& (v.reduce_done ==> v.map_done && v.pending_reduce.len() == 0 && v.active_reduce.len()
        == 0)
}

/// Bounds on the machine-sized fields, and the guarantee that every
/// issued map task number lies below the counter, so that the next
/// number is always fresh.
pub open spec fn counters_wf(v: TaskDataView) -> bool {
    &&& 0 <= v.n_reduce <= u32::MAX
    &&& 0 <= v.map_counter <= u32::MAX
    &&& forall|m: int| v.issued_map_nums.contains(m) ==> 0 <= m < v.map_counter
}

/// The task store's invariant.
pub open spec fn wf(v: TaskDataView) -> bool {
    &&& counters_wf(v)
    &&& map_wf(v)
    &&& reduce_wf(v)
}

/// The state of a fresh job: every input file pending for the map
/// phase, nothing active or finished, both phases open.
pub open spec fn init_view(files: Seq<Seq<char>>, n_reduce: int) -> TaskDataView {
    TaskDataView {
        n_reduce: n_reduce,
        pending_map: files,
        active_map: Seq::empty(),
        map_counter: 0,
        finished_map_nums: Seq::empty(),
        map_done: false,
        pending_reduce: Seq::empty(),
        active_reduce: Seq::empty(),
        reduce_done: false,
        input_files: files.to_set(),
        finished_map_files: Set::empty(),
        finished_reduce: Set::empty(),
        issued_map_nums: Set::empty(),
    }
}

/// How a task request changes the store: the most recently queued
/// pending task of the current phase moves to active, stamped with the
/// current time; a map dispatch also consumes the next task number.
/// With no pending task in an unfinished phase, or with the job done,
/// nothing changes.
pub open spec fn request_transition(v: TaskDataView, now: int) -> TaskDataView {
    if !v.map_done {
        if v.pending_map.len() > 0 {
            TaskDataView {
                pending_map: v.pending_map.drop_last(),
                active_map: v.active_map.push((v.pending_map.last(), now)),
                map_counter: v.map_counter + 1,
                issued_map_nums: v.issued_map_nums.insert(v.map_counter),
                ..v
            }
        } else {
            v
        }
    } else if !v.reduce_done {
        if v.pending_reduce.len() > 0 {
            TaskDataView {
                pending_reduce: v.pending_reduce.drop_last(),
                active_reduce: v.active_reduce.push((v.pending_reduce.last(), now)),
                ..v
            }
        } else {
            v
        }
    } else {
        v
    }
}

/// The reply a task request gets: the dispatched task, `None` when the
/// caller must wait for a state change, and `Finished` once both phases
/// are done. A reduce reply carries a snapshot of the finished map task
/// numbers, which locate the intermediate files.
pub open spec fn request_reply(v: TaskDataView, now: int) -> Option<ReplyView> {
    if !v.map_done {
        if v.pending_map.len() > 0 {
            Some(
                ReplyView {
                    task_type: TaskType::MapTask,
                    file_name: v.pending_map.last(),
                    file_nums: Seq::empty(),
                    task_num: v.map_counter,
                    n_reduce: v.n_reduce,
                },
            )
        } else {
            None
        }
    } else if !v.reduce_done {
        if v.pending_reduce.len() > 0 {
            Some(
                ReplyView {
                    task_type: TaskType::ReduceTask,
                    file_name: Seq::empty(),
                    file_nums: v.finished_map_nums,
                    task_num: v.pending_reduce.last(),
                    n_reduce: 0,
                },
            )
        } else {
            None
        }
    } else {
        Some(
            ReplyView {
                task_type: TaskType::Finished,
                file_name: Seq::empty(),
                file_nums: Seq::empty(),
                task_num: 0,
                n_reduce: 0,
            },
        )
    }
}

/// How a map completion report changes the store. A report for a file
/// that is not active — it timed out and was reclaimed, or was already
/// reported — changes nothing. Otherwise the file leaves the active
/// set, its task number joins the finished list, and if that cleared
/// the last map work the phase closes and the reduce buckets are
/// queued.
pub open spec fn done_map_transition(v: TaskDataView, num: int, f: Seq<char>) -> TaskDataView {
    if active_has(v.active_map, f) {
        let active2 = v.active_map.remove(active_idx(v.active_map, f));
        let done2 = v.pending_map.len() == 0 && active2.len() == 0;
        TaskDataView {
            active_map: active2,
            finished_map_nums: v.finished_map_nums.push(num),
            finished_map_files: v.finished_map_files.insert(f),
            map_done: done2,
            pending_reduce: if done2 {
                seq_range(v.n_reduce)
            } else {
                v.pending_reduce
            },
            ..v
        }
    } else {
        v
    }
}

/// How a reduce completion report changes the store; the bucket index
/// is the task's identity. A report for an inactive bucket changes
/// nothing.
pub open spec fn done_reduce_transition(v: TaskDataView, num: int) -> TaskDataView {
    if active_has(v.active_reduce, num) {
        let active2 = v.active_reduce.remove(active_idx(v.active_reduce, num));
        let rdone = v.pending_reduce.len() == 0 && active2.len() == 0;
        TaskDataView {
            active_reduce: active2,
            finished_reduce: v.finished_reduce.insert(num),
            reduce_done: rdone,
            ..v
        }
    } else {
        v
    }
}

/// How a lease sweep at time `now` changes the store: every active task
/// whose lease has run out returns to the back of its pending queue;
/// the others stay active with their start times.
pub open spec fn reschedule_transition(v: TaskDataView, now: int, lease: int) -> TaskDataView {
    TaskDataView {
        pending_map: v.pending_map + reclaimed_tasks(v.active_map, now, lease),
        active_map: kept_tasks(v.active_map, now, lease),
        pending_reduce: v.pending_reduce + reclaimed_tasks(v.active_reduce, now, lease),
        active_reduce: kept_tasks(v.active_reduce, now, lease),
        ..v
    }
}

/// True iff a completion report's state change must wake blocked
/// requesters: a done flag moved, or an active set was emptied.
pub open spec fn wake_after(old: TaskDataView, new: TaskDataView) -> bool {
    ||| old.map_done != new.map_done
    ||| old.reduce_done != new.reduce_done
    ||| (old.active_map.len() > 0 && new.active_map.len() == 0)
    ||| (old.active_reduce.len() > 0 && new.active_reduce.len() == 0)
}

impl TaskData {
    /// Creates the store for a job over the given input files with
    /// `n_reduce` reduce buckets. Filenames identify map tasks, so they
    /// must be distinct.
    pub fn new(files: Vec<String>, n_reduce: u32) -> (s: Self)
        requires
            forall|i: int, j: int|
                0 <= i < j < files@.len() ==> files.deep_view()[i] != files.deep_view()[j],
        ensures
            s@ == init_view(files.deep_view(), n_reduce as int),
            wf(s@),
    {
        let ghost fd = files.deep_view();
        let s = TaskData {
            n_reduce,
            pending_map_tasks: files,
            active_map_tasks: Vec::new(),
            map_task_counter: 0,
            finished_map_tasks: Vec::new(),
            map_done: false,
            pending_reduce_tasks: Vec::new(),
            active_reduce_tasks: Vec::new(),
            reduce_done: false,
            input_files: Ghost(fd.to_set()),
            finished_map_files: Ghost(Set::empty()),
            finished_reduce_set: Ghost(Set::empty()),
            issued_map_nums: Ghost(Set::empty()),
        };
        proof {
            assert(s@ =~~= init_view(fd, n_reduce as int));
            assert(wf(s@)) by {
                assert forall|f: Seq<char>| s@.input_files.contains(f) implies s@.pending_map
                    .contains(f) || active_has(s@.active_map, f) || s@.finished_map_files.contains(
                    f,
                ) by {
                    assert(fd.contains(f));
                }
            }
        }
        s
    }

    /// True iff both phases are complete and the job is over.
    pub fn done(&self) -> (d: bool)
        ensures
            d == (self@.map_done && self@.reduce_done),
    {
        self.map_done && self.reduce_done
    }

    /// The next map task number to be issued.
    pub fn map_counter(&self) -> (c: u32)
        ensures
            c as int == self@.map_counter,
    {
        self.map_task_counter
    }

    /// Answers one task request at time `now`. A pending task of the
    /// current phase is dispatched — map tasks get the next fresh task
    /// number — and `None` means no work is available yet and the
    /// caller must wait for a state change and ask again. Once both
    /// phases are done every request gets the `Finished` signal and
    /// the state never changes.
    pub fn task_request_step(&mut self, now: u64) -> (r: Option<TaskReply>)
        requires
            wf(old(self)@),
            old(self)@.map_counter < u32::MAX as int,
        ensures
            final(self)@ == request_transition(old(self)@, now as int),
            opt_reply_view(r) == request_reply(old(self)@, now as int),
            wf(final(self)@),
    {
        proof {
            lemma_request_preserves_wf(old(self)@, now as int);
        }
        if !self.map_done {
            if self.pending_map_tasks.len() > 0 {
                let ghost v0 = self@;
                let file_name = self.pending_map_tasks.pop().unwrap();
                let task_num = self.map_task_counter;
                self.map_task_counter = self.map_task_counter + 1;
                let active_name = file_name.clone();
                self.active_map_tasks.push(ActiveMapTask { file_name: active_name, started: now });
                let ghost new_issued = self.issued_map_nums@.insert(task_num as int);
                self.issued_map_nums = Ghost(new_issued);
                let reply = TaskReply {
                    task_type: TaskType::MapTask,
                    file_name,
                    file_nums: Vec::new(),
                    task_num,
                    n_reduce: self.n_reduce,
                };
                proof {
                    assert(self@ =~~= request_transition(v0, now as int));
                    let rr = request_reply(v0, now as int);
                    assert(rr is Some);
                    assert(reply@ =~~= rr->0);
                }
                Some(reply)
            } else {
                None
            }
        } else if !self.reduce_done {
            if self.pending_reduce_tasks.len() > 0 {
                let ghost v0 = self@;
                let task_num = self.pending_reduce_tasks.pop().unwrap();
                self.active_reduce_tasks.push(ActiveReduceTask { task_num, started: now });
                let file_nums = self.finished_map_tasks.clone();
                let reply = TaskReply {
                    task_type: TaskType::ReduceTask,
                    file_name: String::new(),
                    file_nums,
                    task_num,
                    n_reduce: 0,
                };
                proof {
                    assert(reply.file_nums@ =~= self.finished_map_tasks@);
                    assert(self@ =~~= request_transition(v0, now as int));
                    let rr = request_reply(v0, now as int);
                    assert(rr is Some);
                    assert(reply@ =~~= rr->0);
                }
                Some(reply)
            } else {
                None
            }
        } else {
            let reply = TaskReply {
                task_type: TaskType::Finished,
                file_name: String::new(),
                file_nums: Vec::new(),
                task_num: 0,
                n_reduce: 0,
            };
            proof {
                let rr = request_reply(self@, now as int);
                assert(rr is Some);
                assert(reply@ =~~= rr->0);
            }
            Some(reply)
        }
    }

    /// Accepts a worker's completion report. A report whose task is no
    /// longer active under that identity — it timed out and was
    /// reclaimed, or is a duplicate — changes nothing; a late report
    /// never resurrects or double-counts a task. The result says
    /// whether blocked requesters must be woken.
    pub fn task_done(&mut self, task_type: TaskType, task_num: u32, file_name: &str) -> (wake:
        bool)
        requires
            wf(old(self)@),
        ensures
            task_type == TaskType::MapTask ==> final(self)@ == done_map_transition(
                old(self)@,
                task_num as int,
                file_name@,
            ),
            task_type == TaskType::ReduceTask ==> final(self)@ == done_reduce_transition(
                old(self)@,
                task_num as int,
            ),
            task_type == TaskType::Finished ==> final(self)@ == old(self)@,
            wf(final(self)@),
            wake == wake_after(old(self)@, final(self)@),
    {
        match task_type {
            TaskType::MapTask => {
                let found = self.find_active_map(file_name);
                match found {
                    Some(j) => {
                        let ghost v0 = self@;
                        proof {
                            assert(active_has(v0.active_map, file_name@));
                            let i = active_idx(v0.active_map, file_name@);
                            assert(0 <= i < v0.active_map.len() && v0.active_map[i].0
                                == file_name@);
                            assert(i == j as int);
                            assert(!v0.map_done);
                            lemma_done_map_preserves_wf(v0, task_num as int, file_name@);
                        }
                        let _entry = self.active_map_tasks.remove(j);
                        self.finished_map_tasks.push(task_num);
                        self.map_done = self.pending_map_tasks.len() == 0
                            && self.active_map_tasks.len() == 0;
                        self.finished_map_files = Ghost(
                            self.finished_map_files@.insert(file_name@),
                        );
                        if self.map_done {
                            let ghost pre_seed = self@;
                            proof {
                                assert(self@.pending_reduce =~= seq_range(0));
                            }
                            let mut b: u32 = 0;
                            while b < self.n_reduce
                                invariant
                                    0 <= b <= self.n_reduce,
                                    self@ == (TaskDataView {
                                        pending_reduce: seq_range(b as int),
                                        ..pre_seed
                                    }),
                                decreases self.n_reduce - b,
                            {
                                let ghost before = self@;
                                self.pending_reduce_tasks.push(b);
                                proof {
                                    assert(self@.pending_reduce =~= before.pending_reduce.push(
                                        b as int,
                                    ));
                                    assert(seq_range(b as int).push(b as int) =~= seq_range(
                                        b + 1,
                                    ));
                                    assert(self@ =~~= (TaskDataView {
                                        pending_reduce: seq_range(b + 1),
                                        ..pre_seed
                                    }));
                                }
                                b = b + 1;
                            }
                        }
                        let wake = self.active_map_tasks.len() == 0;
                        proof {
                            assert(self@ =~~= done_map_transition(
                                v0,
                                task_num as int,
                                file_name@,
                            ));
                        }
                        wake
                    },
                    None => {
                        proof {
                            assert(done_map_transition(self@, task_num as int, file_name@)
                                == self@);
                        }
                        false
                    },
                }
            },
            TaskType::ReduceTask => {
                let found = self.find_active_reduce(task_num);
                match found {
                    Some(j) => {
                        let ghost v0 = self@;
                        proof {
                            assert(active_has(v0.active_reduce, task_num as int));
                            let i = active_idx(v0.active_reduce, task_num as int);
                            assert(0 <= i < v0.active_reduce.len() && v0.active_reduce[i].0
                                == task_num as int);
                            assert(i == j as int);
                            assert(!v0.reduce_done);
                            lemma_done_reduce_preserves_wf(v0, task_num as int);
                        }
                        let _entry = self.active_reduce_tasks.remove(j);
                        self.reduce_done = self.pending_reduce_tasks.len() == 0
                            && self.active_reduce_tasks.len() == 0;
                        self.finished_reduce_set = Ghost(
                            self.finished_reduce_set@.insert(task_num as int),
                        );
                        let wake = self.active_reduce_tasks.len() == 0;
                        proof {
                            assert(self@ =~~= done_reduce_transition(v0, task_num as int));
                        }
                        wake
                    },
                    None => {
                        proof {
                            assert(done_reduce_transition(self@, task_num as int) == self@);
                        }
                        false
                    },
                }
            },
            TaskType::Finished => false,
        }
    }

    /// Sweeps the active sets at time `now`: every task whose lease of
    /// `lease` ticks has run out returns to the back of its pending
    /// queue and stops being active, so another worker can pick it up.
    /// The result says whether any task was reclaimed, in which case
    /// blocked requesters must be woken.
    pub fn reschedule_active_tasks(&mut self, now: u64, lease: u64) -> (wake: bool)
        requires
            wf(old(self)@),
        ensures
            final(self)@ == reschedule_transition(old(self)@, now as int, lease as int),
            wf(final(self)@),
            wake == (reclaimed_tasks(old(self)@.active_map, now as int, lease as int).len() > 0
                || reclaimed_tasks(old(self)@.active_reduce, now as int, lease as int).len() > 0),
    {
        let ghost v0 = self@;
        let ghost nowi: int = now as int;
        let ghost leasei: int = lease as int;
        proof {
            lemma_reschedule_preserves_wf(v0, nowi, leasei);
        }
        let mut wake = false;

        let ghost am0 = v0.active_map;
        let n0 = self.active_map_tasks.len();
        let mut i: usize = 0;
        proof {
            assert(am0.take(0) =~= Seq::<(Seq<char>, int)>::empty());
            assert(am0.skip(0) =~= am0);
            assert(self@.active_map =~= am0.skip(0) + kept_tasks(am0.take(0), nowi, leasei));
            assert(self@.pending_map =~= v0.pending_map + reclaimed_tasks(
                am0.take(0),
                nowi,
                leasei,
            ));
            assert(self@ =~~= (TaskDataView {
                pending_map: v0.pending_map + reclaimed_tasks(am0.take(0), nowi, leasei),
                active_map: am0.skip(0) + kept_tasks(am0.take(0), nowi, leasei),
                ..v0
            }));
        }
        while i < n0
            invariant
                nowi == now as int,
                leasei == lease as int,
                n0 == am0.len(),
                0 <= i <= n0,
                self@ == (TaskDataView {
                    pending_map: v0.pending_map + reclaimed_tasks(am0.take(i as int), nowi, leasei),
                    active_map: am0.skip(i as int) + kept_tasks(am0.take(i as int), nowi, leasei),
                    ..v0
                }),
                wake == (reclaimed_tasks(am0.take(i as int), nowi, leasei).len() > 0),
            decreases n0 - i,
        {
            let ghost done_pre = am0.take(i as int);
            let ghost done_post = am0.take(i + 1);
            proof {
                assert(self.active_map_tasks@.len() > 0) by {
                    assert(self@.active_map.len() == (n0 - i) + kept_tasks(
                        done_pre,
                        nowi,
                        leasei,
                    ).len());
                }
                assert(done_post.drop_last() =~= done_pre);
                assert(done_post.last() == am0[i as int]);
            }
            let ghost active_pre = self@.active_map;
            let ghost pending_pre = self@.pending_map;
            let t = self.active_map_tasks.remove(0);
            proof {
                assert(self@.active_map =~= active_pre.drop_first());
                assert(active_pre[0] == am0[i as int]);
                assert((t.file_name@, t.started as int) == am0[i as int]);
                assert(self@.active_map =~= am0.skip(i + 1) + kept_tasks(done_pre, nowi, leasei));
            }
            let exp = now > lease && t.started < now - lease;
            proof {
                assert(exp == expired(t.started as int, leasei, nowi));
            }
            if exp {
                self.pending_map_tasks.push(t.file_name);
                wake = true;
                proof {
                    assert(self@.pending_map =~= pending_pre.push(am0[i as int].0));
                    assert(reclaimed_tasks(done_post, nowi, leasei) =~= reclaimed_tasks(
                        done_pre,
                        nowi,
                        leasei,
                    ).push(am0[i as int].0));
                    assert(self@.pending_map =~= v0.pending_map + reclaimed_tasks(
                        done_post,
                        nowi,
                        leasei,
                    ));
                    assert(kept_tasks(done_post, nowi, leasei) =~= kept_tasks(
                        done_pre,
                        nowi,
                        leasei,
                    ));
                    assert(self@ =~~= (TaskDataView {
                        pending_map: v0.pending_map + reclaimed_tasks(done_post, nowi, leasei),
                        active_map: am0.skip(i + 1) + kept_tasks(done_post, nowi, leasei),
                        ..v0
                    }));
                }
            } else {
                let ghost before_push = self@.active_map;
                self.active_map_tasks.push(t);
                proof {
                    assert(self@.active_map =~= before_push.push(
                        (t.file_name@, t.started as int),
                    ));
                    assert(kept_tasks(done_post, nowi, leasei) =~= kept_tasks(
                        done_pre,
                        nowi,
                        leasei,
                    ).push(am0[i as int]));
                    assert(reclaimed_tasks(done_post, nowi, leasei) =~= reclaimed_tasks(
                        done_pre,
                        nowi,
                        leasei,
                    ));
                    assert(self@.active_map =~= am0.skip(i + 1) + kept_tasks(
                        done_post,
                        nowi,
                        leasei,
                    ));
                    assert(self@ =~~= (TaskDataView {
                        pending_map: v0.pending_map + reclaimed_tasks(done_post, nowi, leasei),
                        active_map: am0.skip(i + 1) + kept_tasks(done_post, nowi, leasei),
                        ..v0
                    }));
                }
            }
            i = i + 1;
        }
        proof {
            assert(am0.take(n0 as int) =~= am0);
            assert(am0.skip(n0 as int) =~= Seq::<(Seq<char>, int)>::empty());
            assert(self@.active_map =~= kept_tasks(am0, nowi, leasei));
        }
        let ghost v1 = self@;

        let ghost ar0 = v0.active_reduce;
        let m0 = self.active_reduce_tasks.len();
        let mut k: usize = 0;
        proof {
            assert(v1.active_reduce == ar0);
            assert(ar0.take(0) =~= Seq::<(int, int)>::empty());
            assert(ar0.skip(0) =~= ar0);
            assert(self@ =~~= (TaskDataView {
                pending_reduce: v1.pending_reduce + reclaimed_tasks(ar0.take(0), nowi, leasei),
                active_reduce: ar0.skip(0) + kept_tasks(ar0.take(0), nowi, leasei),
                ..v1
            }));
        }
        let ghost wake_map: bool = wake;
        while k < m0
            invariant
                nowi == now as int,
                leasei == lease as int,
                m0 == ar0.len(),
                0 <= k <= m0,
                self@ == (TaskDataView {
                    pending_reduce: v1.pending_reduce + reclaimed_tasks(
                        ar0.take(k as int),
                        nowi,
                        leasei,
                    ),
                    active_reduce: ar0.skip(k as int) + kept_tasks(ar0.take(k as int), nowi, leasei),
                    ..v1
                }),
                wake == (wake_map || reclaimed_tasks(ar0.take(k as int), nowi, leasei).len() > 0),
            decreases m0 - k,
        {
            let ghost done_pre = ar0.take(k as int);
            let ghost done_post = ar0.take(k + 1);
            proof {
                assert(self.active_reduce_tasks@.len() > 0) by {
                    assert(self@.active_reduce.len() == (m0 - k) + kept_tasks(
                        done_pre,
                        nowi,
                        leasei,
                    ).len());
                }
                assert(done_post.drop_last() =~= done_pre);
                assert(done_post.last() == ar0[k as int]);
            }
            let ghost active_pre = self@.active_reduce;
            let ghost pending_pre = self@.pending_reduce;
            let t = self.active_reduce_tasks.remove(0);
            proof {
                assert(self@.active_reduce =~= active_pre.drop_first());
                assert(active_pre[0] == ar0[k as int]);
                assert((t.task_num as int, t.started as int) == ar0[k as int]);
                assert(self@.active_reduce =~= ar0.skip(k + 1) + kept_tasks(
                    done_pre,
                    nowi,
                    leasei,
                ));
            }
            let exp = now > lease && t.started < now - lease;
            proof {
                assert(exp == expired(t.started as int, leasei, nowi));
            }
            if exp {
                self.pending_reduce_tasks.push(t.task_num);
                wake = true;
                proof {
                    assert(self@.pending_reduce =~= pending_pre.push(ar0[k as int].0));
                    assert(reclaimed_tasks(done_post, nowi, leasei) =~= reclaimed_tasks(
                        done_pre,
                        nowi,
                        leasei,
                    ).push(ar0[k as int].0));
                    assert(self@.pending_reduce =~= v1.pending_reduce + reclaimed_tasks(
                        done_post,
                        nowi,
                        leasei,
                    ));
                    assert(kept_tasks(done_post, nowi, leasei) =~= kept_tasks(
                        done_pre,
                        nowi,
                        leasei,
                    ));
                    assert(self@ =~~= (TaskDataView {
                        pending_reduce: v1.pending_reduce + reclaimed_tasks(
                            done_post,
                            nowi,
                            leasei,
                        ),
                        active_reduce: ar0.skip(k + 1) + kept_tasks(done_post, nowi, leasei),
                        ..v1
                    }));
                }
            } else {
                let ghost before_push = self@.active_reduce;
                self.active_reduce_tasks.push(t);
                proof {
                    assert(self@.active_reduce =~= before_push.push(
                        (t.task_num as int, t.started as int),
                    ));
                    assert(kept_tasks(done_post, nowi, leasei) =~= kept_tasks(
                        done_pre,
                        nowi,
                        leasei,
                    ).push(ar0[k as int]));
                    assert(reclaimed_tasks(done_post, nowi, leasei) =~= reclaimed_tasks(
                        done_pre,
                        nowi,
                        leasei,
                    ));
                    assert(self@.active_reduce =~= ar0.skip(k + 1) + kept_tasks(
                        done_post,
                        nowi,
                        leasei,
                    ));
                    assert(self@ =~~= (TaskDataView {
                        pending_reduce: v1.pending_reduce + reclaimed_tasks(
                            done_post,
                            nowi,
                            leasei,
                        ),
                        active_reduce: ar0.skip(k + 1) + kept_tasks(done_post, nowi, leasei),
                        ..v1
                    }));
                }
            }
            k = k + 1;
        }
        proof {
            assert(ar0.take(m0 as int) =~= ar0);
            assert(ar0.skip(m0 as int) =~= Seq::<(int, int)>::empty());
            assert(self@.active_reduce =~= kept_tasks(ar0, nowi, leasei));
            assert(self@ =~~= reschedule_transition(v0, nowi, leasei));
        }
        wake
    }

    /// The number of map tasks waiting to be dispatched.
    pub fn pending_map_count(&self) -> (n: usize)
        ensures
            n as int == self@.pending_map.len(),
    {
        self.pending_map_tasks.len()
    }

    /// The number of map tasks handed out and not yet reported done.
    pub fn active_map_count(&self) -> (n: usize)
        ensures
            n as int == self@.active_map.len(),
    {
        self.active_map_tasks.len()
    }

    /// The number of reduce tasks waiting to be dispatched.
    pub fn pending_reduce_count(&self) -> (n: usize)
        ensures
            n as int == self@.pending_reduce.len(),
    {
        self.pending_reduce_tasks.len()
    }

    /// The number of reduce tasks handed out and not yet reported done.
    pub fn active_reduce_count(&self) -> (n: usize)
        ensures
            n as int == self@.active_reduce.len(),
    {
        self.active_reduce_tasks.len()
    }

    fn find_active_map(&self, file_name: &str) -> (r: Option<usize>)
        ensures
            match r {
                Some(j) => j < self@.active_map.len() && self@.active_map[j as int].0
                    == file_name@,
                None => !active_has(self@.active_map, file_name@),
            },
    {
        let mut j: usize = 0;
        while j < self.active_map_tasks.len()
            invariant
                0 <= j <= self@.active_map.len(),
                self@.active_map.len() == self.active_map_tasks@.len(),
                forall|k: int| 0 <= k < j ==> (#[trigger] self@.active_map[k]).0 != file_name@,
            decreases self@.active_map.len() - j,
        {
            if str_eq(self.active_map_tasks[j].file_name.as_str(), file_name) {
                return Some(j);
            }
            j = j + 1;
        }
        None
    }

    fn find_active_reduce(&self, task_num: u32) -> (r: Option<usize>)
        ensures
            match r {
                Some(j) => j < self@.active_reduce.len() && self@.active_reduce[j as int].0
                    == task_num as int,
                None => !active_has(self@.active_reduce, task_num as int),
            },
    {
        let mut j: usize = 0;
        while j < self.active_reduce_tasks.len()
            invariant
                0 <= j <= self@.active_reduce.len(),
                self@.active_reduce.len() == self.active_reduce_tasks@.len(),
                forall|k: int|
                    0 <= k < j ==> (#[trigger] self@.active_reduce[k]).0 != task_num as int,
            decreases self@.active_reduce.len() - j,
        {
            if self.active_reduce_tasks[j].task_num == task_num {
                return Some(j);
            }
            j = j + 1;
        }
        None
    }
}

/// Dispatching a task preserves the task store's invariant.
pub proof fn lemma_request_preserves_wf(v: TaskDataView, now: int)
    requires
        wf(v),
        v.map_counter < u32::MAX,
    ensures
        wf(request_transition(v, now)),
{
    let v2 = request_transition(v, now);
    if !v.map_done && v.pending_map.len() > 0 {
        let n = v.pending_map.len() as int;
        let f = v.pending_map.last();
        let p2 = v.pending_map.drop_last();
        let a2 = v.active_map.push((f, now));
        assert(v.pending_map[n - 1] == f);
        assert(!active_has(v.active_map, f));
        assert forall|i: int, j: int| 0 <= i < j < a2.len() implies a2[i].0 != a2[j].0 by {
            if j == a2.len() - 1 {
                if a2[i].0 == f {
                    assert(active_has(v.active_map, f));
                }
            }
        }
        assert forall|i: int| 0 <= i < p2.len() implies !active_has(
            a2,
            #[trigger] p2[i],
        ) by {
            assert(p2[i] == v.pending_map[i]);
            assert(p2[i] != f);
            if active_has(a2, p2[i]) {
                let w = active_idx(a2, p2[i]);
                assert(0 <= w < a2.len() && a2[w].0 == p2[i]);
                assert(w < a2.len() - 1);
                assert(v.active_map[w].0 == p2[i]);
                assert(active_has(v.active_map, v.pending_map[i]));
            }
        }
        assert forall|g: Seq<char>| v2.input_files.contains(g) implies v2.pending_map.contains(g)
            || active_has(v2.active_map, g) || v2.finished_map_files.contains(g) by {
            if v.pending_map.contains(g) {
                let i = choose|i: int| 0 <= i < v.pending_map.len() && v.pending_map[i] == g;
                if i < n - 1 {
                    assert(p2[i] == g);
                    assert(p2.contains(g));
                } else {
                    assert(g == f);
                    assert(a2[a2.len() - 1].0 == f);
                    assert(active_has(a2, g));
                }
            } else if active_has(v.active_map, g) {
                let w = active_idx(v.active_map, g);
                assert(0 <= w < v.active_map.len() && v.active_map[w].0 == g);
                assert(a2[w].0 == g);
                assert(active_has(a2, g));
            }
        }
        assert(map_wf(v2));
        assert(reduce_wf(v2));
        assert(counters_wf(v2)) by {
            assert forall|m: int| v2.issued_map_nums.contains(m) implies 0 <= m
                < v2.map_counter by {
                if m != v.map_counter {
                    assert(v.issued_map_nums.contains(m));
                }
            }
        }
    } else if v.map_done && !v.reduce_done && v.pending_reduce.len() > 0 {
        let n = v.pending_reduce.len() as int;
        let b = v.pending_reduce.last();
        let p2 = v.pending_reduce.drop_last();
        let a2 = v.active_reduce.push((b, now));
        assert(v.pending_reduce[n - 1] == b);
        assert(!active_has(v.active_reduce, b));
        assert forall|i: int, j: int| 0 <= i < j < a2.len() implies a2[i].0 != a2[j].0 by {
            if j == a2.len() - 1 {
                if a2[i].0 == b {
                    assert(active_has(v.active_reduce, b));
                }
            }
        }
        assert forall|i: int| 0 <= i < p2.len() implies 0 <= #[trigger] p2[i] < v2.n_reduce
            && !active_has(a2, p2[i]) && !v2.finished_reduce.contains(p2[i]) by {
            assert(p2[i] == v.pending_reduce[i]);
            assert(p2[i] != b);
            if active_has(a2, p2[i]) {
                let w = active_idx(a2, p2[i]);
                assert(0 <= w < a2.len() && a2[w].0 == p2[i]);
                assert(w < a2.len() - 1);
                assert(active_has(v.active_reduce, v.pending_reduce[i]));
            }
        }
        assert forall|c: int| 0 <= c < v2.n_reduce implies v2.pending_reduce.contains(c)
            || active_has(v2.active_reduce, c) || v2.finished_reduce.contains(c) by {
            if v.pending_reduce.contains(c) {
                let i = choose|i: int| 0 <= i < v.pending_reduce.len() && v.pending_reduce[i] == c;
                if i < n - 1 {
                    assert(p2[i] == c);
                    assert(p2.contains(c));
                } else {
                    assert(c == b);
                    assert(a2[a2.len() - 1].0 == b);
                    assert(active_has(a2, c));
                }
            } else if active_has(v.active_reduce, c) {
                let w = active_idx(v.active_reduce, c);
                assert(0 <= w < v.active_reduce.len() && v.active_reduce[w].0 == c);
                assert(a2[w].0 == c);
                assert(active_has(a2, c));
            }
        }
        assert(map_wf(v2));
        assert(reduce_wf(v2));
        assert(counters_wf(v2));
    } else {
        assert(v2 == v);
    }
}

/// Accepting a map completion report preserves the invariant.
pub proof fn lemma_done_map_preserves_wf(v: TaskDataView, num: int, f: Seq<char>)
    requires
        wf(v),
    ensures
        wf(done_map_transition(v, num, f)),
{
    let v2 = done_map_transition(v, num, f);
    if active_has(v.active_map, f) {
        let i = active_idx(v.active_map, f);
        assert(0 <= i < v.active_map.len() && v.active_map[i].0 == f);
        assert(!v.map_done);
        let a2 = v.active_map.remove(i);
        v.active_map.remove_ensures(i);
        assert forall|x: int, y: int| 0 <= x < y < a2.len() implies a2[x].0 != a2[y].0 by {
            let xo: int = if x < i { x } else { x + 1 };
            let yo: int = if y < i { y } else { y + 1 };
            assert(a2[x] == v.active_map[xo]);
            assert(a2[y] == v.active_map[yo]);
        }
        assert forall|k: int| 0 <= k < v.pending_map.len() implies !active_has(
            a2,
            #[trigger] v.pending_map[k],
        ) by {
            if active_has(a2, v.pending_map[k]) {
                let w = active_idx(a2, v.pending_map[k]);
                assert(0 <= w < a2.len() && a2[w].0 == v.pending_map[k]);
                let wo: int = if w < i { w } else { w + 1 };
                assert(a2[w] == v.active_map[wo]);
                assert(active_has(v.active_map, v.pending_map[k]));
            }
        }
        // the finished file is the active one, so it is an input file and
        // in neither pending nor finished
        assert(v.input_files.contains(f));
        assert forall|k: int| 0 <= k < v.pending_map.len() implies !v2.finished_map_files.contains(
            #[trigger] v.pending_map[k],
        ) by {
            assert(v.pending_map[k] != f) by {
                if v.pending_map[k] == f {
                    assert(active_has(v.active_map, v.pending_map[k]));
                }
            }
        }
        assert forall|k: int| 0 <= k < a2.len() implies !v2.finished_map_files.contains(
            (#[trigger] a2[k]).0,
        ) by {
            let ko: int = if k < i { k } else { k + 1 };
            assert(a2[k] == v.active_map[ko]);
            assert(a2[k].0 != f) by {
                if a2[k].0 == f {
                    assert(v.active_map[ko].0 == v.active_map[i].0);
                }
            }
        }
        assert forall|g: Seq<char>| v2.input_files.contains(g) implies v2.pending_map.contains(g)
            || active_has(v2.active_map, g) || v2.finished_map_files.contains(g) by {
            if g == f {
                assert(v2.finished_map_files.contains(g));
            } else if active_has(v.active_map, g) {
                let w = active_idx(v.active_map, g);
                assert(0 <= w < v.active_map.len() && v.active_map[w].0 == g);
                assert(w != i);
                let wn: int = if w < i { w } else { w - 1 };
                assert(a2[wn] == v.active_map[w]);
                assert(active_has(a2, g));
            }
        }
        assert(map_wf(v2));
        let done2 = v.pending_map.len() == 0 && a2.len() == 0;
        if done2 {
            assert(v2.pending_reduce =~= seq_range(v.n_reduce));
            assert forall|c: int| 0 <= c < v2.n_reduce implies v2.pending_reduce.contains(c)
                || active_has(v2.active_reduce, c) || v2.finished_reduce.contains(c) by {
                assert(v2.pending_reduce[c] == c);
            }
            assert(reduce_wf(v2));
        } else {
            assert(reduce_wf(v2));
        }
        assert(counters_wf(v2));
    }
}

/// Accepting a reduce completion report preserves the invariant.
pub proof fn lemma_done_reduce_preserves_wf(v: TaskDataView, num: int)
    requires
        wf(v),
    ensures
        wf(done_reduce_transition(v, num)),
{
    let v2 = done_reduce_transition(v, num);
    if active_has(v.active_reduce, num) {
        let i = active_idx(v.active_reduce, num);
        assert(0 <= i < v.active_reduce.len() && v.active_reduce[i].0 == num);
        assert(v.map_done);
        assert(!v.reduce_done);
        let a2 = v.active_reduce.remove(i);
        v.active_reduce.remove_ensures(i);
        assert forall|x: int, y: int| 0 <= x < y < a2.len() implies a2[x].0 != a2[y].0 by {
            let xo: int = if x < i { x } else { x + 1 };
            let yo: int = if y < i { y } else { y + 1 };
            assert(a2[x] == v.active_reduce[xo]);
            assert(a2[y] == v.active_reduce[yo]);
        }
        assert forall|k: int| 0 <= k < v.pending_reduce.len() implies 0 <= #[trigger] v
            .pending_reduce[k] < v2.n_reduce && !active_has(a2, v.pending_reduce[k])
            && !v2.finished_reduce.contains(v.pending_reduce[k]) by {
            if active_has(a2, v.pending_reduce[k]) {
                let w = active_idx(a2, v.pending_reduce[k]);
                assert(0 <= w < a2.len() && a2[w].0 == v.pending_reduce[k]);
                let wo: int = if w < i { w } else { w + 1 };
                assert(a2[w] == v.active_reduce[wo]);
                assert(active_has(v.active_reduce, v.pending_reduce[k]));
            }
            assert(v.pending_reduce[k] != num) by {
                if v.pending_reduce[k] == num {
                    assert(active_has(v.active_reduce, v.pending_reduce[k]));
                }
            }
        }
        assert forall|k: int| 0 <= k < a2.len() implies 0 <= (#[trigger] a2[k]).0 < v2.n_reduce
            && !v2.finished_reduce.contains(a2[k].0) by {
            let ko: int = if k < i { k } else { k + 1 };
            assert(a2[k] == v.active_reduce[ko]);
            assert(a2[k].0 != num) by {
                if a2[k].0 == num {
                    assert(v.active_reduce[ko].0 == v.active_reduce[i].0);
                }
            }
        }
        assert forall|c: int| 0 <= c < v2.n_reduce implies v2.pending_reduce.contains(c)
            || active_has(v2.active_reduce, c) || v2.finished_reduce.contains(c) by {
            if c == num {
                assert(v2.finished_reduce.contains(c));
            } else if active_has(v.active_reduce, c) {
                let w = active_idx(v.active_reduce, c);
                assert(0 <= w < v.active_reduce.len() && v.active_reduce[w].0 == c);
                assert(w != i);
                let wn: int = if w < i { w } else { w - 1 };
                assert(a2[wn] == v.active_reduce[w]);
                assert(active_has(a2, c));
            }
        }
        assert(reduce_wf(v2));
        assert(map_wf(v2));
        assert(counters_wf(v2));
    }
}

/// What a lease sweep keeps and what it reclaims: every active entry
/// ends up on exactly one side according to its lease, both sides draw
/// their identities from the active set, and distinct identities stay
/// distinct and on disjoint sides.
pub proof fn lemma_reclaim_props<A>(a: Seq<(A, int)>, now: int, lease: int)
    requires
        forall|i: int, j: int| 0 <= i < j < a.len() ==> a[i].0 != a[j].0,
    ensures
        forall|x: int|
            0 <= x < kept_tasks(a, now, lease).len() ==> active_has(
                a,
                (#[trigger] kept_tasks(a, now, lease)[x]).0,
            ),
        forall|x: int|
            0 <= x < reclaimed_tasks(a, now, lease).len() ==> active_has(
                a,
                #[trigger] reclaimed_tasks(a, now, lease)[x],
            ),
        forall|w: int|
            0 <= w < a.len() && expired((#[trigger] a[w]).1, lease, now) ==> reclaimed_tasks(
                a,
                now,
                lease,
            ).contains(a[w].0),
        forall|w: int|
            0 <= w < a.len() && !expired((#[trigger] a[w]).1, lease, now) ==> kept_tasks(
                a,
                now,
                lease,
            ).contains(a[w]),
        forall|x: int, y: int|
            0 <= x < y < kept_tasks(a, now, lease).len() ==> kept_tasks(a, now, lease)[x].0
                != kept_tasks(a, now, lease)[y].0,
        forall|x: int, y: int|
            0 <= x < y < reclaimed_tasks(a, now, lease).len() ==> reclaimed_tasks(a, now, lease)[x]
                != reclaimed_tasks(a, now, lease)[y],
        forall|x: int, y: int|
            0 <= x < kept_tasks(a, now, lease).len() && 0 <= y < reclaimed_tasks(
                a,
                now,
                lease,
            ).len() ==> kept_tasks(a, now, lease)[x].0 != reclaimed_tasks(a, now, lease)[y],
    decreases a.len(),
{
    let ka = kept_tasks(a, now, lease);
    let ra = reclaimed_tasks(a, now, lease);
    if a.len() > 0 {
        let d = a.drop_last();
        let e = a.last();
        lemma_reclaim_props(d, now, lease);
        let kd = kept_tasks(d, now, lease);
        let rd = reclaimed_tasks(d, now, lease);
        // identities on either side of the prefix are keys of the prefix,
        // lifted to the whole sequence; the last identity is new to them
        assert forall|x: int| 0 <= x < kd.len() implies active_has(a, (#[trigger] kd[x]).0)
            && kd[x].0 != e.0 by {
            assert(kd[x] == kept_tasks(d, now, lease)[x]);
            assert(active_has(d, kd[x].0));
            let w = active_idx(d, kd[x].0);
            assert(0 <= w < d.len() && d[w].0 == kd[x].0);
            assert(a[w].0 == kd[x].0);
            assert(active_has(a, kd[x].0));
            assert(a[w].0 != a[a.len() - 1].0);
        }
        assert forall|y: int| 0 <= y < rd.len() implies active_has(a, #[trigger] rd[y]) && rd[y]
            != e.0 by {
            assert(rd[y] == reclaimed_tasks(d, now, lease)[y]);
            assert(active_has(d, rd[y]));
            let w = active_idx(d, rd[y]);
            assert(0 <= w < d.len() && d[w].0 == rd[y]);
            assert(a[w].0 == rd[y]);
            assert(active_has(a, rd[y]));
            assert(a[w].0 != a[a.len() - 1].0);
        }
        if expired(e.1, lease, now) {
            assert(ka == kd);
            assert(ra == rd.push(e.0));
            assert(ra[rd.len() as int] == e.0);
            assert(active_has(a, e.0)) by {
                assert(a[a.len() - 1].0 == e.0);
            }
            assert forall|w: int|
                0 <= w < a.len() && expired((#[trigger] a[w]).1, lease, now) implies ra.contains(
                a[w].0,
            ) by {
                if w < a.len() - 1 {
                    assert(rd.contains(d[w].0));
                    let y = choose|y: int| 0 <= y < rd.len() && rd[y] == d[w].0;
                    assert(ra[y] == d[w].0);
                } else {
                    assert(ra[rd.len() as int] == a[w].0);
                }
            }
            assert forall|w: int|
                0 <= w < a.len() && !expired((#[trigger] a[w]).1, lease, now) implies ka.contains(
                a[w],
            ) by {
                assert(w < a.len() - 1);
                assert(kd.contains(d[w]));
            }
        } else {
            assert(ka == kd.push(e));
            assert(ra == rd);
            assert(ka[kd.len() as int] == e);
            assert(active_has(a, e.0)) by {
                assert(a[a.len() - 1].0 == e.0);
            }
            assert forall|w: int|
                0 <= w < a.len() && expired((#[trigger] a[w]).1, lease, now) implies ra.contains(
                a[w].0,
            ) by {
                assert(w < a.len() - 1);
                assert(rd.contains(d[w].0));
            }
            assert forall|w: int|
                0 <= w < a.len() && !expired((#[trigger] a[w]).1, lease, now) implies ka.contains(
                a[w],
            ) by {
                if w < a.len() - 1 {
                    assert(kd.contains(d[w]));
                    let y = choose|y: int| 0 <= y < kd.len() && kd[y] == d[w];
                    assert(ka[y] == d[w]);
                } else {
                    assert(ka[kd.len() as int] == a[w]);
                }
            }
        }
    }
}

/// A lease sweep preserves the invariant: the reclaimed identities
/// rejoin pending without meeting themselves or anything finished.
pub proof fn lemma_reschedule_preserves_wf(v: TaskDataView, now: int, lease: int)
    requires
        wf(v),
    ensures
        wf(reschedule_transition(v, now, lease)),
{
    let v2 = reschedule_transition(v, now, lease);
    lemma_reclaim_props(v.active_map, now, lease);
    lemma_reclaim_props(v.active_reduce, now, lease);
    let km = kept_tasks(v.active_map, now, lease);
    let rm = reclaimed_tasks(v.active_map, now, lease);
    let kr = kept_tasks(v.active_reduce, now, lease);
    let rr = reclaimed_tasks(v.active_reduce, now, lease);
    let p2 = v.pending_map + rm;

    // every key on either side is an active key of the old state
    assert forall|x: int| 0 <= x < km.len() implies active_has(
        v.active_map,
        (#[trigger] km[x]).0,
    ) && v.input_files.contains(km[x].0) && !v.finished_map_files.contains(km[x].0) by {
        assert(active_has(v.active_map, km[x].0));
        let w = active_idx(v.active_map, km[x].0);
        assert(0 <= w < v.active_map.len() && v.active_map[w].0 == km[x].0);
    }
    assert forall|y: int| 0 <= y < rm.len() implies active_has(
        v.active_map,
        #[trigger] rm[y],
    ) && v.input_files.contains(rm[y]) && !v.finished_map_files.contains(rm[y]) by {
        assert(active_has(v.active_map, rm[y]));
        let w = active_idx(v.active_map, rm[y]);
        assert(0 <= w < v.active_map.len() && v.active_map[w].0 == rm[y]);
    }
    // the new pending queue: old pending, then the reclaimed names
    assert forall|x: int, y: int| 0 <= x < y < p2.len() implies p2[x] != p2[y] by {
        if x < v.pending_map.len() && y >= v.pending_map.len() {
            assert(p2[x] == v.pending_map[x]);
            assert(p2[y] == rm[y - v.pending_map.len()]);
            assert(active_has(v.active_map, rm[y - v.pending_map.len()]));
            if v.pending_map[x] == rm[y - v.pending_map.len()] {
                assert(active_has(v.active_map, v.pending_map[x]));
            }
        } else if x >= v.pending_map.len() {
            assert(p2[x] == rm[x - v.pending_map.len()]);
            assert(p2[y] == rm[y - v.pending_map.len()]);
        } else {
            assert(p2[x] == v.pending_map[x]);
            assert(p2[y] == v.pending_map[y]);
        }
    }
    assert forall|x: int| 0 <= x < p2.len() implies !active_has(km, #[trigger] p2[x])
        && !v2.finished_map_files.contains(p2[x]) && v2.input_files.contains(p2[x]) by {
        if active_has(km, p2[x]) {
            let w = active_idx(km, p2[x]);
            assert(0 <= w < km.len() && km[w].0 == p2[x]);
            assert(active_has(v.active_map, km[w].0));
        }
        if x < v.pending_map.len() {
            assert(p2[x] == v.pending_map[x]);
            if active_has(km, p2[x]) {
                assert(active_has(v.active_map, v.pending_map[x]));
            }
        } else {
            assert(p2[x] == rm[x - v.pending_map.len()]);
        }
    }
    // coverage of the input files
    assert forall|g: Seq<char>| v2.input_files.contains(g) implies v2.pending_map.contains(g)
        || active_has(v2.active_map, g) || v2.finished_map_files.contains(g) by {
        if v.pending_map.contains(g) {
            let w = choose|w: int| 0 <= w < v.pending_map.len() && v.pending_map[w] == g;
            assert(p2[w] == g);
            assert(p2.contains(g));
        } else if active_has(v.active_map, g) {
            let w = active_idx(v.active_map, g);
            assert(0 <= w < v.active_map.len() && v.active_map[w].0 == g);
            if expired(v.active_map[w].1, lease, now) {
                assert(rm.contains(g));
                let y = choose|y: int| 0 <= y < rm.len() && rm[y] == g;
                assert(p2[v.pending_map.len() + y] == g);
                assert(p2.contains(g));
            } else {
                assert(km.contains(v.active_map[w]));
                let y = choose|y: int| 0 <= y < km.len() && km[y] == v.active_map[w];
                assert(km[y].0 == g);
                assert(active_has(km, g));
            }
        }
    }
    if v.map_done {
        assert(v.active_map.len() == 0);
        assert(rm.len() == 0);
        assert(km.len() == 0);
    }
    assert(map_wf(v2));

    // the reduce phase, symmetrically
    let q2 = v.pending_reduce + rr;
    assert forall|x: int| 0 <= x < kr.len() implies active_has(
        v.active_reduce,
        (#[trigger] kr[x]).0,
    ) && 0 <= kr[x].0 < v.n_reduce && !v.finished_reduce.contains(kr[x].0) by {
        assert(active_has(v.active_reduce, kr[x].0));
        let w = active_idx(v.active_reduce, kr[x].0);
        assert(0 <= w < v.active_reduce.len() && v.active_reduce[w].0 == kr[x].0);
    }
    assert forall|y: int| 0 <= y < rr.len() implies active_has(
        v.active_reduce,
        #[trigger] rr[y],
    ) && 0 <= rr[y] < v.n_reduce && !v.finished_reduce.contains(rr[y]) by {
        assert(active_has(v.active_reduce, rr[y]));
        let w = active_idx(v.active_reduce, rr[y]);
        assert(0 <= w < v.active_reduce.len() && v.active_reduce[w].0 == rr[y]);
    }
    assert forall|x: int, y: int| 0 <= x < y < q2.len() implies q2[x] != q2[y] by {
        if x < v.pending_reduce.len() && y >= v.pending_reduce.len() {
            assert(q2[x] == v.pending_reduce[x]);
            assert(q2[y] == rr[y - v.pending_reduce.len()]);
            assert(active_has(v.active_reduce, rr[y - v.pending_reduce.len()]));
            if v.pending_reduce[x] == rr[y - v.pending_reduce.len()] {
                assert(active_has(v.active_reduce, v.pending_reduce[x]));
            }
        } else if x >= v.pending_reduce.len() {
            assert(q2[x] == rr[x - v.pending_reduce.len()]);
            assert(q2[y] == rr[y - v.pending_reduce.len()]);
        } else {
            assert(q2[x] == v.pending_reduce[x]);
            assert(q2[y] == v.pending_reduce[y]);
        }
    }
    assert forall|x: int| 0 <= x < q2.len() implies 0 <= #[trigger] q2[x] < v2.n_reduce
        && !active_has(kr, q2[x]) && !v2.finished_reduce.contains(q2[x]) by {
        if active_has(kr, q2[x]) {
            let w = active_idx(kr, q2[x]);
            assert(0 <= w < kr.len() && kr[w].0 == q2[x]);
            assert(active_has(v.active_reduce, kr[w].0));
        }
        if x < v.pending_reduce.len() {
            assert(q2[x] == v.pending_reduce[x]);
            if active_has(kr, q2[x]) {
                assert(active_has(v.active_reduce, v.pending_reduce[x]));
            }
        } else {
            assert(q2[x] == rr[x - v.pending_reduce.len()]);
        }
    }
    if v.map_done {
        assert forall|c: int| 0 <= c < v2.n_reduce implies v2.pending_reduce.contains(c)
            || active_has(v2.active_reduce, c) || v2.finished_reduce.contains(c) by {
            if v.pending_reduce.contains(c) {
                let w = choose|w: int| 0 <= w < v.pending_reduce.len() && v.pending_reduce[w] == c;
                assert(q2[w] == c);
                assert(q2.contains(c));
            } else if active_has(v.active_reduce, c) {
                let w = active_idx(v.active_reduce, c);
                assert(0 <= w < v.active_reduce.len() && v.active_reduce[w].0 == c);
                if expired(v.active_reduce[w].1, lease, now) {
                    assert(rr.contains(c));
                    let y = choose|y: int| 0 <= y < rr.len() && rr[y] == c;
                    assert(q2[v.pending_reduce.len() + y] == c);
                    assert(q2.contains(c));
                } else {
                    assert(kr.contains(v.active_reduce[w]));
                    let y = choose|y: int| 0 <= y < kr.len() && kr[y] == v.active_reduce[w];
                    assert(kr[y].0 == c);
                    assert(active_has(kr, c));
                }
            }
        }
    }
    if !v.map_done {
        assert(v.active_reduce.len() == 0 && v.pending_reduce.len() == 0);
        assert(rr.len() == 0);
        assert(kr.len() == 0);
    }
    if v.reduce_done {
        assert(v.active_reduce.len() == 0 && v.pending_reduce.len() == 0);
        assert(rr.len() == 0);
        assert(kr.len() == 0);
    }
    assert(reduce_wf(v2));
    assert(counters_wf(v2));
}

/// No task duplication: under the invariant, a filename is in at most
/// one of the map phase's pending queue, active set and finished set,
/// and an input file is in exactly one of them.
pub proof fn lemma_map_task_exclusive(v: TaskDataView, f: Seq<char>)
    requires
        wf(v),
    ensures
        !(v.pending_map.contains(f) && active_has(v.active_map, f)),
        !(v.pending_map.contains(f) && v.finished_map_files.contains(f)),
        !(active_has(v.active_map, f) && v.finished_map_files.contains(f)),
        v.input_files.contains(f) ==> v.pending_map.contains(f) || active_has(v.active_map, f)
            || v.finished_map_files.contains(f),
{
    if v.pending_map.contains(f) {
        let i = choose|i: int| 0 <= i < v.pending_map.len() && v.pending_map[i] == f;
        assert(!active_has(v.active_map, v.pending_map[i]));
        assert(!v.finished_map_files.contains(v.pending_map[i]));
    }
    if active_has(v.active_map, f) {
        let w = active_idx(v.active_map, f);
        assert(0 <= w < v.active_map.len() && v.active_map[w].0 == f);
        assert(!v.finished_map_files.contains(v.active_map[w].0));
    }
}

/// No task duplication for the reduce phase: a bucket index is in at
/// most one of pending, active and finished, and once the map phase is
/// done every bucket of the job is in exactly one of them.
pub proof fn lemma_reduce_task_exclusive(v: TaskDataView, b: int)
    requires
        wf(v),
    ensures
        !(v.pending_reduce.contains(b) && active_has(v.active_reduce, b)),
        !(v.pending_reduce.contains(b) && v.finished_reduce.contains(b)),
        !(active_has(v.active_reduce, b) && v.finished_reduce.contains(b)),
        v.map_done && 0 <= b < v.n_reduce ==> v.pending_reduce.contains(b) || active_has(
            v.active_reduce,
            b,
        ) || v.finished_reduce.contains(b),
{
    if v.pending_reduce.contains(b) {
        let i = choose|i: int| 0 <= i < v.pending_reduce.len() && v.pending_reduce[i] == b;
        assert(!active_has(v.active_reduce, v.pending_reduce[i]));
        assert(!v.finished_reduce.contains(v.pending_reduce[i]));
    }
    if active_has(v.active_reduce, b) {
        let w = active_idx(v.active_reduce, b);
        assert(0 <= w < v.active_reduce.len() && v.active_reduce[w].0 == b);
        assert(!v.finished_reduce.contains(v.active_reduce[w].0));
    }
}

/// Completeness of the map phase: once `map_done` holds, the finished
/// files are exactly the job's input files — every input file has
/// contributed to exactly one completed map task.
pub proof fn lemma_map_completeness(v: TaskDataView)
    requires
        wf(v),
        v.map_done,
    ensures
        v.finished_map_files =~= v.input_files,
{
    assert forall|f: Seq<char>| v.input_files.contains(f) implies v.finished_map_files.contains(
        f,
    ) by {
        assert(v.pending_map.len() == 0 && v.active_map.len() == 0);
        assert(!v.pending_map.contains(f));
        assert(!active_has(v.active_map, f));
    }
}

/// Completeness of the reduce phase: once `reduce_done` holds, the
/// finished buckets are exactly the job's buckets — every bucket has
/// exactly one completed reduce task.
pub proof fn lemma_reduce_completeness(v: TaskDataView)
    requires
        wf(v),
        v.reduce_done,
    ensures
        v.finished_reduce =~= bucket_range(v.n_reduce),
{
    assert forall|b: int| bucket_range(v.n_reduce).contains(b) implies v.finished_reduce.contains(
        b,
    ) by {
        assert(v.map_done);
        assert(v.pending_reduce.len() == 0 && v.active_reduce.len() == 0);
        assert(!v.pending_reduce.contains(b));
        assert(!active_has(v.active_reduce, b));
    }
}

/// Reassignment correctness: when an active map task's lease has run
/// out, the sweep returns its file to the pending queue and it stops
/// being active, so a late completion report for it changes nothing,
/// while a fresh dispatch would hand the file out under a task number
/// that was never issued before.
pub proof fn lemma_reassignment(v: TaskDataView, w: int, now: int, lease: int)
    requires
        wf(v),
        0 <= w < v.active_map.len(),
        expired(v.active_map[w].1, lease, now),
    ensures
        reschedule_transition(v, now, lease).pending_map.contains(v.active_map[w].0),
        !active_has(reschedule_transition(v, now, lease).active_map, v.active_map[w].0),
        forall|num: int|
            done_map_transition(reschedule_transition(v, now, lease), num, v.active_map[w].0)
                == reschedule_transition(v, now, lease),
        !v.issued_map_nums.contains(reschedule_transition(v, now, lease).map_counter),
{
    let v2 = reschedule_transition(v, now, lease);
    let f = v.active_map[w].0;
    lemma_reclaim_props(v.active_map, now, lease);
    let km = kept_tasks(v.active_map, now, lease);
    let rm = reclaimed_tasks(v.active_map, now, lease);
    // the file is reclaimed, hence pending again
    assert(rm.contains(f));
    let y = choose|y: int| 0 <= y < rm.len() && rm[y] == f;
    assert(v2.pending_map[v.pending_map.len() + y] == f);
    assert(v2.pending_map.contains(f));
    // and no kept entry carries it
    assert(!active_has(km, f)) by {
        if active_has(km, f) {
            let x = active_idx(km, f);
            assert(0 <= x < km.len() && km[x].0 == f);
            assert(km[x].0 != rm[y]);
        }
    }
    // so a late report finds nothing active and is ignored
    assert forall|num: int| done_map_transition(v2, num, f) == v2 by {
        assert(!active_has(v2.active_map, f));
    }
    // the next task number was never issued
    assert(v2.map_counter == v.map_counter);
    if v.issued_map_nums.contains(v.map_counter) {
        assert(v.map_counter < v.map_counter);
    }
}

/// Reassignment correctness for the reduce phase: an expired bucket
/// returns to the pending queue and stops being active, so a late
/// completion report for it changes nothing until it is dispatched
/// afresh.
pub proof fn lemma_reassignment_reduce(v: TaskDataView, w: int, now: int, lease: int)
    requires
        wf(v),
        0 <= w < v.active_reduce.len(),
        expired(v.active_reduce[w].1, lease, now),
    ensures
        reschedule_transition(v, now, lease).pending_reduce.contains(v.active_reduce[w].0),
        !active_has(reschedule_transition(v, now, lease).active_reduce, v.active_reduce[w].0),
        done_reduce_transition(reschedule_transition(v, now, lease), v.active_reduce[w].0)
            == reschedule_transition(v, now, lease),
{
    let v2 = reschedule_transition(v, now, lease);
    let b = v.active_reduce[w].0;
    lemma_reclaim_props(v.active_reduce, now, lease);
    let kr = kept_tasks(v.active_reduce, now, lease);
    let rr = reclaimed_tasks(v.active_reduce, now, lease);
    assert(rr.contains(b));
    let y = choose|y: int| 0 <= y < rr.len() && rr[y] == b;
    assert(v2.pending_reduce[v.pending_reduce.len() + y] == b);
    assert(v2.pending_reduce.contains(b));
    assert(!active_has(kr, b)) by {
        if active_has(kr, b) {
            let x = active_idx(kr, b);
            assert(0 <= x < kr.len() && kr[x].0 == b);
            assert(kr[x].0 != rr[y]);
        }
    }
}

/// Idempotent finish: once a phase's done flag is set, no transition
/// clears it again, and a request never returns a task of that phase —
/// with the whole job done, every request returns `Finished` and leaves
/// the state unchanged.
pub proof fn lemma_idempotent_finish(v: TaskDataView, now: int, lease: int, num: int, f: Seq<char>)
    requires
        wf(v),
    ensures
        v.map_done ==> request_transition(v, now).map_done && done_map_transition(
            v,
            num,
            f,
        ).map_done && done_reduce_transition(v, num).map_done && reschedule_transition(
            v,
            now,
            lease,
        ).map_done,
        v.reduce_done ==> request_transition(v, now).reduce_done && done_map_transition(
            v,
            num,
            f,
        ).reduce_done && done_reduce_transition(v, num).reduce_done && reschedule_transition(
            v,
            now,
            lease,
        ).reduce_done,
        v.map_done ==> (match request_reply(v, now) {
            Some(r) => r.task_type != TaskType::MapTask,
            None => true,
        }),
        v.map_done && v.reduce_done ==> request_transition(v, now) == v && request_reply(v, now)
            == Some(
            ReplyView {
                task_type: TaskType::Finished,
                file_name: Seq::empty(),
                file_nums: Seq::empty(),
                task_num: 0,
                n_reduce: 0,
            },
        ),
{
    if v.map_done {
        assert(v.active_map.len() == 0);
        assert(!active_has(v.active_map, f));
        assert(done_map_transition(v, num, f) == v);
    }
    if v.reduce_done {
        assert(v.active_map.len() == 0 && v.active_reduce.len() == 0);
        assert(!active_has(v.active_map, f));
        assert(!active_has(v.active_reduce, num));
        assert(done_map_transition(v, num, f) == v);
        assert(done_reduce_transition(v, num) == v);
    }
}

} // verus!
