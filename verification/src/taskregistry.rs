//! The task registry of one work day, and the state machine that builds it.
//!
//! The registry holds the named tasks in first-referenced order with their
//! accumulated durations, the merged on-the-clock intervals, and the total
//! work duration. The builder consumes timestamped events and maintains the
//! tri-state lifecycle idle / day-tracking / task-active.

use crate::text::str_equal;
use crate::timelog::{EntryV, EventV, LogEvent, TimelogEntry};
use crate::timestamp::{lemma_instant_bounds, Timestamp, MAX_INSTANT, MIN_INSTANT};
use vstd::pervasive::unreached;
use vstd::prelude::*;

verus! {

/// Upper bound on every duration sum the registry can accumulate:
/// `MAX_INSTANT - MIN_INSTANT`.
pub const MAX_SUM: i64 = 5469883000;

/// Name of the synthetic task that absorbs off-the-clock gaps.
pub open spec fn pause_name() -> Seq<char> {
    seq!['P', 'a', 'u', 's', 'e']
}

/// Name of the synthetic bucket for clocked-in time with no task selected.
pub open spec fn undefined_name() -> Seq<char> {
    seq!['n', '/', 'n']
}

/// One named task with its accumulated duration.
#[derive(Debug)]
pub struct Task {
    pub name: String,
    /// Duration in minutes.
    pub duration_mins: u64,
    /// Whether the task was the open one when the registry was last written:
    /// set while a day is being built, and kept in a frozen registry only
    /// when the day was cut off by the end of the input.
    pub active: bool,
}

/// The mathematical form of a `Task`.
#[verifier::ext_equal]
pub struct TaskModel {
    pub name: Seq<char>,
    pub minutes: int,
    pub active: bool,
}

impl View for Task {
    type V = TaskModel;

    open spec fn view(&self) -> TaskModel {
        TaskModel { name: self.name@, minutes: self.duration_mins as int, active: self.active }
    }
}

impl PartialEq for Task {
    fn eq(&self, other: &Task) -> (r: bool) {
        str_equal(self.name.as_str(), other.name.as_str()) && self.duration_mins
            == other.duration_mins && self.active == other.active
    }
}

impl vstd::std_specs::cmp::PartialEqSpecImpl for Task {
    open spec fn obeys_eq_spec() -> bool {
        true
    }

    open spec fn eq_spec(&self, other: &Task) -> bool {
        self@ == other@
    }
}

impl Task {
    /// A task with the given name and duration, not active.
    pub fn new(name: &str, duration_mins: u64) -> (r: Task)
        ensures
            r@ == (TaskModel { name: name@, minutes: duration_mins as int, active: false }),
    {
        Task { name: name.to_owned(), duration_mins, active: false }
    }
}

/// The lifecycle of the builder: outside any work day, clocked in without a
/// task, or timing a named task.
#[derive(PartialEq, Eq, Structural, Clone, Copy, Debug)]
pub enum State {
    Idle,
    DayTracking,
    TaskActive,
}

/// Sum of all task durations.
pub open spec fn sum_all(tasks: Seq<TaskModel>) -> int
    decreases tasks.len(),
{
    if tasks.len() == 0 {
        0
    } else {
        sum_all(tasks.drop_last()) + tasks.last().minutes
    }
}

/// Sum of the durations of every task not named "Pause".
pub open spec fn sum_non_pause(tasks: Seq<TaskModel>) -> int
    decreases tasks.len(),
{
    if tasks.len() == 0 {
        0
    } else {
        sum_non_pause(tasks.drop_last()) + if tasks.last().name != pause_name() {
            tasks.last().minutes
        } else {
            0
        }
    }
}

/// Sum of the lengths of the work intervals.
pub open spec fn sum_intervals(wt: Seq<(Timestamp, Timestamp)>) -> int
    decreases wt.len(),
{
    if wt.len() == 0 {
        0
    } else {
        sum_intervals(wt.drop_last()) + (wt.last().1.instant() - wt.last().0.instant())
    }
}

proof fn lemma_sum_all_update(tasks: Seq<TaskModel>, i: int, x: TaskModel)
    requires
        0 <= i < tasks.len(),
    ensures
        sum_all(tasks.update(i, x)) == sum_all(tasks) - tasks[i].minutes + x.minutes,
    decreases tasks.len(),
{
    if i == tasks.len() - 1 {
        assert(tasks.update(i, x).drop_last() =~= tasks.drop_last());
    } else {
        lemma_sum_all_update(tasks.drop_last(), i, x);
        assert(tasks.update(i, x).drop_last() =~= tasks.drop_last().update(i, x));
    }
}

proof fn lemma_sum_non_pause_update(tasks: Seq<TaskModel>, i: int, x: TaskModel)
    requires
        0 <= i < tasks.len(),
    ensures
        sum_non_pause(tasks.update(i, x)) == sum_non_pause(tasks) - (if tasks[i].name
            != pause_name() {
            tasks[i].minutes
        } else {
            0
        }) + (if x.name != pause_name() {
            x.minutes
        } else {
            0
        }),
    decreases tasks.len(),
{
    if i == tasks.len() - 1 {
        assert(tasks.update(i, x).drop_last() =~= tasks.drop_last());
    } else {
        lemma_sum_non_pause_update(tasks.drop_last(), i, x);
        assert(tasks.update(i, x).drop_last() =~= tasks.drop_last().update(i, x));
    }
}

proof fn lemma_sum_all_bounds_each(tasks: Seq<TaskModel>, i: int)
    requires
        0 <= i < tasks.len(),
        forall|j: int| 0 <= j < tasks.len() ==> (#[trigger] tasks[j]).minutes >= 0,
    ensures
        tasks[i].minutes <= sum_all(tasks),
        sum_all(tasks) >= 0,
    decreases tasks.len(),
{
    if i == tasks.len() - 1 {
        lemma_sum_all_nonneg(tasks.drop_last());
    } else {
        lemma_sum_all_bounds_each(tasks.drop_last(), i);
    }
}

proof fn lemma_sum_all_nonneg(tasks: Seq<TaskModel>)
    requires
        forall|j: int| 0 <= j < tasks.len() ==> (#[trigger] tasks[j]).minutes >= 0,
    ensures
        sum_all(tasks) >= 0,
    decreases tasks.len(),
{
    if tasks.len() > 0 {
        lemma_sum_all_nonneg(tasks.drop_last());
    }
}

/// The mathematical form of a `TaskRegistry`: the tasks in first-referenced
/// order, the name resolution map, the merged work intervals and their total
/// length, and the index of the task open at the day's last closure.
#[verifier::ext_equal]
pub struct RegistryModel {
    pub tasks: Seq<TaskModel>,
    pub names: Map<Seq<char>, int>,
    pub work_times: Seq<(Timestamp, Timestamp)>,
    pub work_minutes: int,
    pub last_active: Option<int>,
}

impl RegistryModel {
    pub open spec fn empty() -> RegistryModel {
        RegistryModel {
            tasks: Seq::empty(),
            names: Map::empty(),
            work_times: Seq::empty(),
            work_minutes: 0,
            last_active: None,
        }
    }

    /// The index a task name resolves to, if any.
    pub open spec fn resolve(self, name: Seq<char>) -> Option<int> {
        if self.names.contains_key(name) {
            Some(self.names[name])
        } else {
            None
        }
    }

    /// Internal consistency: the name map points at tasks bearing those
    /// names, durations are non-negative and their sum bounded, the total
    /// work duration is the sum of the interval lengths, and no two
    /// consecutive intervals touch (touching intervals are merged).
    pub open spec fn wf(self) -> bool {
        &&& forall|k: Seq<char>| self.names.contains_key(k) ==> 0 <= #[trigger] self.names[k]
            < self.tasks.len() && self.tasks[self.names[k]].name == k
        &&& forall|i: int| 0 <= i < self.tasks.len() ==> (#[trigger] self.tasks[i]).minutes >= 0
        &&& self.work_minutes == sum_intervals(self.work_times)
        &&& 0 <= self.work_minutes <= MAX_SUM
        &&& sum_all(self.tasks) <= MAX_SUM
        &&& forall|i: int| 0 <= i < self.work_times.len() ==> (#[trigger] self.work_times[i]).0.wf()
            && self.work_times[i].1.wf() && self.work_times[i].0.instant()
            <= self.work_times[i].1.instant()
        &&& forall|i: int| 0 <= i < self.work_times.len() - 1 ==> (
        #[trigger] self.work_times[i]).1.instant() != self.work_times[i + 1].0.instant()
        &&& match self.last_active {
            Some(i) => 0 <= i < self.tasks.len(),
            None => true,
        }
    }

    /// The day's account balances: every clocked-in minute is attributed to
    /// exactly one task other than "Pause".
    pub open spec fn balanced(self) -> bool {
        sum_non_pause(self.tasks) == self.work_minutes
    }

    /// Sets a task's active flag, creating the task with zero duration on
    /// first use.
    pub open spec fn add_task(self, name: Seq<char>, active: bool) -> RegistryModel {
        match self.resolve(name) {
            Some(i) => RegistryModel {
                tasks: self.tasks.update(
                    i,
                    TaskModel { name: self.tasks[i].name, minutes: self.tasks[i].minutes, active },
                ),
                ..self
            },
            None => RegistryModel {
                tasks: self.tasks.push(TaskModel { name, minutes: 0, active }),
                names: self.names.insert(name, self.tasks.len() as int),
                ..self
            },
        }
    }

    /// Adds elapsed minutes to the named task and writes its active flag;
    /// `None` when the name does not resolve.
    pub open spec fn record(self, name: Seq<char>, minutes: int, keep_active: bool) -> Option<
        RegistryModel,
    > {
        match self.resolve(name) {
            Some(i) => Some(
                RegistryModel {
                    tasks: self.tasks.update(
                        i,
                        TaskModel {
                            name: self.tasks[i].name,
                            minutes: self.tasks[i].minutes + minutes,
                            active: keep_active,
                        },
                    ),
                    ..self
                },
            ),
            None => None,
        }
    }

    /// Renames the task `from` resolves to: the task keeps its position and
    /// duration, `from` stops resolving, and `to` resolves to it. `None`
    /// when `from` does not resolve.
    pub open spec fn rename(self, to: Seq<char>, from: Seq<char>) -> Option<RegistryModel> {
        match self.resolve(from) {
            Some(i) => Some(
                RegistryModel {
                    tasks: self.tasks.update(
                        i,
                        TaskModel {
                            name: to,
                            minutes: self.tasks[i].minutes,
                            active: self.tasks[i].active,
                        },
                    ),
                    names: self.names.remove(from).insert(to, i),
                    ..self
                },
            ),
            None => None,
        }
    }

    /// Appends a work interval, extending the last one instead when the new
    /// interval starts exactly where the last one ends.
    pub open spec fn add_work_time(self, from: Timestamp, to: Timestamp) -> RegistryModel {
        let wd = self.work_minutes + (to.instant() - from.instant());
        if self.work_times.len() > 0 && self.work_times.last().1.instant() == from.instant() {
            RegistryModel {
                work_times: self.work_times.update(
                    self.work_times.len() - 1,
                    (self.work_times.last().0, to),
                ),
                work_minutes: wd,
                ..self
            }
        } else {
            RegistryModel {
                work_times: self.work_times.push((from, to)),
                work_minutes: wd,
                ..self
            }
        }
    }

    /// Records which task was open at the day's closure.
    pub open spec fn with_last_active(self, la: Option<int>) -> RegistryModel {
        RegistryModel { last_active: la, ..self }
    }
}

/// The resolution map an association list denotes; a later entry for the
/// same key shadows an earlier one.
pub open spec fn names_map(s: Seq<(String, usize)>) -> Map<Seq<char>, int>
    decreases s.len(),
{
    if s.len() == 0 {
        Map::empty()
    } else {
        names_map(s.drop_last()).insert(s.last().0@, s.last().1 as int)
    }
}

/// No two entries of the association list share a key.
pub open spec fn names_distinct(s: Seq<(String, usize)>) -> bool {
    forall|i: int, j: int| 0 <= i < j < s.len() ==> (#[trigger] s[i]).0@ != (#[trigger] s[j]).0@
}

proof fn lemma_names_map_entry(s: Seq<(String, usize)>, i: int)
    requires
        names_distinct(s),
        0 <= i < s.len(),
    ensures
        names_map(s).contains_key(s[i].0@),
        names_map(s)[s[i].0@] == s[i].1 as int,
    decreases s.len(),
{
    if i < s.len() - 1 {
        assert(names_distinct(s.drop_last()));
        lemma_names_map_entry(s.drop_last(), i);
        assert(s[s.len() - 1].0@ != s[i].0@);
    }
}

proof fn lemma_names_map_no_entry(s: Seq<(String, usize)>, k: Seq<char>)
    requires
        forall|i: int| 0 <= i < s.len() ==> (#[trigger] s[i]).0@ != k,
    ensures
        !names_map(s).contains_key(k),
    decreases s.len(),
{
    if s.len() > 0 {
        lemma_names_map_no_entry(s.drop_last(), k);
    }
}

proof fn lemma_names_map_remove(s: Seq<(String, usize)>, i: int)
    requires
        names_distinct(s),
        0 <= i < s.len(),
    ensures
        names_map(s.remove(i)) =~= names_map(s).remove(s[i].0@),
    decreases s.len(),
{
    if i == s.len() - 1 {
        assert(s.remove(i) =~= s.drop_last());
        lemma_names_map_no_entry_of_distinct(s);
        assert(names_map(s.drop_last()).insert(s.last().0@, s.last().1 as int).remove(s.last().0@)
            =~= names_map(s.drop_last()).remove(s.last().0@));
        assert(names_map(s.drop_last()).remove(s.last().0@) =~= names_map(s.drop_last()));
    } else {
        assert(names_distinct(s.drop_last()));
        lemma_names_map_remove(s.drop_last(), i);
        assert(s.remove(i).drop_last() =~= s.drop_last().remove(i));
        assert(s.remove(i).last() == s.last());
        assert(s[i].0@ != s.last().0@);
        assert(names_map(s.remove(i)) =~= names_map(s.drop_last().remove(i)).insert(
            s.last().0@,
            s.last().1 as int,
        ));
        assert(names_map(s.drop_last()).remove(s[i].0@).insert(s.last().0@, s.last().1 as int)
            =~= names_map(s.drop_last()).insert(s.last().0@, s.last().1 as int).remove(s[i].0@));
    }
}

/// In a distinct association list the last entry's key occurs nowhere
/// earlier, so removing it from the denoted map is a no-op on the prefix.
proof fn lemma_names_map_no_entry_of_distinct(s: Seq<(String, usize)>)
    requires
        names_distinct(s),
        s.len() > 0,
    ensures
        !names_map(s.drop_last()).contains_key(s.last().0@),
{
    assert(forall|i: int| 0 <= i < s.len() - 1 ==> (#[trigger] s.drop_last()[i]).0@
        != s.last().0@);
    lemma_names_map_no_entry(s.drop_last(), s.last().0@);
}

/// Why the state machine rejected an event.
#[derive(Debug)]
pub enum Error {
    /// The event is not legal in the current state.
    InvalidTransition(LogEvent, State),
    /// The event's timestamp precedes the open segment's start (carried as
    /// the first payload).
    NonContinuousTimestamp(Timestamp, Timestamp),
    /// A task name that had to resolve did not.
    UnknownTask(String),
}

/// The mathematical form of an `Error`.
pub enum ErrorV {
    InvalidTransition(EventV, State),
    NonContinuousTimestamp(Timestamp, Timestamp),
    UnknownTask(Seq<char>),
}

impl View for Error {
    type V = ErrorV;

    open spec fn view(&self) -> ErrorV {
        match self {
            Error::InvalidTransition(e, s) => ErrorV::InvalidTransition(e@, *s),
            Error::NonContinuousTimestamp(a, b) => ErrorV::NonContinuousTimestamp(*a, *b),
            Error::UnknownTask(n) => ErrorV::UnknownTask(n@),
        }
    }
}

impl PartialEq for Error {
    fn eq(&self, other: &Error) -> (r: bool) {
        match (self, other) {
            (Error::InvalidTransition(e1, s1), Error::InvalidTransition(e2, s2)) => e1 == e2 && s1
                == s2,
            (
                Error::NonContinuousTimestamp(a1, b1),
                Error::NonContinuousTimestamp(a2, b2),
            ) => a1 == a2 && b1 == b2,
            (Error::UnknownTask(n1), Error::UnknownTask(n2)) => str_equal(
                n1.as_str(),
                n2.as_str(),
            ),
            _ => false,
        }
    }
}

impl vstd::std_specs::cmp::PartialEqSpecImpl for Error {
    open spec fn obeys_eq_spec() -> bool {
        true
    }

    open spec fn eq_spec(&self, other: &Error) -> bool {
        self@ == other@
    }
}

/// Looks a key up in the association list, returning its value.
fn assoc_find(names: &Vec<(String, usize)>, key: &str) -> (r: Option<usize>)
    requires
        names_distinct(names@),
    ensures
        match r {
            Some(v) => names_map(names@).contains_key(key@) && names_map(names@)[key@] == v as int,
            None => !names_map(names@).contains_key(key@),
        },
{
    let n = names.len();
    let mut j: usize = 0;
    while j < n
        invariant
            0 <= j <= n,
            n == names@.len(),
            names_distinct(names@),
            forall|x: int| 0 <= x < j ==> (#[trigger] names@[x]).0@ != key@,
        decreases n - j,
    {
        if str_equal(names[j].0.as_str(), key) {
            proof {
                lemma_names_map_entry(names@, j as int);
            }
            return Some(names[j].1);
        }
        j = j + 1;
    }
    proof {
        lemma_names_map_no_entry(names@, key@);
    }
    None
}

/// Removes the entry of a key from the association list, returning its value.
fn assoc_remove(names: &mut Vec<(String, usize)>, key: &str) -> (r: Option<usize>)
    requires
        names_distinct(old(names)@),
    ensures
        names_distinct(final(names)@),
        match r {
            Some(v) => names_map(old(names)@).contains_key(key@) && names_map(old(names)@)[key@]
                == v as int && names_map(final(names)@) == names_map(old(names)@).remove(key@),
            None => final(names)@ == old(names)@ && !names_map(old(names)@).contains_key(key@),
        },
{
    let n = names.len();
    let mut j: usize = 0;
    while j < n
        invariant
            0 <= j <= n,
            n == names@.len(),
            names@ == old(names)@,
            names_distinct(names@),
            forall|x: int| 0 <= x < j ==> (#[trigger] names@[x]).0@ != key@,
        decreases n - j,
    {
        if str_equal(names[j].0.as_str(), key) {
            proof {
                lemma_names_map_entry(names@, j as int);
                lemma_names_map_remove(names@, j as int);
            }
            let v = names[j].1;
            let ghost pre = names@;
            names.remove(j);
            proof {
                assert(names_distinct(names@)) by {
                    assert forall|a: int, b: int| 0 <= a < b < names@.len() implies (
                    #[trigger] names@[a]).0@ != (#[trigger] names@[b]).0@ by {
                        let a0 = if a < j { a } else { a + 1 };
                        let b0 = if b < j { b } else { b + 1 };
                        assert(names@[a] == pre[a0] && names@[b] == pre[b0]);
                    }
                }
            }
            return Some(v);
        }
        j = j + 1;
    }
    proof {
        lemma_names_map_no_entry(names@, key@);
    }
    None
}

/// The frozen product of one work day.
#[derive(Debug)]
pub struct TaskRegistry {
    tasks: Vec<Task>,
    names: Vec<(String, usize)>,
    work_times: Vec<(Timestamp, Timestamp)>,
    work_duration_mins: u64,
    last_active: Option<usize>,
}

impl View for TaskRegistry {
    type V = RegistryModel;

    closed spec fn view(&self) -> RegistryModel {
        RegistryModel {
            tasks: self.tasks@.map_values(|t: Task| t@),
            names: names_map(self.names@),
            work_times: self.work_times@,
            work_minutes: self.work_duration_mins as int,
            last_active: match self.last_active {
                Some(i) => Some(i as int),
                None => None,
            },
        }
    }
}

impl TaskRegistry {
    /// Internal consistency of the representation and of the model.
    pub closed spec fn wf(self) -> bool {
        names_distinct(self.names@) && self@.wf()
    }

    /// A registry's well-formedness is stated on its model too.
    pub proof fn lemma_wf_model(&self)
        requires
            self.wf(),
        ensures
            self@.wf(),
    {
    }

    fn new() -> (r: TaskRegistry)
        ensures
            r@ == RegistryModel::empty(),
            r.wf(),
    {
        let r = TaskRegistry {
            tasks: Vec::new(),
            names: Vec::new(),
            work_times: Vec::new(),
            work_duration_mins: 0,
            last_active: None,
        };
        proof {
            assert(r@.tasks =~= Seq::<TaskModel>::empty());
            assert(r@.names =~= Map::<Seq<char>, int>::empty());
            assert(r@.work_times =~= Seq::<(Timestamp, Timestamp)>::empty());
            assert(r@ =~= RegistryModel::empty());
        }
        r
    }

    /// The tasks of the day, in first-referenced order.
    pub fn get_tasks(&self) -> (r: &Vec<Task>)
        ensures
            r@.map_values(|t: Task| t@) == self@.tasks,
    {
        &self.tasks
    }

    /// The start of the first work interval: the day's start.
    pub fn get_start_time(&self) -> (r: Option<Timestamp>)
        ensures
            match r {
                Some(t) => self@.work_times.len() > 0 && t == self@.work_times[0].0,
                None => self@.work_times.len() == 0,
            },
    {
        if self.work_times.len() > 0 {
            Some(self.work_times[0].0)
        } else {
            None
        }
    }

    /// The merged on-the-clock intervals, in order.
    pub fn get_work_times(&self) -> (r: &Vec<(Timestamp, Timestamp)>)
        ensures
            r@ == self@.work_times,
    {
        &self.work_times
    }

    /// The total clocked-in duration, in minutes.
    pub fn get_work_duration(&self) -> (r: u64)
        ensures
            r as int == self@.work_minutes,
    {
        self.work_duration_mins
    }

    /// The task that was open at the day's last closure, if it was a real
    /// task rather than the "n/n" bucket.
    pub fn get_last_active(&self) -> (r: Option<Task>)
        requires
            self.wf(),
        ensures
            match r {
                Some(t) => self@.last_active is Some && t@ == self@.tasks[self@.last_active->0],
                None => self@.last_active is None,
            },
    {
        match self.last_active {
            Some(i) => {
                let t = &self.tasks[i];
                Some(Task { name: t.name.clone(), duration_mins: t.duration_mins, active: t.active })
            },
            None => None,
        }
    }

    /// Adds elapsed minutes to the named task and writes its active flag.
    fn record_task_time(&mut self, name: &str, minutes: u64, keep_active: bool) -> (r: Result<
        usize,
        Error,
    >)
        requires
            old(self).wf(),
            sum_all(old(self)@.tasks) + minutes <= MAX_SUM,
        ensures
            match r {
                Ok(i) => old(self)@.resolve(name@) == Some(i as int) && old(self)@.record(
                    name@,
                    minutes as int,
                    keep_active,
                ) == Some(final(self)@) && final(self).wf(),
                Err(e) => *final(self) == *old(self) && e@ == ErrorV::UnknownTask(name@) && old(
                    self,
                )@.record(name@, minutes as int, keep_active) is None,
            },
{
        match assoc_find(&self.names, name) {
            None => Err(Error::UnknownTask(name.to_owned())),
            Some(i) => {
                proof {
                    lemma_sum_all_bounds_each(self@.tasks, i as int);
                }
                let t = &mut self.tasks[i];
                t.duration_mins = t.duration_mins + minutes;
                t.active = keep_active;
                proof {
                    let m = old(self)@;
                    let x = TaskModel {
                        name: m.tasks[i as int].name,
                        minutes: m.tasks[i as int].minutes + minutes,
                        active: keep_active,
                    };
                    assert(self@.tasks =~= m.tasks.update(i as int, x));
                    assert(self@ =~= m.record(name@, minutes as int, keep_active)->0);
                    lemma_sum_all_update(m.tasks, i as int, x);
                }
                Ok(i)
            },
        }
    }

    /// Sets a task's active flag, creating the task with zero duration on
    /// first use, preserving insertion order.
    fn add_task(&mut self, name: &str, active: bool)
        requires
            old(self).wf(),
        ensures
            final(self)@ == old(self)@.add_task(name@, active),
            final(self).wf(),
    {
        match assoc_find(&self.names, name) {
            Some(i) => {
                let t = &mut self.tasks[i];
                t.active = active;
                proof {
                    let m = old(self)@;
                    let x = TaskModel {
                        name: m.tasks[i as int].name,
                        minutes: m.tasks[i as int].minutes,
                        active,
                    };
                    assert(self@.tasks =~= m.tasks.update(i as int, x));
                    assert(self@ =~= m.add_task(name@, active));
                    lemma_sum_all_update(m.tasks, i as int, x);
                }
            },
            None => {
                let ghost m = self@;
                let ghost pre = self.names@;
                let idx = self.tasks.len();
                self.names.push((name.to_owned(), idx));
                self.tasks.push(Task { name: name.to_owned(), duration_mins: 0, active });
                proof {
                    assert(self.names@.drop_last() =~= pre);
                    assert(names_distinct(self.names@)) by {
                        assert forall|a: int, b: int|
                            0 <= a < b < self.names@.len() implies (#[trigger] self.names@[a]).0@
                            != (#[trigger] self.names@[b]).0@ by {
                            if b == self.names@.len() - 1 {
                                lemma_names_map_entry(pre, a);
                            }
                        }
                    }
                    let x = TaskModel { name: name@, minutes: 0, active };
                    assert(self@.tasks =~= m.tasks.push(x));
                    assert(self@.tasks.drop_last() =~= m.tasks);
                    assert(self@ =~= m.add_task(name@, active));
                }
            },
        }
    }

    /// Renames the task `from` resolves to, `to` taking over its entry.
    fn rename_task(&mut self, to: &str, from: &str) -> (r: Result<(), Error>)
        requires
            old(self).wf(),
        ensures
            match r {
                Ok(_) => old(self)@.rename(to@, from@) == Some(final(self)@) && final(self).wf(),
                Err(e) => final(self)@ == old(self)@ && final(self).wf() && e@
                    == ErrorV::UnknownTask(from@) && old(self)@.rename(to@, from@) is None,
            },
{
        let ghost m = old(self)@;
        let i = match assoc_remove(&mut self.names, from) {
            None => { return Err(Error::UnknownTask(from.to_owned())) },
            Some(i) => i,
        };
        let ghost afterfrom = names_map(self.names@);
        let _ = assoc_remove(&mut self.names, to);
        proof {
            assert(names_map(self.names@) =~= afterfrom.remove(to@));
        }
        let ghost pre = self.names@;
        self.names.push((to.to_owned(), i));
        proof {
            assert(self.names@.drop_last() =~= pre);
            assert(names_distinct(self.names@)) by {
                assert forall|a: int, b: int|
                    0 <= a < b < self.names@.len() implies (#[trigger] self.names@[a]).0@ != (
                #[trigger] self.names@[b]).0@ by {
                    if b == self.names@.len() - 1 {
                        lemma_names_map_entry(pre, a);
                    }
                }
            }
            assert(names_map(self.names@) =~= m.names.remove(from@).insert(to@, i as int));
        }
        let t = &mut self.tasks[i];
        t.name = to.to_owned();
        proof {
            let x = TaskModel {
                name: to@,
                minutes: m.tasks[i as int].minutes,
                active: m.tasks[i as int].active,
            };
            assert(self@.tasks =~= m.tasks.update(i as int, x));
            assert(self@ =~= m.rename(to@, from@)->0);
            lemma_sum_all_update(m.tasks, i as int, x);
            assert forall|k: Seq<char>| self@.names.contains_key(k) implies 0 <= #[trigger] self@.names[k]
                < self@.tasks.len() && self@.tasks[self@.names[k]].name == k by {
                if k != to@ {
                    assert(m.names.contains_key(k) && m.names[k] == self@.names[k]);
                    if m.names[k] == i as int {
                        assert(m.tasks[i as int].name == k && m.tasks[i as int].name == from@);
                    }
                }
            }
        }
        Ok(())
    }

    /// Appends a work interval, merging it with the last one when they touch.
    fn add_work_time(&mut self, from: Timestamp, to: Timestamp)
        requires
            old(self).wf(),
            from.wf(),
            to.wf(),
            from.instant() <= to.instant(),
            old(self)@.work_minutes + (to.instant() - from.instant()) <= MAX_SUM,
        ensures
            final(self)@ == old(self)@.add_work_time(from, to),
            final(self).wf(),
    {
        let ghost m = old(self)@;
        let diff: u64 = (to.instant_minutes() - from.instant_minutes()) as u64;
        self.work_duration_mins = self.work_duration_mins + diff;
        let n = self.work_times.len();
        if n > 0 {
            let last = self.work_times[n - 1];
            if last.1.instant_minutes() == from.instant_minutes() {
                let e = &mut self.work_times[n - 1];
                *e = (last.0, to);
                proof {
                    assert(self@.work_times =~= m.work_times.update(
                        m.work_times.len() - 1,
                        (m.work_times.last().0, to),
                    ));
                    assert(self@.work_times.drop_last() =~= m.work_times.drop_last());
                    assert(self@ =~= m.add_work_time(from, to));
                }
                return ;
            }
        }
        self.work_times.push((from, to));
        proof {
            assert(self@.work_times.drop_last() =~= m.work_times);
            assert(self@ =~= m.add_work_time(from, to));
        }
    }
}

/// The mathematical form of a `TaskRegistryBuilder`: the lifecycle state,
/// the open segment's start, the open task's name, the open work interval's
/// start, and the registry in progress.
#[verifier::ext_equal]
pub struct BuilderModel {
    pub start_time: Option<Timestamp>,
    pub state: State,
    pub current: Option<Seq<char>>,
    pub work_start: Option<Timestamp>,
    pub registry: RegistryModel,
}

impl BuilderModel {
    /// The builder's invariant, preserved by every accepted event: the
    /// registry is consistent; a fresh builder has an empty registry; while
    /// a segment is open, every accumulated minute lies between the day's
    /// start and the segment's start, which bounds all sums; outside a day
    /// the work duration is covered by the task durations; and while clocked
    /// in without a task the open task is the "n/n" bucket.
    pub open spec fn wf(self) -> bool {
        &&& self.registry.wf()
        &&& match self.start_time {
            None => self.state == State::Idle && self.registry == RegistryModel::empty(),
            Some(s) => s.wf() && sum_all(self.registry.tasks) <= s.instant()
                - MIN_INSTANT as int,
        }
        &&& if self.state == State::Idle {
            &&& self.work_start is None
            &&& self.registry.work_minutes <= sum_all(self.registry.tasks)
            &&& (self.registry == RegistryModel::empty() || self.registry.work_times.len() > 0)
        } else {
            &&& self.start_time is Some
            &&& self.work_start is Some
            &&& self.current is Some
            &&& self.work_start->0.wf()
            &&& self.work_start->0.instant() <= self.start_time->0.instant()
            &&& self.registry.work_minutes + (self.start_time->0.instant()
                - self.work_start->0.instant()) <= sum_all(self.registry.tasks)
            &&& (self.state == State::DayTracking ==> self.current == Some(undefined_name()))
        }
    }
}

/// Closes the open segment into the named task: the elapsed minutes since
/// the segment's start are added to it, and its active flag is written.
/// Errors: no day ever opened, time moved backward, or the name does not
/// resolve — in that order.
pub open spec fn close_segment(b: BuilderModel, name: Seq<char>, t: Timestamp, keep: bool) -> Result<
    RegistryModel,
    ErrorV,
> {
    match b.start_time {
        None => Err(ErrorV::UnknownTask(name)),
        Some(s) => {
            if t.instant() < s.instant() {
                Err(ErrorV::NonContinuousTimestamp(s, t))
            } else {
                match b.registry.record(name, t.instant() - s.instant(), keep) {
                    Some(r) => Ok(r),
                    None => Err(ErrorV::UnknownTask(name)),
                }
            }
        },
    }
}

/// Opens a task: the segment start moves to `t`, the task becomes current
/// and is marked active — except the "Pause" task, which is never active.
pub open spec fn open_task(b: BuilderModel, t: Timestamp, name: Seq<char>) -> BuilderModel {
    BuilderModel {
        start_time: Some(t),
        current: Some(name),
        registry: b.registry.add_task(name, name != pause_name()),
        ..b
    }
}

/// The transition table of the state machine: what one event does to the
/// builder, which registry it emits (only a day boundary `On` emits one),
/// and which events are rejected with which error.
pub open spec fn spec_step(b: BuilderModel, e: EntryV) -> Result<
    (BuilderModel, Option<RegistryModel>),
    ErrorV,
> {
    let t = e.time;
    match b.state {
        State::Idle => match e.event {
            EventV::On => {
                let emitted = if b.registry.work_times.len() > 0 {
                    Some(b.registry)
                } else {
                    None
                };
                let reg0 = if b.registry.work_times.len() > 0 {
                    RegistryModel::empty()
                } else {
                    b.registry
                };
                let b1 = BuilderModel { work_start: Some(t), registry: reg0, ..b };
                let b2 = open_task(b1, t, pause_name());
                match close_segment(b2, pause_name(), t, false) {
                    Ok(r) => {
                        let b3 = open_task(
                            BuilderModel { registry: r, ..b2 },
                            t,
                            undefined_name(),
                        );
                        Ok((BuilderModel { state: State::DayTracking, ..b3 }, emitted))
                    },
                    Err(err) => Err(err),
                }
            },
            EventV::Resume => {
                match close_segment(b, pause_name(), t, false) {
                    Ok(r) => {
                        let b1 = BuilderModel { work_start: Some(t), registry: r, ..b };
                        let b2 = open_task(b1, t, undefined_name());
                        Ok((BuilderModel { state: State::DayTracking, ..b2 }, None))
                    },
                    Err(err) => Err(err),
                }
            },
            EventV::Start(name) => {
                match close_segment(b, pause_name(), t, false) {
                    Ok(r) => {
                        let b1 = BuilderModel { work_start: Some(t), registry: r, ..b };
                        let b2 = open_task(b1, t, name);
                        Ok((BuilderModel { state: State::TaskActive, ..b2 }, None))
                    },
                    Err(err) => Err(err),
                }
            },
            _ => Err(ErrorV::InvalidTransition(e.event, State::Idle)),
        },
        State::DayTracking => match e.event {
            EventV::Off => {
                match close_segment(b, undefined_name(), t, false) {
                    Ok(r) => {
                        let b1 = open_task(BuilderModel { registry: r, ..b }, t, pause_name());
                        let r2 = b1.registry.add_work_time(b.work_start->0, t).with_last_active(
                            None,
                        );
                        Ok(
                            (
                                BuilderModel {
                                    state: State::Idle,
                                    work_start: None,
                                    registry: r2,
                                    ..b1
                                },
                                None,
                            ),
                        )
                    },
                    Err(err) => Err(err),
                }
            },
            EventV::OffSnapshot => {
                match close_segment(b, undefined_name(), t, true) {
                    Ok(r) => {
                        let r2 = r.add_work_time(b.work_start->0, t).with_last_active(None);
                        Ok(
                            (
                                BuilderModel {
                                    state: State::Idle,
                                    work_start: None,
                                    start_time: Some(t),
                                    registry: r2,
                                    ..b
                                },
                                None,
                            ),
                        )
                    },
                    Err(err) => Err(err),
                }
            },
            EventV::Start(name) => {
                match close_segment(b, undefined_name(), t, false) {
                    Ok(r) => {
                        let b1 = open_task(BuilderModel { registry: r, ..b }, t, name);
                        Ok((BuilderModel { state: State::TaskActive, ..b1 }, None))
                    },
                    Err(err) => Err(err),
                }
            },
            _ => Err(ErrorV::InvalidTransition(e.event, State::DayTracking)),
        },
        State::TaskActive => match e.event {
            EventV::Stop => {
                match close_segment(b, b.current->0, t, false) {
                    Ok(r) => {
                        let b1 = open_task(
                            BuilderModel { registry: r, ..b },
                            t,
                            undefined_name(),
                        );
                        Ok((BuilderModel { state: State::DayTracking, ..b1 }, None))
                    },
                    Err(err) => Err(err),
                }
            },
            EventV::Off => {
                match close_segment(b, b.current->0, t, false) {
                    Ok(r) => {
                        let i = b.registry.resolve(b.current->0)->0;
                        let b1 = open_task(BuilderModel { registry: r, ..b }, t, pause_name());
                        let r2 = b1.registry.add_work_time(b.work_start->0, t).with_last_active(
                            Some(i),
                        );
                        Ok(
                            (
                                BuilderModel {
                                    state: State::Idle,
                                    work_start: None,
                                    registry: r2,
                                    ..b1
                                },
                                None,
                            ),
                        )
                    },
                    Err(err) => Err(err),
                }
            },
            EventV::OffSnapshot => {
                match close_segment(b, b.current->0, t, true) {
                    Ok(r) => {
                        let i = b.registry.resolve(b.current->0)->0;
                        let r2 = r.add_work_time(b.work_start->0, t).with_last_active(Some(i));
                        Ok(
                            (
                                BuilderModel {
                                    state: State::Idle,
                                    work_start: None,
                                    start_time: Some(t),
                                    registry: r2,
                                    ..b
                                },
                                None,
                            ),
                        )
                    },
                    Err(err) => Err(err),
                }
            },
            EventV::Start(name) => {
                match close_segment(b, b.current->0, t, false) {
                    Ok(r) => {
                        let b1 = open_task(BuilderModel { registry: r, ..b }, t, name);
                        Ok((BuilderModel { state: State::TaskActive, ..b1 }, None))
                    },
                    Err(err) => Err(err),
                }
            },
            EventV::Rename { to, from } => {
                let target = match from {
                    Some(f) => f,
                    None => b.current->0,
                };
                match b.registry.rename(to, target) {
                    Some(r) => Ok(
                        (
                            BuilderModel {
                                registry: r,
                                current: if from is None {
                                    Some(to)
                                } else {
                                    b.current
                                },
                                ..b
                            },
                            None,
                        ),
                    ),
                    None => Err(ErrorV::UnknownTask(target)),
                }
            },
            _ => Err(ErrorV::InvalidTransition(e.event, State::TaskActive)),
        },
    }
}

proof fn lemma_add_task_wf(r: RegistryModel, name: Seq<char>, active: bool)
    requires
        r.wf(),
    ensures
        ({
            let res = r.add_task(name, active);
            &&& res.wf()
            &&& sum_all(res.tasks) == sum_all(r.tasks)
            &&& res.work_times == r.work_times
            &&& res.work_minutes == r.work_minutes
            &&& res.last_active == r.last_active
            &&& r.tasks.len() <= res.tasks.len()
            &&& res.resolve(name) is Some
        }),
{
    let res = r.add_task(name, active);
    match r.resolve(name) {
        Some(i) => {
            let x = TaskModel { name: r.tasks[i].name, minutes: r.tasks[i].minutes, active };
            lemma_sum_all_update(r.tasks, i, x);
        },
        None => {
            assert(res.tasks.drop_last() =~= r.tasks);
        },
    }
}

proof fn lemma_record_wf(r: RegistryModel, name: Seq<char>, minutes: int, keep: bool)
    requires
        r.wf(),
        minutes >= 0,
        sum_all(r.tasks) + minutes <= MAX_SUM,
    ensures
        match r.record(name, minutes, keep) {
            Some(res) => res.wf() && sum_all(res.tasks) == sum_all(r.tasks) + minutes
                && res.work_times == r.work_times && res.work_minutes == r.work_minutes
                && res.last_active == r.last_active && res.tasks.len() == r.tasks.len(),
            None => true,
        },
{
    match r.resolve(name) {
        Some(i) => {
            let x = TaskModel {
                name: r.tasks[i].name,
                minutes: r.tasks[i].minutes + minutes,
                active: keep,
            };
            lemma_sum_all_update(r.tasks, i, x);
        },
        None => {},
    }
}

proof fn lemma_rename_wf(r: RegistryModel, to: Seq<char>, from: Seq<char>)
    requires
        r.wf(),
    ensures
        match r.rename(to, from) {
            Some(res) => res.wf() && sum_all(res.tasks) == sum_all(r.tasks) && res.work_times
                == r.work_times && res.work_minutes == r.work_minutes && res.last_active
                == r.last_active && res.tasks.len() == r.tasks.len(),
            None => true,
        },
{
    match r.resolve(from) {
        Some(i) => {
            let res = r.rename(to, from)->0;
            let x = TaskModel { name: to, minutes: r.tasks[i].minutes, active: r.tasks[i].active };
            lemma_sum_all_update(r.tasks, i, x);
            assert forall|k: Seq<char>| res.names.contains_key(k) implies 0 <= #[trigger] res.names[k]
                < res.tasks.len() && res.tasks[res.names[k]].name == k by {
                if k != to {
                    assert(r.names.contains_key(k) && r.names[k] == res.names[k]);
                    if r.names[k] == i {
                        assert(r.tasks[i].name == k && r.tasks[i].name == from);
                    }
                }
            }
        },
        None => {},
    }
}

proof fn lemma_add_work_time_wf(r: RegistryModel, from: Timestamp, to: Timestamp)
    requires
        r.wf(),
        from.wf(),
        to.wf(),
        from.instant() <= to.instant(),
        r.work_minutes + (to.instant() - from.instant()) <= MAX_SUM,
    ensures
        ({
            let res = r.add_work_time(from, to);
            &&& res.wf()
            &&& res.tasks == r.tasks
            &&& res.names == r.names
            &&& res.last_active == r.last_active
            &&& res.work_minutes == r.work_minutes + (to.instant() - from.instant())
            &&& res.work_times.len() > 0
        }),
{
    let res = r.add_work_time(from, to);
    if r.work_times.len() > 0 && r.work_times.last().1.instant() == from.instant() {
        assert(res.work_times.drop_last() =~= r.work_times.drop_last());
    } else {
        assert(res.work_times.drop_last() =~= r.work_times);
    }
}

/// Every accepted event preserves the builder's invariant; what an `On`
/// emits is the previous day's registry, which is well-formed too.
pub proof fn lemma_step_preserves_wf(b: BuilderModel, e: EntryV)
    requires
        b.wf(),
        e.time.wf(),
    ensures
        match spec_step(b, e) {
            Ok((b2, em)) => b2.wf() && match em {
                Some(r) => r.wf(),
                None => true,
            },
            Err(_) => true,
        },
{
    match b.state {
        State::Idle => lemma_step_wf_idle(b, e),
        State::DayTracking => lemma_step_wf_day(b, e),
        State::TaskActive => lemma_step_wf_task(b, e),
    }
}

#[verifier::rlimit(100)]
proof fn lemma_step_wf_idle(b: BuilderModel, e: EntryV)
    requires
        b.wf(),
        e.time.wf(),
        b.state == State::Idle,
    ensures
        match spec_step(b, e) {
            Ok((b2, em)) => b2.wf() && match em {
                Some(r) => r.wf(),
                None => true,
            },
            Err(_) => true,
        },
{
    let t = e.time;
    lemma_instant_bounds(t);
    match e.event {
        EventV::On => {
            let reg0 = if b.registry.work_times.len() > 0 {
                RegistryModel::empty()
            } else {
                b.registry
            };
            assert(reg0 == RegistryModel::empty());
            let b1 = BuilderModel { work_start: Some(t), registry: reg0, ..b };
            lemma_add_task_wf(reg0, pause_name(), false);
            let b2 = open_task(b1, t, pause_name());
            assert(b2.registry.tasks.drop_last() =~= Seq::<TaskModel>::empty());
            assert(sum_all(b2.registry.tasks) == 0);
            lemma_record_wf(b2.registry, pause_name(), 0, false);
            match close_segment(b2, pause_name(), t, false) {
                Ok(r) => {
                    lemma_add_task_wf(r, undefined_name(), true);
                },
                Err(_) => {},
            }
        },
        EventV::Resume => {
            match close_segment(b, pause_name(), t, false) {
                Ok(r) => {
                    let s = b.start_time->0;
                    lemma_record_wf(b.registry, pause_name(), t.instant() - s.instant(), false);
                    lemma_add_task_wf(r, undefined_name(), true);
                },
                Err(_) => {},
            }
        },
        EventV::Start(name) => {
            match close_segment(b, pause_name(), t, false) {
                Ok(r) => {
                    let s = b.start_time->0;
                    lemma_record_wf(b.registry, pause_name(), t.instant() - s.instant(), false);
                    lemma_add_task_wf(r, name, name != pause_name());
                },
                Err(_) => {},
            }
        },
        _ => {},
    }
}

#[verifier::rlimit(100)]
proof fn lemma_step_wf_day(b: BuilderModel, e: EntryV)
    requires
        b.wf(),
        e.time.wf(),
        b.state == State::DayTracking,
    ensures
        match spec_step(b, e) {
            Ok((b2, em)) => b2.wf() && match em {
                Some(r) => r.wf(),
                None => true,
            },
            Err(_) => true,
        },
{
    let t = e.time;
    let s = b.start_time->0;
    let w = b.work_start->0;
    lemma_instant_bounds(t);
    match e.event {
        EventV::Off => {
            match close_segment(b, undefined_name(), t, false) {
                Ok(r) => {
                    lemma_record_wf(b.registry, undefined_name(), t.instant() - s.instant(), false);
                    lemma_add_task_wf(r, pause_name(), false);
                    let b1 = open_task(BuilderModel { registry: r, ..b }, t, pause_name());
                    lemma_add_work_time_wf(b1.registry, w, t);
                },
                Err(_) => {},
            }
        },
        EventV::OffSnapshot => {
            match close_segment(b, undefined_name(), t, true) {
                Ok(r) => {
                    lemma_record_wf(b.registry, undefined_name(), t.instant() - s.instant(), true);
                    lemma_add_work_time_wf(r, w, t);
                },
                Err(_) => {},
            }
        },
        EventV::Start(name) => {
            match close_segment(b, undefined_name(), t, false) {
                Ok(r) => {
                    lemma_record_wf(b.registry, undefined_name(), t.instant() - s.instant(), false);
                    lemma_add_task_wf(r, name, name != pause_name());
                },
                Err(_) => {},
            }
        },
        _ => {},
    }
}

#[verifier::rlimit(100)]
proof fn lemma_step_wf_task(b: BuilderModel, e: EntryV)
    requires
        b.wf(),
        e.time.wf(),
        b.state == State::TaskActive,
    ensures
        match spec_step(b, e) {
            Ok((b2, em)) => b2.wf() && match em {
                Some(r) => r.wf(),
                None => true,
            },
            Err(_) => true,
        },
{
    let t = e.time;
    let s = b.start_time->0;
    let w = b.work_start->0;
    let cur = b.current->0;
    lemma_instant_bounds(t);
    match e.event {
        EventV::Stop => {
            match close_segment(b, cur, t, false) {
                Ok(r) => {
                    lemma_record_wf(b.registry, cur, t.instant() - s.instant(), false);
                    lemma_add_task_wf(r, undefined_name(), true);
                },
                Err(_) => {},
            }
        },
        EventV::Off => {
            match close_segment(b, cur, t, false) {
                Ok(r) => {
                    lemma_record_wf(b.registry, cur, t.instant() - s.instant(), false);
                    lemma_add_task_wf(r, pause_name(), false);
                    let b1 = open_task(BuilderModel { registry: r, ..b }, t, pause_name());
                    lemma_add_work_time_wf(b1.registry, w, t);
                },
                Err(_) => {},
            }
        },
        EventV::OffSnapshot => {
            match close_segment(b, cur, t, true) {
                Ok(r) => {
                    lemma_record_wf(b.registry, cur, t.instant() - s.instant(), true);
                    lemma_add_work_time_wf(r, w, t);
                },
                Err(_) => {},
            }
        },
        EventV::Start(name) => {
            match close_segment(b, cur, t, false) {
                Ok(r) => {
                    lemma_record_wf(b.registry, cur, t.instant() - s.instant(), false);
                    lemma_add_task_wf(r, name, name != pause_name());
                },
                Err(_) => {},
            }
        },
        EventV::Rename { to, from } => {
            let target = match from {
                Some(f) => f,
                None => cur,
            };
            lemma_rename_wf(b.registry, to, target);
        },
        _ => {},
    }
}

/// In every well-formed registry the total work duration equals the sum of
/// `end - start` over the work intervals.
pub proof fn lemma_work_duration_is_interval_sum(r: RegistryModel)
    requires
        r.wf(),
    ensures
        r.work_minutes == sum_intervals(r.work_times),
{
}

/// In a well-formed registry no work interval ends exactly where the next
/// one starts: two such intervals are merged when the second is recorded.
pub proof fn lemma_no_touching_intervals(r: RegistryModel, i: int)
    requires
        r.wf(),
        0 <= i < r.work_times.len() - 1,
    ensures
        r.work_times[i].1.instant() != r.work_times[i + 1].0.instant(),
{
}

/// Recording a work interval that starts exactly where the last one ends
/// extends that interval instead of appending a new one.
pub proof fn lemma_touching_interval_merges(r: RegistryModel, from: Timestamp, to: Timestamp)
    requires
        r.work_times.len() > 0,
        r.work_times.last().1.instant() == from.instant(),
    ensures
        ({
            let res = r.add_work_time(from, to);
            &&& res.work_times.len() == r.work_times.len()
            &&& res.work_times.last() == (r.work_times.last().0, to)
            &&& forall|j: int| 0 <= j < r.work_times.len() - 1 ==> res.work_times[j]
                == r.work_times[j]
            &&& res.work_minutes == r.work_minutes + (to.instant() - from.instant())
        }),
{
}

/// Renaming a task preserves its accumulated duration and insertion
/// position, leaves every other task untouched, makes the old name
/// unresolvable, and resolves the new name to the same position.
pub proof fn lemma_rename_preserves(r: RegistryModel, to: Seq<char>, from: Seq<char>)
    requires
        r.wf(),
        r.resolve(from) is Some,
    ensures
        match r.rename(to, from) {
            Some(res) => {
                let i = r.resolve(from)->0;
                &&& res.tasks.len() == r.tasks.len()
                &&& res.tasks[i].minutes == r.tasks[i].minutes
                &&& res.tasks[i].name == to
                &&& forall|j: int| 0 <= j < r.tasks.len() && j != i ==> res.tasks[j] == r.tasks[j]
                &&& from != to ==> res.resolve(from) is None
                &&& res.resolve(to) == Some(i)
            },
            None => false,
        },
{
}

/// The balance a building day maintains: every clocked-in minute up to the
/// open segment's start is attributed to exactly one task other than
/// "Pause", so once the day is closed the non-Pause durations sum to the
/// work duration. It additionally notes that the open task is never the
/// "Pause" bucket.
pub open spec fn accounted(b: BuilderModel) -> bool {
    &&& if b.state == State::Idle {
        b.registry.balanced()
    } else {
        sum_non_pause(b.registry.tasks) == b.registry.work_minutes + (b.start_time->0.instant()
            - b.work_start->0.instant())
    }
    &&& (b.state == State::TaskActive ==> b.current->0 != pause_name())
}

/// Whether an event names the synthetic "Pause" task explicitly — starting
/// a task of that name, or renaming to or from it. Such events divert time
/// between the Pause bucket and the named tasks, and are the only ones that
/// can unbalance a day's account.
pub open spec fn names_pause(b: BuilderModel, e: EventV) -> bool {
    match e {
        EventV::Start(name) => name == pause_name(),
        EventV::Rename { to, from } => to == pause_name() || (match from {
            Some(f) => f,
            None => b.current->0,
        }) == pause_name(),
        _ => false,
    }
}

/// The syntactic form of avoiding the "Pause" name: the event neither
/// starts a task of that name nor names it in a rename.
pub open spec fn event_avoids_pause(e: EventV) -> bool {
    match e {
        EventV::Start(name) => name != pause_name(),
        EventV::Rename { to, from } => to != pause_name() && (match from {
            Some(f) => f != pause_name(),
            None => true,
        }),
        _ => true,
    }
}

/// For an event the builder accepts, the syntactic condition implies the
/// semantic one: a rename of the current task cannot hit "Pause", since the
/// open task of an accounted builder never is the "Pause" bucket.
pub proof fn lemma_avoids_pause_semantic(b: BuilderModel, e: EntryV)
    requires
        accounted(b),
        event_avoids_pause(e.event),
        spec_step(b, e) is Ok,
    ensures
        !names_pause(b, e.event),
{
}

proof fn lemma_add_task_np(r: RegistryModel, name: Seq<char>, active: bool)
    requires
        r.wf(),
    ensures
        sum_non_pause(r.add_task(name, active).tasks) == sum_non_pause(r.tasks),
{
    let res = r.add_task(name, active);
    match r.resolve(name) {
        Some(i) => {
            let x = TaskModel { name: r.tasks[i].name, minutes: r.tasks[i].minutes, active };
            lemma_sum_non_pause_update(r.tasks, i, x);
        },
        None => {
            assert(res.tasks.drop_last() =~= r.tasks);
        },
    }
}

proof fn lemma_record_np(r: RegistryModel, name: Seq<char>, minutes: int, keep: bool)
    requires
        r.wf(),
    ensures
        match r.record(name, minutes, keep) {
            Some(res) => sum_non_pause(res.tasks) == sum_non_pause(r.tasks) + (if name
                != pause_name() {
                minutes
            } else {
                0
            }),
            None => true,
        },
{
    match r.resolve(name) {
        Some(i) => {
            let x = TaskModel {
                name: r.tasks[i].name,
                minutes: r.tasks[i].minutes + minutes,
                active: keep,
            };
            lemma_sum_non_pause_update(r.tasks, i, x);
        },
        None => {},
    }
}

proof fn lemma_rename_np(r: RegistryModel, to: Seq<char>, from: Seq<char>)
    requires
        r.wf(),
        to != pause_name(),
        from != pause_name(),
    ensures
        match r.rename(to, from) {
            Some(res) => sum_non_pause(res.tasks) == sum_non_pause(r.tasks),
            None => true,
        },
{
    match r.resolve(from) {
        Some(i) => {
            let x = TaskModel { name: to, minutes: r.tasks[i].minutes, active: r.tasks[i].active };
            lemma_sum_non_pause_update(r.tasks, i, x);
        },
        None => {},
    }
}

/// Every accepted event that does not name "Pause" explicitly keeps the
/// day's account balanced, and a registry emitted at a day boundary has its
/// work duration equal to the sum of all task durations except "Pause".
pub proof fn lemma_step_preserves_accounting(b: BuilderModel, e: EntryV)
    requires
        b.wf(),
        e.time.wf(),
        accounted(b),
        !names_pause(b, e.event),
    ensures
        match spec_step(b, e) {
            Ok((b2, em)) => accounted(b2) && match em {
                Some(r) => r.balanced(),
                None => true,
            },
            Err(_) => true,
        },
{
    match b.state {
        State::Idle => lemma_accounting_idle(b, e),
        State::DayTracking => lemma_accounting_day(b, e),
        State::TaskActive => lemma_accounting_task(b, e),
    }
}

#[verifier::rlimit(100)]
proof fn lemma_accounting_idle_on(b: BuilderModel, e: EntryV)
    requires
        b.wf(),
        e.time.wf(),
        accounted(b),
        b.state == State::Idle,
        e.event is On,
    ensures
        match spec_step(b, e) {
            Ok((b2, em)) => accounted(b2) && match em {
                Some(r) => r.balanced(),
                None => true,
            },
            Err(_) => true,
        },
{
    lemma_instant_bounds(e.time);
    let t = e.time;
    let reg0 = if b.registry.work_times.len() > 0 {
        RegistryModel::empty()
    } else {
        b.registry
    };
    assert(reg0 == RegistryModel::empty());
    let b1 = BuilderModel { work_start: Some(t), registry: reg0, ..b };
    lemma_add_task_wf(reg0, pause_name(), false);
    let b2 = open_task(b1, t, pause_name());
    assert(b2.registry.tasks.drop_last() =~= Seq::<TaskModel>::empty());
    lemma_record_np(b2.registry, pause_name(), 0, false);
    lemma_record_wf(b2.registry, pause_name(), 0, false);
    match close_segment(b2, pause_name(), t, false) {
        Ok(r) => {
            lemma_add_task_np(r, undefined_name(), true);
            let b3 = open_task(BuilderModel { registry: r, ..b2 }, t, undefined_name());
            let bf = BuilderModel { state: State::DayTracking, ..b3 };
            assert(sum_non_pause(Seq::<TaskModel>::empty()) == 0);
            assert(sum_non_pause(b2.registry.tasks) == 0);
            assert(sum_non_pause(r.tasks) == 0);
            assert(sum_non_pause(b3.registry.tasks) == 0);
            assert(b3.registry.work_minutes == 0);
            assert(accounted(bf));
        },
        Err(_) => {},
    }
}

#[verifier::rlimit(100)]
proof fn lemma_accounting_idle(b: BuilderModel, e: EntryV)
    requires
        b.wf(),
        e.time.wf(),
        accounted(b),
        b.state == State::Idle,
        !names_pause(b, e.event),
    ensures
        match spec_step(b, e) {
            Ok((b2, em)) => accounted(b2) && match em {
                Some(r) => r.balanced(),
                None => true,
            },
            Err(_) => true,
        },
{
    lemma_instant_bounds(e.time);
    let t = e.time;
    match e.event {
                EventV::On => {
                    lemma_accounting_idle_on(b, e);
                },
                EventV::Resume => {
                    match close_segment(b, pause_name(), t, false) {
                        Ok(r) => {
                            let s = b.start_time->0;
                            lemma_record_np(b.registry, pause_name(), t.instant() - s.instant(), false);
                            lemma_record_wf(b.registry, pause_name(), t.instant() - s.instant(), false);
                            lemma_add_task_np(r, undefined_name(), true);
                        },
                        Err(_) => {},
                    }
                },
                EventV::Start(name) => {
                    match close_segment(b, pause_name(), t, false) {
                        Ok(r) => {
                            let s = b.start_time->0;
                            lemma_record_np(b.registry, pause_name(), t.instant() - s.instant(), false);
                            lemma_record_wf(b.registry, pause_name(), t.instant() - s.instant(), false);
                            lemma_add_task_np(r, name, name != pause_name());
                        },
                        Err(_) => {},
                    }
                },
        _ => {},
    }
}

#[verifier::rlimit(100)]
proof fn lemma_accounting_day(b: BuilderModel, e: EntryV)
    requires
        b.wf(),
        e.time.wf(),
        accounted(b),
        b.state == State::DayTracking,
        !names_pause(b, e.event),
    ensures
        match spec_step(b, e) {
            Ok((b2, em)) => accounted(b2) && match em {
                Some(r) => r.balanced(),
                None => true,
            },
            Err(_) => true,
        },
{
    lemma_instant_bounds(e.time);
    let t = e.time;
    let s = b.start_time->0;
    let w = b.work_start->0;
    match e.event {
                EventV::Off => {
                    match close_segment(b, undefined_name(), t, false) {
                        Ok(r) => {
                            lemma_record_np(b.registry, undefined_name(), t.instant() - s.instant(), false);
                            lemma_record_wf(b.registry, undefined_name(), t.instant() - s.instant(), false);
                            lemma_add_task_np(r, pause_name(), false);
                            lemma_add_task_wf(r, pause_name(), false);
                        },
                        Err(_) => {},
                    }
                },
                EventV::OffSnapshot => {
                    match close_segment(b, undefined_name(), t, true) {
                        Ok(r) => {
                            lemma_record_np(b.registry, undefined_name(), t.instant() - s.instant(), true);
                            lemma_record_wf(b.registry, undefined_name(), t.instant() - s.instant(), true);
                        },
                        Err(_) => {},
                    }
                },
                EventV::Start(name) => {
                    match close_segment(b, undefined_name(), t, false) {
                        Ok(r) => {
                            lemma_record_np(b.registry, undefined_name(), t.instant() - s.instant(), false);
                            lemma_record_wf(b.registry, undefined_name(), t.instant() - s.instant(), false);
                            lemma_add_task_np(r, name, name != pause_name());
                        },
                        Err(_) => {},
                    }
                },
        _ => {},
    }
}

#[verifier::rlimit(100)]
proof fn lemma_accounting_task(b: BuilderModel, e: EntryV)
    requires
        b.wf(),
        e.time.wf(),
        accounted(b),
        b.state == State::TaskActive,
        !names_pause(b, e.event),
    ensures
        match spec_step(b, e) {
            Ok((b2, em)) => accounted(b2) && match em {
                Some(r) => r.balanced(),
                None => true,
            },
            Err(_) => true,
        },
{
    lemma_instant_bounds(e.time);
    let t = e.time;
    let s = b.start_time->0;
    let w = b.work_start->0;
    let cur = b.current->0;
    match e.event {
                EventV::Stop => {
                    match close_segment(b, cur, t, false) {
                        Ok(r) => {
                            lemma_record_np(b.registry, cur, t.instant() - s.instant(), false);
                            lemma_record_wf(b.registry, cur, t.instant() - s.instant(), false);
                            lemma_add_task_np(r, undefined_name(), true);
                        },
                        Err(_) => {},
                    }
                },
                EventV::Off => {
                    match close_segment(b, cur, t, false) {
                        Ok(r) => {
                            lemma_record_np(b.registry, cur, t.instant() - s.instant(), false);
                            lemma_record_wf(b.registry, cur, t.instant() - s.instant(), false);
                            lemma_add_task_np(r, pause_name(), false);
                            lemma_add_task_wf(r, pause_name(), false);
                        },
                        Err(_) => {},
                    }
                },
                EventV::OffSnapshot => {
                    match close_segment(b, cur, t, true) {
                        Ok(r) => {
                            lemma_record_np(b.registry, cur, t.instant() - s.instant(), true);
                            lemma_record_wf(b.registry, cur, t.instant() - s.instant(), true);
                        },
                        Err(_) => {},
                    }
                },
                EventV::Start(name) => {
                    match close_segment(b, cur, t, false) {
                        Ok(r) => {
                            lemma_record_np(b.registry, cur, t.instant() - s.instant(), false);
                            lemma_record_wf(b.registry, cur, t.instant() - s.instant(), false);
                            lemma_add_task_np(r, name, name != pause_name());
                        },
                        Err(_) => {},
                    }
                },
                EventV::Rename { to, from } => {
                    let target = match from {
                        Some(f) => f,
                        None => cur,
                    };
                    lemma_rename_np(b.registry, to, target);
                    lemma_rename_wf(b.registry, to, target);
                },
        _ => {},
    }
}

/// No two tasks of the registry are marked active.
pub open spec fn at_most_one_active(r: RegistryModel) -> bool {
    forall|i: int, j: int|
        0 <= i < r.tasks.len() && 0 <= j < r.tasks.len() && (#[trigger] r.tasks[i]).active && (
        #[trigger] r.tasks[j]).active ==> i == j
}

/// The active marks a building day maintains: outside a day no task is
/// active, and while one is open exactly the current task is.
pub open spec fn single_active(b: BuilderModel) -> bool {
    if b.state == State::Idle {
        forall|i: int| 0 <= i < b.registry.tasks.len() ==> !(#[trigger] b.registry.tasks[i]).active
    } else {
        b.current matches Some(c) && (b.registry.resolve(c) matches Some(ci)
            && b.registry.tasks[ci].active && (forall|j: int|
            0 <= j < b.registry.tasks.len() && j != ci ==> !(
            #[trigger] b.registry.tasks[j]).active))
    }
}

/// The events under which the active marks stay single: no task named
/// "Pause" is started or renamed to, only the current task is renamed (a
/// rename with an explicit source can point the current name at another
/// task), and the day is not closed by a snapshot (a snapshot freezes the
/// open task's mark into the registry on purpose).
pub open spec fn event_keeps_single(e: EventV) -> bool {
    &&& event_avoids_pause(e)
    &&& (e matches EventV::Rename { to, from } ==> from is None)
    &&& !(e is OffSnapshot)
}

/// Every accepted event under `event_keeps_single` keeps the active marks
/// single, and a registry emitted at a day boundary has no active task.
pub proof fn lemma_step_preserves_single_active(b: BuilderModel, e: EntryV)
    requires
        b.wf(),
        e.time.wf(),
        single_active(b),
        event_keeps_single(e.event),
    ensures
        match spec_step(b, e) {
            Ok((b2, em)) => single_active(b2) && match em {
                Some(r) => at_most_one_active(r),
                None => true,
            },
            Err(_) => true,
        },
{
    match b.state {
        State::Idle => lemma_single_active_idle(b, e),
        State::DayTracking => lemma_single_active_day(b, e),
        State::TaskActive => lemma_single_active_task(b, e),
    }
}

#[verifier::rlimit(100)]
proof fn lemma_single_active_idle(b: BuilderModel, e: EntryV)
    requires
        b.wf(),
        e.time.wf(),
        single_active(b),
        event_keeps_single(e.event),
        b.state == State::Idle,
    ensures
        match spec_step(b, e) {
            Ok((b2, em)) => single_active(b2) && match em {
                Some(r) => at_most_one_active(r),
                None => true,
            },
            Err(_) => true,
        },
{
    lemma_instant_bounds(e.time);
    let t = e.time;
    match e.event {
        EventV::On => {
            let reg0 = if b.registry.work_times.len() > 0 {
                RegistryModel::empty()
            } else {
                b.registry
            };
            assert(reg0 == RegistryModel::empty());
            let b1 = BuilderModel { work_start: Some(t), registry: reg0, ..b };
            lemma_add_task_wf(reg0, pause_name(), false);
            let b2 = open_task(b1, t, pause_name());
            lemma_record_wf(b2.registry, pause_name(), 0, false);
            match close_segment(b2, pause_name(), t, false) {
                Ok(r) => {
                    lemma_add_task_wf(r, undefined_name(), true);
                },
                Err(_) => {},
            }
        },
        EventV::Resume => {
            match close_segment(b, pause_name(), t, false) {
                Ok(r) => {
                    let s = b.start_time->0;
                    lemma_record_wf(b.registry, pause_name(), t.instant() - s.instant(), false);
                    lemma_add_task_wf(r, undefined_name(), true);
                },
                Err(_) => {},
            }
        },
        EventV::Start(name) => {
            match close_segment(b, pause_name(), t, false) {
                Ok(r) => {
                    let s = b.start_time->0;
                    lemma_record_wf(b.registry, pause_name(), t.instant() - s.instant(), false);
                    lemma_add_task_wf(r, name, name != pause_name());
                },
                Err(_) => {},
            }
        },
        _ => {},
    }
}

#[verifier::rlimit(100)]
proof fn lemma_single_active_day(b: BuilderModel, e: EntryV)
    requires
        b.wf(),
        e.time.wf(),
        single_active(b),
        event_keeps_single(e.event),
        b.state == State::DayTracking,
    ensures
        match spec_step(b, e) {
            Ok((b2, em)) => single_active(b2) && match em {
                Some(r) => at_most_one_active(r),
                None => true,
            },
            Err(_) => true,
        },
{
    lemma_instant_bounds(e.time);
    let t = e.time;
    let s = b.start_time->0;
    match e.event {
        EventV::Off => {
            match close_segment(b, undefined_name(), t, false) {
                Ok(r) => {
                    lemma_record_wf(b.registry, undefined_name(), t.instant() - s.instant(), false);
                    lemma_add_task_wf(r, pause_name(), false);
                },
                Err(_) => {},
            }
        },
        EventV::Start(name) => {
            match close_segment(b, undefined_name(), t, false) {
                Ok(r) => {
                    lemma_record_wf(b.registry, undefined_name(), t.instant() - s.instant(), false);
                    lemma_add_task_wf(r, name, name != pause_name());
                },
                Err(_) => {},
            }
        },
        _ => {},
    }
}

#[verifier::rlimit(100)]
proof fn lemma_single_active_task(b: BuilderModel, e: EntryV)
    requires
        b.wf(),
        e.time.wf(),
        single_active(b),
        event_keeps_single(e.event),
        b.state == State::TaskActive,
    ensures
        match spec_step(b, e) {
            Ok((b2, em)) => single_active(b2) && match em {
                Some(r) => at_most_one_active(r),
                None => true,
            },
            Err(_) => true,
        },
{
    lemma_instant_bounds(e.time);
    let t = e.time;
    let s = b.start_time->0;
    let cur = b.current->0;
    match e.event {
        EventV::Stop => {
            match close_segment(b, cur, t, false) {
                Ok(r) => {
                    lemma_record_wf(b.registry, cur, t.instant() - s.instant(), false);
                    lemma_add_task_wf(r, undefined_name(), true);
                },
                Err(_) => {},
            }
        },
        EventV::Off => {
            match close_segment(b, cur, t, false) {
                Ok(r) => {
                    lemma_record_wf(b.registry, cur, t.instant() - s.instant(), false);
                    lemma_add_task_wf(r, pause_name(), false);
                },
                Err(_) => {},
            }
        },
        EventV::Start(name) => {
            match close_segment(b, cur, t, false) {
                Ok(r) => {
                    lemma_record_wf(b.registry, cur, t.instant() - s.instant(), false);
                    lemma_add_task_wf(r, name, name != pause_name());
                },
                Err(_) => {},
            }
        },
        EventV::Rename { to, from } => {
            lemma_rename_wf(b.registry, to, cur);
        },
        _ => {},
    }
}

/// Finishing the input keeps the active marks single too: a closed day has
/// none, and a day cut off by the end of the input keeps exactly the task
/// that was open marked active.
pub proof fn lemma_finish_keeps_one_active(b: BuilderModel, now: Timestamp)
    requires
        b.wf(),
        now.wf(),
        single_active(b),
    ensures
        match spec_finish(b, now) {
            Ok((r, _)) => at_most_one_active(r),
            Err(_) => true,
        },
{
}

/// What ending the input does to a builder: an open day is closed by a
/// synthetic `OffSnapshot` stamped `now`, and the accumulated registry is
/// detached, leaving a reset builder.
pub open spec fn spec_finish(b: BuilderModel, now: Timestamp) -> Result<
    (RegistryModel, BuilderModel),
    ErrorV,
> {
    if b.state == State::Idle {
        Ok(
            (
                b.registry,
                BuilderModel { start_time: None, registry: RegistryModel::empty(), ..b },
            ),
        )
    } else {
        match spec_step(b, EntryV { time: now, event: EventV::OffSnapshot }) {
            Ok((b2, _)) => Ok(
                (
                    b2.registry,
                    BuilderModel { start_time: None, registry: RegistryModel::empty(), ..b2 },
                ),
            ),
            Err(e) => Err(e),
        }
    }
}

/// Builds one day's registry from the event stream.
pub struct TaskRegistryBuilder {
    start_time: Option<Timestamp>,
    state: State,
    current_task_name: Option<String>,
    work_start_time: Option<Timestamp>,
    task_registry: TaskRegistry,
}

impl View for TaskRegistryBuilder {
    type V = BuilderModel;

    closed spec fn view(&self) -> BuilderModel {
        BuilderModel {
            start_time: self.start_time,
            state: self.state,
            current: match &self.current_task_name {
                Some(s) => Some(s@),
                None => None,
            },
            work_start: self.work_start_time,
            registry: self.task_registry@,
        }
    }
}

impl TaskRegistryBuilder {
    /// Representation consistency together with the model invariant.
    pub closed spec fn wf(self) -> bool {
        self.task_registry.wf() && self@.wf()
    }

    /// A builder's well-formedness is stated on its model too.
    pub proof fn lemma_wf_model(&self)
        requires
            self.wf(),
        ensures
            self@.wf(),
    {
    }

    /// A builder in its initial state: idle, with an empty registry.
    pub fn new() -> (r: TaskRegistryBuilder)
        ensures
            r.wf(),
            r@ == (BuilderModel {
                start_time: None,
                state: State::Idle,
                current: None,
                work_start: None,
                registry: RegistryModel::empty(),
            }),
    {
        TaskRegistryBuilder {
            start_time: None,
            state: State::Idle,
            current_task_name: None,
            work_start_time: None,
            task_registry: TaskRegistry::new(),
        }
    }

    /// Closes the open segment into the named task.
    fn b_close(&mut self, name: &str, t: Timestamp, keep: bool) -> (r: Result<usize, Error>)
        requires
            old(self).task_registry.wf(),
            t.wf(),
            match old(self)@.start_time {
                Some(s) => s.wf() && sum_all(old(self)@.registry.tasks) <= s.instant()
                    - MIN_INSTANT as int,
                None => true,
            },
        ensures
            final(self).task_registry.wf(),
            match r {
                Ok(i) => close_segment(old(self)@, name@, t, keep) == Ok::<
                    RegistryModel,
                    ErrorV,
                >(final(self)@.registry) && final(self)@ == (BuilderModel {
                    registry: final(self)@.registry,
                    ..old(self)@
                }) && old(self)@.registry.resolve(name@) == Some(i as int),
                Err(e) => close_segment(old(self)@, name@, t, keep) == Err::<
                    RegistryModel,
                    ErrorV,
                >(e@) && final(self)@ == old(self)@,
            },
    {
        let s = match self.start_time {
            Some(s) => s,
            None => { return Err(Error::UnknownTask(name.to_owned())) },
        };
        let ti = t.instant_minutes();
        let si = s.instant_minutes();
        if ti < si {
            return Err(Error::NonContinuousTimestamp(s, t));
        }
        let minutes: u64 = (ti - si) as u64;
        proof {
            lemma_instant_bounds(t);
        }
        match self.task_registry.record_task_time(name, minutes, keep) {
            Ok(i) => {
                proof {
                    assert(self@ =~= (BuilderModel { registry: self@.registry, ..old(self)@ }));
                }
                Ok(i)
            },
            Err(e) => Err(e),
        }
    }

    /// Opens a task at `t`.
    fn b_open(&mut self, t: Timestamp, name: &str)
        requires
            old(self).task_registry.wf(),
        ensures
            final(self).task_registry.wf(),
            final(self)@ == open_task(old(self)@, t, name@),
    {
        proof {
            reveal_strlit("Pause");
            assert(pause_name() =~= "Pause"@);
        }
        self.start_time = Some(t);
        self.current_task_name = Some(name.to_owned());
        let active = !str_equal(name, "Pause");
        self.task_registry.add_task(name, active);
        proof {
            assert(self@ =~= open_task(old(self)@, t, name@));
        }
    }

    /// Closes the open work interval at `t`.
    fn b_stop_work(&mut self, w: Timestamp, t: Timestamp)
        requires
            old(self).task_registry.wf(),
            old(self)@.work_start == Some(w),
            w.wf(),
            t.wf(),
            w.instant() <= t.instant(),
            old(self)@.registry.work_minutes + (t.instant() - w.instant()) <= MAX_SUM,
        ensures
            final(self).task_registry.wf(),
            final(self)@ == (BuilderModel {
                work_start: None,
                registry: old(self)@.registry.add_work_time(w, t),
                ..old(self)@
            }),
    {
        self.work_start_time = None;
        self.task_registry.add_work_time(w, t);
        proof {
            assert(self@ =~= (BuilderModel {
                work_start: None,
                registry: old(self)@.registry.add_work_time(w, t),
                ..old(self)@
            }));
        }
    }

    /// Feeds one event through the transition table. A day boundary — an
    /// `On` after a day with recorded work — emits that day's finished
    /// registry. A rejected event leaves the builder unchanged.
    pub fn add_entry(&mut self, entry: &TimelogEntry) -> (r: Result<Option<TaskRegistry>, Error>)
        requires
            old(self).wf(),
            entry.time.wf(),
        ensures
            final(self).wf(),
            match r {
                Ok(emitted) => match spec_step(old(self)@, entry@) {
                    Ok((b2, em)) => final(self)@ == b2 && match (emitted, em) {
                        (Some(reg), Some(m)) => reg@ == m && reg.wf(),
                        (None, None) => true,
                        _ => false,
                    },
                    Err(_) => false,
                },
                Err(e) => match spec_step(old(self)@, entry@) {
                    Ok(_) => false,
                    Err(ev) => e@ == ev && final(self)@ == old(self)@,
                },
            },
    {
        match self.state {
            State::Idle => self.add_entry_idle(entry),
            State::DayTracking => self.add_entry_day_tracking(entry),
            State::TaskActive => self.add_entry_task_active(entry),
        }
    }

    /// The `Idle` row of the transition table.
    #[verifier::rlimit(100)]
    fn add_entry_idle(&mut self, entry: &TimelogEntry) -> (r: Result<Option<TaskRegistry>, Error>)
        requires
            old(self).wf(),
            entry.time.wf(),
            old(self)@.state == State::Idle,
        ensures
            final(self).wf(),
            match r {
                Ok(emitted) => match spec_step(old(self)@, entry@) {
                    Ok((b2, em)) => final(self)@ == b2 && match (emitted, em) {
                        (Some(reg), Some(m)) => reg@ == m && reg.wf(),
                        (None, None) => true,
                        _ => false,
                    },
                    Err(_) => false,
                },
                Err(e) => match spec_step(old(self)@, entry@) {
                    Ok(_) => false,
                    Err(ev) => e@ == ev && final(self)@ == old(self)@,
                },
            },
    {
        proof {
            reveal_strlit("Pause");
            reveal_strlit("n/n");
            assert(pause_name() =~= "Pause"@);
            assert(undefined_name() =~= "n/n"@);
        }
        let t = entry.time;
        match &entry.event {
                LogEvent::On => {
                    let mut emitted: Option<TaskRegistry> = None;
                    if self.task_registry.work_times.len() > 0 {
                        let mut fresh = TaskRegistry::new();
                        core::mem::swap(&mut self.task_registry, &mut fresh);
                        emitted = Some(fresh);
                    }
                    self.work_start_time = Some(t);
                    proof {
                        assert(self@.registry == RegistryModel::empty());
                    }
                    self.b_open(t, "Pause");
                    let ghost mid = self@;
                    proof {
                        lemma_instant_bounds(t);
                        assert(mid.registry.tasks.drop_last() =~= Seq::<TaskModel>::empty());
                        assert(sum_all(mid.registry.tasks) == 0);
                    }
                    match self.b_close("Pause", t, false) {
                        Ok(_) => {},
                        Err(e) => {
                            proof {
                                lemma_instant_bounds(t);
                                assert(close_segment(mid, pause_name(), t, false) is Ok);
                                assert(false);
                            }
                            return Err(e);
                        },
                    }
                    self.b_open(t, "n/n");
                    self.state = State::DayTracking;
                    proof {
                        lemma_instant_bounds(t);
                        lemma_step_preserves_wf(old(self)@, entry@);
                        assert(spec_step(old(self)@, entry@) matches Ok((b2, _)) && self@ =~= b2);
                    }
                    Ok(emitted)
                },
                LogEvent::Resume => {
                    match self.b_close("Pause", t, false) {
                        Ok(_) => {},
                        Err(e) => { return Err(e) },
                    }
                    self.work_start_time = Some(t);
                    self.b_open(t, "n/n");
                    self.state = State::DayTracking;
                    proof {
                        lemma_instant_bounds(t);
                        lemma_step_preserves_wf(old(self)@, entry@);
                        assert(spec_step(old(self)@, entry@) matches Ok((b2, _)) && self@ =~= b2);
                    }
                    Ok(None)
                },
                LogEvent::Start(name) => {
                    match self.b_close("Pause", t, false) {
                        Ok(_) => {},
                        Err(e) => { return Err(e) },
                    }
                    self.work_start_time = Some(t);
                    let task_name = name.clone();
                    self.b_open(t, task_name.as_str());
                    self.state = State::TaskActive;
                    proof {
                        lemma_instant_bounds(t);
                        lemma_step_preserves_wf(old(self)@, entry@);
                        assert(spec_step(old(self)@, entry@) matches Ok((b2, _)) && self@ =~= b2);
                    }
                    Ok(None)
                },
            other => Err(Error::InvalidTransition(other.duplicate(), State::Idle)),
        }
    }

    /// The `DayTracking` row of the transition table.
    #[verifier::rlimit(100)]
    fn add_entry_day_tracking(&mut self, entry: &TimelogEntry) -> (r: Result<
        Option<TaskRegistry>,
        Error,
    >)
        requires
            old(self).wf(),
            entry.time.wf(),
            old(self)@.state == State::DayTracking,
        ensures
            final(self).wf(),
            match r {
                Ok(emitted) => match spec_step(old(self)@, entry@) {
                    Ok((b2, em)) => final(self)@ == b2 && match (emitted, em) {
                        (Some(reg), Some(m)) => reg@ == m && reg.wf(),
                        (None, None) => true,
                        _ => false,
                    },
                    Err(_) => false,
                },
                Err(e) => match spec_step(old(self)@, entry@) {
                    Ok(_) => false,
                    Err(ev) => e@ == ev && final(self)@ == old(self)@,
                },
            },
    {
        proof {
            reveal_strlit("Pause");
            reveal_strlit("n/n");
            assert(pause_name() =~= "Pause"@);
            assert(undefined_name() =~= "n/n"@);
        }
        let t = entry.time;
        match &entry.event {
                LogEvent::Off => {
                    let w = match self.work_start_time {
                        Some(w) => w,
                        None => unreached(),
                    };
                    match self.b_close("n/n", t, false) {
                        Ok(_) => {},
                        Err(e) => { return Err(e) },
                    }
                    self.b_open(t, "Pause");
                    proof {
                        lemma_instant_bounds(t);
                    }
                    self.b_stop_work(w, t);
                    self.task_registry.last_active = None;
                    self.state = State::Idle;
                    proof {
                        lemma_instant_bounds(t);
                        lemma_step_preserves_wf(old(self)@, entry@);
                        assert(spec_step(old(self)@, entry@) matches Ok((b2, _)) && self@ =~= b2);
                    }
                    Ok(None)
                },
                LogEvent::OffSnapshot => {
                    let w = match self.work_start_time {
                        Some(w) => w,
                        None => unreached(),
                    };
                    match self.b_close("n/n", t, true) {
                        Ok(_) => {},
                        Err(e) => { return Err(e) },
                    }
                    proof {
                        lemma_instant_bounds(t);
                    }
                    self.b_stop_work(w, t);
                    self.task_registry.last_active = None;
                    self.start_time = Some(t);
                    self.state = State::Idle;
                    proof {
                        lemma_instant_bounds(t);
                        lemma_step_preserves_wf(old(self)@, entry@);
                        assert(spec_step(old(self)@, entry@) matches Ok((b2, _)) && self@ =~= b2);
                    }
                    Ok(None)
                },
                LogEvent::Start(name) => {
                    match self.b_close("n/n", t, false) {
                        Ok(_) => {},
                        Err(e) => { return Err(e) },
                    }
                    let task_name = name.clone();
                    self.b_open(t, task_name.as_str());
                    self.state = State::TaskActive;
                    proof {
                        lemma_instant_bounds(t);
                        lemma_step_preserves_wf(old(self)@, entry@);
                        assert(spec_step(old(self)@, entry@) matches Ok((b2, _)) && self@ =~= b2);
                    }
                    Ok(None)
                },
            other => Err(Error::InvalidTransition(other.duplicate(), State::DayTracking)),
        }
    }

    /// The `TaskActive` row of the transition table.
    #[verifier::rlimit(100)]
    fn add_entry_task_active(&mut self, entry: &TimelogEntry) -> (r: Result<
        Option<TaskRegistry>,
        Error,
    >)
        requires
            old(self).wf(),
            entry.time.wf(),
            old(self)@.state == State::TaskActive,
        ensures
            final(self).wf(),
            match r {
                Ok(emitted) => match spec_step(old(self)@, entry@) {
                    Ok((b2, em)) => final(self)@ == b2 && match (emitted, em) {
                        (Some(reg), Some(m)) => reg@ == m && reg.wf(),
                        (None, None) => true,
                        _ => false,
                    },
                    Err(_) => false,
                },
                Err(e) => match spec_step(old(self)@, entry@) {
                    Ok(_) => false,
                    Err(ev) => e@ == ev && final(self)@ == old(self)@,
                },
            },
    {
        proof {
            reveal_strlit("Pause");
            reveal_strlit("n/n");
            assert(pause_name() =~= "Pause"@);
            assert(undefined_name() =~= "n/n"@);
        }
        let t = entry.time;
        match &entry.event {
                LogEvent::Stop => {
                    let cur = match &self.current_task_name {
                        Some(s) => s.clone(),
                        None => unreached(),
                    };
                    match self.b_close(cur.as_str(), t, false) {
                        Ok(_) => {},
                        Err(e) => { return Err(e) },
                    }
                    self.b_open(t, "n/n");
                    self.state = State::DayTracking;
                    proof {
                        lemma_instant_bounds(t);
                        lemma_step_preserves_wf(old(self)@, entry@);
                        assert(spec_step(old(self)@, entry@) matches Ok((b2, _)) && self@ =~= b2);
                    }
                    Ok(None)
                },
                LogEvent::Off => {
                    let cur = match &self.current_task_name {
                        Some(s) => s.clone(),
                        None => unreached(),
                    };
                    let w = match self.work_start_time {
                        Some(w) => w,
                        None => unreached(),
                    };
                    let i = match self.b_close(cur.as_str(), t, false) {
                        Ok(i) => i,
                        Err(e) => { return Err(e) },
                    };
                    self.b_open(t, "Pause");
                    proof {
                        lemma_instant_bounds(t);
                    }
                    self.b_stop_work(w, t);
                    self.task_registry.last_active = Some(i);
                    self.state = State::Idle;
                    proof {
                        lemma_instant_bounds(t);
                        lemma_step_preserves_wf(old(self)@, entry@);
                        assert(spec_step(old(self)@, entry@) matches Ok((b2, _)) && self@ =~= b2);
                    }
                    Ok(None)
                },
                LogEvent::OffSnapshot => {
                    let cur = match &self.current_task_name {
                        Some(s) => s.clone(),
                        None => unreached(),
                    };
                    let w = match self.work_start_time {
                        Some(w) => w,
                        None => unreached(),
                    };
                    let i = match self.b_close(cur.as_str(), t, true) {
                        Ok(i) => i,
                        Err(e) => { return Err(e) },
                    };
                    proof {
                        lemma_instant_bounds(t);
                    }
                    self.b_stop_work(w, t);
                    self.task_registry.last_active = Some(i);
                    self.start_time = Some(t);
                    self.state = State::Idle;
                    proof {
                        lemma_instant_bounds(t);
                        lemma_step_preserves_wf(old(self)@, entry@);
                        assert(spec_step(old(self)@, entry@) matches Ok((b2, _)) && self@ =~= b2);
                    }
                    Ok(None)
                },
                LogEvent::Start(name) => {
                    let cur = match &self.current_task_name {
                        Some(s) => s.clone(),
                        None => unreached(),
                    };
                    match self.b_close(cur.as_str(), t, false) {
                        Ok(_) => {},
                        Err(e) => { return Err(e) },
                    }
                    let task_name = name.clone();
                    self.b_open(t, task_name.as_str());
                    self.state = State::TaskActive;
                    proof {
                        lemma_instant_bounds(t);
                        lemma_step_preserves_wf(old(self)@, entry@);
                        assert(spec_step(old(self)@, entry@) matches Ok((b2, _)) && self@ =~= b2);
                    }
                    Ok(None)
                },
                LogEvent::Rename { to, from } => {
                    let cur = match &self.current_task_name {
                        Some(s) => s.clone(),
                        None => unreached(),
                    };
                    let target: String = match from {
                        Some(f) => f.clone(),
                        None => cur,
                    };
                    match self.task_registry.rename_task(to.as_str(), target.as_str()) {
                        Ok(_) => {},
                        Err(e) => {
                            proof {
                                assert(self@ =~= old(self)@);
                            }
                            return Err(e);
                        },
                    }
                    if from.is_none() {
                        self.current_task_name = Some(to.clone());
                    }
                    proof {
                        lemma_sum_all_update(
                            old(self)@.registry.tasks,
                            old(self)@.registry.names[target@],
                            final(self)@.registry.tasks[old(self)@.registry.names[target@]],
                        );
                        lemma_step_preserves_wf(old(self)@, entry@);
                        assert(spec_step(old(self)@, entry@) matches Ok((b2, _)) && self@ =~= b2);
                    }
                    Ok(None)
                },
            other => Err(Error::InvalidTransition(other.duplicate(), State::TaskActive)),
        }
    }

    /// Feeds the synthetic closing event of an open day.
    #[verifier::rlimit(100)]
    fn finish_snapshot(&mut self, now: Timestamp) -> (r: Result<(), Error>)
        requires
            old(self).wf(),
            now.wf(),
            old(self)@.state != State::Idle,
        ensures
            final(self).wf(),
            match r {
                Ok(_) => spec_step(
                    old(self)@,
                    EntryV { time: now, event: EventV::OffSnapshot },
                ) matches Ok((b2, em)) && final(self)@ == b2 && em is None && b2.state
                    == State::Idle,
                Err(e) => spec_step(old(self)@, EntryV { time: now, event: EventV::OffSnapshot })
                    == Err::<(BuilderModel, Option<RegistryModel>), ErrorV>(e@) && final(self)@
                    == old(self)@,
            },
    {
        let entry = TimelogEntry::new(&now, LogEvent::OffSnapshot);
        match self.add_entry(&entry) {
            Ok(_) => Ok(()),
            Err(e) => Err(e),
        }
    }

    /// Ends the input: if a day is still open it is closed by a synthetic
    /// event stamped `now` (the task that was open stays marked active), and
    /// the accumulated registry is detached, resetting the builder.
    #[verifier::rlimit(100)]
    pub fn finish(&mut self, now: Timestamp) -> (r: Result<TaskRegistry, Error>)
        requires
            old(self).wf(),
            now.wf(),
        ensures
            final(self).wf(),
            match r {
                Ok(reg) => reg.wf() && final(self)@.state == State::Idle && (spec_finish(
                    old(self)@,
                    now,
                ) matches Ok((rm, b2)) && reg@ == rm && final(self)@ == b2),
                Err(e) => spec_finish(old(self)@, now) == Err::<
                    (RegistryModel, BuilderModel),
                    ErrorV,
                >(e@) && final(self)@ == old(self)@,
            },
    {
        let is_idle = match self.state {
            State::Idle => true,
            _ => false,
        };
        if !is_idle {
            match self.finish_snapshot(now) {
                Ok(_) => {},
                Err(e) => { return Err(e) },
            }
        }
        Ok(self.detach_registry())
    }

    /// Detaches the accumulated registry, resetting the builder for a
    /// possible next day.
    fn detach_registry(&mut self) -> (r: TaskRegistry)
        requires
            old(self).wf(),
            old(self)@.state == State::Idle,
        ensures
            final(self).wf(),
            r.wf(),
            r@ == old(self)@.registry,
            final(self)@ == (BuilderModel {
                start_time: None,
                registry: RegistryModel::empty(),
                ..old(self)@
            }),
    {
        self.start_time = None;
        let mut fresh = TaskRegistry::new();
        core::mem::swap(&mut self.task_registry, &mut fresh);
        proof {
            assert(self@ =~= (BuilderModel {
                start_time: None,
                registry: RegistryModel::empty(),
                ..old(self)@
            }));
            assert(self@.wf());
        }
        fresh
    }
}

} // verus!
