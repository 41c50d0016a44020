//! The task scheduler's decisions: whether a task runs now, what each
//! command line becomes, in which order tasks run, and what is persisted
//! when a run finishes.
//!
//! Everything here is a pure decision from plain values — configuration,
//! persisted state and a clock instant handed in by the caller. The
//! caller carries the decisions out: creates the state record only when
//! no validation reason forbids the run, executes commands only on
//! `Decision::Proceed`, and persists exactly the records returned here.
use crate::config::Config;
use crate::config::ConfigTask;
use crate::state::State;
use crate::text::replace_all;
use crate::text::replace_all_spec;
use crate::text::split_spaces;
use crate::text::split_spaces_spec;
use crate::text::str_views;
use crate::time::Time;
use crate::time::canonical;
use crate::time::time_of;
use vstd::prelude::*;

verus! {

/// The macro token replaced by the instant of its own substitution.
pub const MACRO_NOW: &'static str = "{NOW}";

/// The macro token replaced by the task's working directory.
pub const MACRO_PATH: &'static str = "{PATH}";

/// The macro token replaced by one instant captured when the task's
/// execution starts, stable across the whole command list.
pub const MACRO_STAMP: &'static str = "{STAMP}";

/// Why a task is skipped rather than run. A skip is a successful
/// outcome, not an error.
#[derive(Clone, Copy, PartialEq, Eq, Structural, Debug)]
pub enum SkipReason {
    Disabled,
    NegativeInterval,
    EmptyPath,
    InvalidExpires,
    NotDue,
    Locked,
}

/// What preparing a task decided: skip it for the given reason, or run
/// it, first persisting the lock when `set_lock` holds.
#[derive(Clone, Copy, PartialEq, Eq, Structural, Debug)]
pub enum Decision {
    Skip(SkipReason),
    Proceed { set_lock: bool },
}

/// The prepare decision: the first reason to skip, in the fixed order
/// disabled, negative interval, empty path, unreadable expiry, not yet
/// due, already locked — else proceed, locking singleton tasks.
pub open spec fn decide_spec(task: ConfigTask, state: State, now: Time) -> Decision {
    if !task.enabled {
        Decision::Skip(SkipReason::Disabled)
    } else if task.interval < 0 {
        Decision::Skip(SkipReason::NegativeInterval)
    } else if task.path@.len() == 0 {
        Decision::Skip(SkipReason::EmptyPath)
    } else if !canonical(state.expires@) {
        Decision::Skip(SkipReason::InvalidExpires)
    } else if now.before_spec(time_of(state.expires@)) {
        Decision::Skip(SkipReason::NotDue)
    } else if task.singleton && state.locked {
        Decision::Skip(SkipReason::Locked)
    } else {
        Decision::Proceed { set_lock: task.singleton }
    }
}

/// A command split into the program and its bare arguments.
#[derive(Debug)]
pub struct CommandLine {
    pub program: String,
    pub args: Vec<String>,
}

/// A task bound to its catalog: the configuration, the task's name, and
/// its record.
pub struct Task {
    pub cfg: Config,
    pub name: String,
    pub task: ConfigTask,
}

/// A command template with its macros substituted: `{NOW}` first, then
/// `{PATH}`, then `{STAMP}`, each replacing every occurrence.
pub open spec fn eval_spec(cmd: Seq<char>, path: Seq<char>, now: Time, stamp: Time) -> Seq<char> {
    replace_all_spec(
        replace_all_spec(replace_all_spec(cmd, "{NOW}"@, now.format_spec()), "{PATH}"@, path),
        "{STAMP}"@,
        stamp.format_spec(),
    )
}

impl Task {
    /// Substitute the macro tokens into one command template: `{NOW}`
    /// becomes `a_now`, `{PATH}` the working directory, `{STAMP}` the
    /// instant captured at the start of the execution phase.
    pub fn eval(a_cmd: &str, a_path: &str, a_now: &Time, a_stamp: &Time) -> (r: String)
        requires
            a_now.wf(),
            a_stamp.wf(),
        ensures
            r@ == eval_spec(a_cmd@, a_path@, *a_now, *a_stamp),
    {
        proof {
            reveal_strlit("{NOW}");
            reveal_strlit("{PATH}");
            reveal_strlit("{STAMP}");
        }
        let now_str = Time::to_string(a_now);
        let stamp_str = Time::to_string(a_stamp);
        let pass_now = replace_all(a_cmd, MACRO_NOW, now_str.as_str());
        let pass_path = replace_all(pass_now.as_str(), MACRO_PATH, a_path);
        replace_all(pass_path.as_str(), MACRO_STAMP, stamp_str.as_str())
    }

    /// The command line one template becomes: macros substituted, then
    /// split on spaces into a program and its arguments. `None` for the
    /// empty template, which is skipped without running anything.
    pub fn command_line(a_cmd: &str, a_path: &str, a_now: &Time, a_stamp: &Time) -> (r: Option<
        CommandLine,
    >)
        requires
            a_now.wf(),
            a_stamp.wf(),
        ensures
            a_cmd@.len() == 0 <==> r is None,
            match r {
                Some(c) => {
                    let toks = split_spaces_spec(eval_spec(a_cmd@, a_path@, *a_now, *a_stamp));
                    &&& c.program@ == toks[0]
                    &&& str_views(c.args@) == toks.drop_first()
                },
                None => true,
            },
    {
        if a_cmd.is_empty() {
            return None;
        }
        let evaluated = Task::eval(a_cmd, a_path, a_now, a_stamp);
        let mut tokens = split_spaces(evaluated.as_str());
        let ghost all = str_views(tokens@);
        let program = tokens.remove(0);
        proof {
            assert(str_views(tokens@) =~= all.drop_first());
        }
        Some(CommandLine { program, args: tokens })
    }

    /// Decide whether the task runs now. The caller loads `a_state` from
    /// the task directory (creating it first when absent) and supplies
    /// the current instant; on `Proceed { set_lock: true }` it persists
    /// the locked state before executing anything.
    pub fn decide_prepare(a_task: &ConfigTask, a_state: &State, a_now: &Time) -> (r: Decision)
        requires
            a_now.wf(),
        ensures
            r == decide_spec(*a_task, *a_state, *a_now),
    {
        if !a_task.enabled {
            return Decision::Skip(SkipReason::Disabled);
        }
        if a_task.interval < 0 {
            return Decision::Skip(SkipReason::NegativeInterval);
        }
        if a_task.path.as_str().is_empty() {
            return Decision::Skip(SkipReason::EmptyPath);
        }
        let expires = match Time::from_string(a_state.expires.as_str()) {
            Some(t) => t,
            None => {
                return Decision::Skip(SkipReason::InvalidExpires);
            },
        };
        proof {
            crate::time::lemma_format_round_trip(time_of(a_state.expires@));
        }
        if a_now.before(&expires) {
            return Decision::Skip(SkipReason::NotDue);
        }
        if a_task.singleton && a_state.locked {
            return Decision::Skip(SkipReason::Locked);
        }
        Decision::Proceed { set_lock: a_task.singleton }
    }

    /// The run-all ordering of two tasks: by their declared order.
    pub fn sort_by_order(a_left: &ConfigTask, a_right: &ConfigTask) -> (r: core::cmp::Ordering)
        ensures
            r == (if a_left.order < a_right.order {
                core::cmp::Ordering::Less
            } else if a_left.order == a_right.order {
                core::cmp::Ordering::Equal
            } else {
                core::cmp::Ordering::Greater
            }),
    {
        if a_left.order < a_right.order {
            core::cmp::Ordering::Less
        } else if a_left.order == a_right.order {
            core::cmp::Ordering::Equal
        } else {
            core::cmp::Ordering::Greater
        }
    }

    /// Sort tasks ascending by declared order, keeping the multiset of
    /// tasks; used by a run over the whole catalog.
    pub fn sort_tasks(a_tasks: &mut Vec<ConfigTask>)
        ensures
            final(a_tasks)@.len() == old(a_tasks)@.len(),
            final(a_tasks)@.to_multiset() == old(a_tasks)@.to_multiset(),
            forall|i: int, j: int|
                0 <= i < j < final(a_tasks)@.len() ==> (#[trigger] final(a_tasks)@[i]).order <= (
                #[trigger] final(a_tasks)@[j]).order,
    {
        let n = a_tasks.len();
        let mut i: usize = 1;
        while i < n
            invariant
                1 <= i <= n || n == 0,
                n == a_tasks@.len(),
                a_tasks@.to_multiset() == old(a_tasks)@.to_multiset(),
                forall|p: int, q: int|
                    0 <= p < q < i ==> (#[trigger] a_tasks@[p]).order <= (
                    #[trigger] a_tasks@[q]).order,
            decreases n - i,
        {
            let mut j: usize = i;
            while j > 0 && a_tasks[j - 1].order > a_tasks[j].order
                invariant
                    0 <= j <= i < n,
                    n == a_tasks@.len(),
                    a_tasks@.to_multiset() == old(a_tasks)@.to_multiset(),
                    forall|p: int, q: int|
                        0 <= p < q <= i && q != j ==> (#[trigger] a_tasks@[p]).order <= (
                        #[trigger] a_tasks@[q]).order,
                    forall|p: int|
                        j < p <= i ==> (#[trigger] a_tasks@[p]).order >= a_tasks@[j as int].order,
                decreases j,
            {
                let ghost before = a_tasks@;
                let moved = a_tasks.remove(j);
                a_tasks.insert(j - 1, moved);
                proof {
                    assert(a_tasks@ =~= before.update(j as int, before[j - 1]).update(
                        j - 1,
                        before[j as int],
                    ));
                    lemma_swap_multiset(before, a_tasks@, j - 1, j as int);
                }
                j = j - 1;
            }
            proof {
                assert forall|p: int, q: int|
                    0 <= p < q <= i implies (#[trigger] a_tasks@[p]).order <= (
                #[trigger] a_tasks@[q]).order by {
                    if q == j && j > 0 {
                        assert(a_tasks@[j - 1].order <= a_tasks@[j as int].order);
                        if p < j - 1 {
                            assert(a_tasks@[p].order <= a_tasks@[j - 1].order);
                        }
                    }
                };
            }
            i = i + 1;
        }
    }
}

/// How a task name selects work: nothing for the empty name, the whole
/// catalog for `*`, else the one named task.
#[derive(Clone, Copy, PartialEq, Eq, Structural, Debug)]
pub enum Selector {
    Empty,
    All,
    One,
}

/// The selector a task name spells.
pub open spec fn selector_spec(name: Seq<char>) -> Selector {
    if name.len() == 0 {
        Selector::Empty
    } else if name == "*"@ {
        Selector::All
    } else {
        Selector::One
    }
}

impl Task {
    /// What the task argument selects: an error for the empty name, a
    /// run over the whole catalog for `*`, else one named task.
    pub fn selector(a_name: &str) -> (r: Selector)
        ensures
            r == selector_spec(a_name@),
    {
        if a_name.is_empty() {
            Selector::Empty
        } else if crate::text::str_eq(a_name, "*") {
            Selector::All
        } else {
            Selector::One
        }
    }
}

/// An invalid task — disabled, negative interval, or without a working
/// directory — is skipped whatever the persisted state and the clock
/// say, and skipped for the first reason that applies. The caller acts
/// on the decision alone, so such a task triggers no side effect at
/// all: no state file is created and no command is run.
pub proof fn lemma_invalid_task_skipped(task: ConfigTask, state: State, now: Time)
    requires
        !task.valid_spec(),
    ensures
        decide_spec(task, state, now) is Skip,
        decide_spec(task, state, now) == Decision::Skip(
            if !task.enabled {
                SkipReason::Disabled
            } else if task.interval < 0 {
                SkipReason::NegativeInterval
            } else {
                SkipReason::EmptyPath
            },
        ),
{
}

/// Once a singleton task's lock is persisted, no concurrent prepare of
/// the same task proceeds to execution — and when the task is otherwise
/// due and runnable, the skip it reports is precisely `Locked`.
pub proof fn lemma_locked_singleton_never_proceeds(task: ConfigTask, state: State, now: Time)
    requires
        task.singleton,
        state.locked,
    ensures
        decide_spec(task, state, now) is Skip,
        task.valid_spec() && canonical(state.expires@) && !now.before_spec(
            time_of(state.expires@),
        ) ==> decide_spec(task, state, now) == Decision::Skip(SkipReason::Locked),
{
}

/// Finishing a run throttles the next one: against the state a finalize
/// at `now` with interval `interval` persisted, any prepare at an
/// instant `again` strictly before `now + interval` is skipped as not
/// yet due — the task is not executed twice within one interval.
pub proof fn lemma_second_run_throttled(
    task: ConfigTask,
    state: State,
    now: Time,
    interval: i64,
    again: Time,
)
    requires
        task.valid_spec(),
        interval >= 0,
        canonical(state.expires@),
        time_of(state.expires@).epoch_secs() == now.epoch_secs() + interval,
        time_of(state.expires@).nanos == now.nanos,
        again.epoch_secs() < now.epoch_secs() + interval || (again.epoch_secs()
            == now.epoch_secs() + interval && again.nanos < now.nanos),
    ensures
        decide_spec(task, state, again) == Decision::Skip(SkipReason::NotDue),
{
}

/// The schedule only moves forward: when a prepare admitted the run —
/// so the task was due — and the clock has not gone back by finalize
/// time, the expiry that finalize persists is never earlier than the
/// one it replaces.
pub proof fn lemma_expiry_never_retreats(
    task: ConfigTask,
    st_old: State,
    st_new: State,
    t_run: Time,
    t_fin: Time,
)
    requires
        decide_spec(task, st_old, t_run) is Proceed,
        !t_fin.before_spec(t_run),
        task.interval >= 0,
        canonical(st_new.expires@),
        time_of(st_new.expires@).epoch_secs() == t_fin.epoch_secs() + task.interval,
        time_of(st_new.expires@).nanos == t_fin.nanos,
    ensures
        !time_of(st_new.expires@).before_spec(time_of(st_old.expires@)),
{
    assert(canonical(st_old.expires@));
    assert(!t_run.before_spec(time_of(st_old.expires@)));
}

/// Exchanging two adjacent elements keeps the multiset.
proof fn lemma_swap_multiset(a: Seq<ConfigTask>, b: Seq<ConfigTask>, p: int, q: int)
    requires
        0 <= p < q < a.len(),
        b =~= a.update(q, a[p]).update(p, a[q]),
    ensures
        a.to_multiset() == b.to_multiset(),
{
    broadcast use vstd::multiset::group_multiset_axioms;
    broadcast use vstd::multiset::group_multiset_properties;

    let mid = a.update(q, a[p]);
    vstd::seq_lib::to_multiset_update(a, q, a[p]);
    vstd::seq_lib::to_multiset_update(mid, p, a[q]);
    a.to_multiset_ensures();
    assert(a.contains(a[q]));
    assert(a.contains(a[p]));
    assert(b == a.update(q, a[p]).update(p, a[q]));
    assert(a.to_multiset() =~= b.to_multiset());
}

} // verus!
