//! The per-task run state persisted beside a task's artifacts: the next
//! permitted run instant and the singleton lock flag.
use crate::time::Time;
use crate::time::canonical;
use crate::time::max_epoch_secs;
use crate::time::time_of;
use crate::time::lemma_format_round_trip;
use vstd::prelude::*;

verus! {

/// The persisted record: `expires` holds the canonical timestamp before
/// which the task must not run again; `locked` is true only while a
/// singleton task's command phase is in flight.
#[derive(Clone, Debug)]
pub struct State {
    pub expires: String,
    pub locked: bool,
}

impl State {
    /// The state file's path inside the task directory `a_path`.
    pub fn path(a_path: &str) -> (r: String)
        ensures
            r@ == a_path@ + "/state.toml"@,
    {
        let mut r = String::from_str(a_path);
        r.append("/state.toml");
        r
    }

    /// The record a task starts with: due at `a_now`, unlocked.
    pub fn initial(a_now: &Time) -> (r: State)
        requires
            a_now.wf(),
        ensures
            r.expires@ == a_now.format_spec(),
            r.locked == false,
    {
        State { expires: Time::to_string(a_now), locked: false }
    }

    /// A field-for-field copy.
    pub fn duplicate(&self) -> (r: State)
        ensures
            r == *self,
    {
        State { expires: self.expires.clone(), locked: self.locked }
    }

    /// The record persisted when a run finishes at `a_now`: due again
    /// `a_interval` seconds later, unlocked. `None` when the new expiry
    /// would leave the four-digit-year range.
    pub fn finalized(a_now: &Time, a_interval: i64) -> (r: Option<State>)
        requires
            a_now.wf(),
            a_interval >= 0,
        ensures
            r is Some <==> a_now.epoch_secs() + a_interval < max_epoch_secs(),
            match r {
                Some(st) => {
                    &&& st.locked == false
                    &&& canonical(st.expires@)
                    &&& time_of(st.expires@).epoch_secs() == a_now.epoch_secs() + a_interval
                    &&& time_of(st.expires@).nanos == a_now.nanos
                    &&& forall|t: Time|
                        t.wf() && t.epoch_secs() == a_now.epoch_secs() + a_interval && t.nanos
                            == a_now.nanos ==> st.expires@ == #[trigger] t.format_spec()
                },
                None => true,
            },
    {
        match a_now.plus_seconds(a_interval as u64) {
            Some(t) => {
                proof {
                    lemma_format_round_trip(t);
                    assert forall|u: Time|
                        u.wf() && u.epoch_secs() == a_now.epoch_secs() + a_interval && u.nanos
                            == a_now.nanos implies t.format_spec() == #[trigger] u.format_spec() by {
                        crate::time::lemma_instant_identity(t, u);
                    };
                }
                Some(State { expires: Time::to_string(&t), locked: false })
            },
            None => None,
        }
    }
}

} // verus!
