//! The task catalog: a configuration name and the declared tasks, each
//! with its commands, working directory, interval and retention rules.
use crate::text::clone_strings;
use crate::text::str_eq;
use vstd::prelude::*;

verus! {

/// Which retention granularities a task has switched on.
#[derive(Clone, Copy, PartialEq, Eq, Structural, Debug)]
pub struct ConfigTaskRotate {
    pub daily: bool,
    pub hourly: bool,
    pub monthly: bool,
    pub yearly: bool,
}

impl Default for ConfigTaskRotate {
    /// Every granularity off.
    fn default() -> (r: ConfigTaskRotate)
        ensures
            r == (ConfigTaskRotate { daily: false, hourly: false, monthly: false, yearly: false }),
    {
        ConfigTaskRotate { daily: false, hourly: false, monthly: false, yearly: false }
    }
}

impl ConfigTaskRotate {
    /// At least one granularity is switched on.
    pub open spec fn any_spec(self) -> bool {
        self.daily || self.hourly || self.monthly || self.yearly
    }

    /// Whether rotation is worth running at all.
    pub fn is_valid(&self) -> (r: bool)
        ensures
            r == self.any_spec(),
    {
        self.daily || self.hourly || self.monthly || self.yearly
    }
}

/// One declared task: commands, schedule and retention policy. The
/// `config` and `task` fields carry the owning configuration's name and
/// the task's own name, filled in when the catalog is built.
#[derive(Clone, Debug)]
pub struct ConfigTask {
    pub commands: Vec<String>,
    pub config: String,
    pub enabled: bool,
    pub interval: i64,
    pub order: u64,
    pub path: String,
    pub rotate: ConfigTaskRotate,
    pub rotate_strategy: String,
    pub singleton: bool,
    pub task: String,
}

impl Default for ConfigTask {
    /// The defaults of an undeclared field: disabled, due immediately,
    /// first in order, no commands, move-style rotation, singleton.
    fn default() -> (r: ConfigTask)
        ensures
            r.commands@.len() == 0,
            r.config@ == Seq::<char>::empty(),
            r.enabled == false,
            r.interval == 0,
            r.order == 0,
            r.path@ == Seq::<char>::empty(),
            r.rotate == (ConfigTaskRotate {
                daily: false,
                hourly: false,
                monthly: false,
                yearly: false,
            }),
            r.rotate_strategy@ == "move"@,
            r.singleton == true,
            r.task@ == Seq::<char>::empty(),
    {
        ConfigTask {
            commands: Vec::new(),
            config: String::new(),
            enabled: false,
            interval: 0,
            order: 0,
            path: String::new(),
            rotate: ConfigTaskRotate { daily: false, hourly: false, monthly: false, yearly: false },
            rotate_strategy: String::from_str("move"),
            singleton: true,
            task: String::new(),
        }
    }
}

impl ConfigTask {
    /// Value-level sameness: every field equal, the strings and the
    /// command list compared by content.
    pub open spec fn same(self, other: ConfigTask) -> bool {
        &&& self.commands@ == other.commands@
        &&& self.config@ == other.config@
        &&& self.enabled == other.enabled
        &&& self.interval == other.interval
        &&& self.order == other.order
        &&& self.path@ == other.path@
        &&& self.rotate == other.rotate
        &&& self.rotate_strategy@ == other.rotate_strategy@
        &&& self.singleton == other.singleton
        &&& self.task@ == other.task@
    }

    /// A runnable task: enabled, with a non-negative interval and a
    /// working directory.
    pub open spec fn valid_spec(self) -> bool {
        &&& self.enabled
        &&& self.interval >= 0
        &&& self.path@.len() > 0
    }

    /// Whether the task may run at all.
    pub fn is_valid(&self) -> (r: bool)
        ensures
            r == self.valid_spec(),
    {
        self.enabled && self.interval >= 0 && !self.path.as_str().is_empty()
    }

    /// A field-for-field copy.
    pub fn duplicate(&self) -> (r: ConfigTask)
        ensures
            r.same(*self),
    {
        ConfigTask {
            commands: clone_strings(&self.commands),
            config: self.config.clone(),
            enabled: self.enabled,
            interval: self.interval,
            order: self.order,
            path: self.path.clone(),
            rotate: self.rotate,
            rotate_strategy: self.rotate_strategy.clone(),
            singleton: self.singleton,
            task: self.task.clone(),
        }
    }

    /// A field-for-field copy whose owning configuration is `a_name`.
    fn with_config(&self, a_name: &String) -> (r: ConfigTask)
        ensures
            r.config@ == a_name@,
            r.commands@ == self.commands@,
            r.enabled == self.enabled,
            r.interval == self.interval,
            r.order == self.order,
            r.path@ == self.path@,
            r.rotate == self.rotate,
            r.rotate_strategy@ == self.rotate_strategy@,
            r.singleton == self.singleton,
            r.task@ == self.task@,
    {
        ConfigTask {
            commands: clone_strings(&self.commands),
            config: a_name.clone(),
            enabled: self.enabled,
            interval: self.interval,
            order: self.order,
            path: self.path.clone(),
            rotate: self.rotate,
            rotate_strategy: self.rotate_strategy.clone(),
            singleton: self.singleton,
            task: self.task.clone(),
        }
    }
}

/// No two declared tasks carry the same name.
pub open spec fn distinct_task_names(ts: Seq<ConfigTask>) -> bool {
    forall|i: int, j: int|
        0 <= i < j < ts.len() ==> (#[trigger] ts[i]).task@ != (#[trigger] ts[j]).task@
}

/// Why a configuration was rejected as a whole.
#[derive(Clone, Copy, PartialEq, Eq, Structural, Debug)]
pub enum ConfigError {
    EmptyName,
    DuplicateTask,
}

/// The task catalog: a configuration name and its tasks.
#[derive(Clone, Debug)]
pub struct Config {
    pub debug: bool,
    pub name: String,
    pub tasks: Vec<ConfigTask>,
}

impl Default for Config {
    /// An unnamed, empty catalog.
    fn default() -> (r: Config)
        ensures
            r.debug == false,
            r.name@ == Seq::<char>::empty(),
            r.tasks@.len() == 0,
    {
        Config { debug: false, name: String::new(), tasks: Vec::new() }
    }
}

impl Config {
    /// A sound catalog: task names are unique.
    pub open spec fn wf(self) -> bool {
        distinct_task_names(self.tasks@)
    }

    /// Assemble a catalog from a configuration name and its declared
    /// tasks, stamping the name into every task. Rejected when the name
    /// is blank or two tasks share a name.
    pub fn build(a_debug: bool, a_name: String, a_tasks: Vec<ConfigTask>) -> (r: Result<
        Config,
        ConfigError,
    >)
        ensures
            r is Ok <==> a_name@.len() > 0 && distinct_task_names(a_tasks@),
            r is Err ==> r == (if a_name@.len() == 0 {
                Err::<Config, ConfigError>(ConfigError::EmptyName)
            } else {
                Err::<Config, ConfigError>(ConfigError::DuplicateTask)
            }),
            match r {
                Ok(c) => {
                    &&& c.wf()
                    &&& c.debug == a_debug
                    &&& c.name@ == a_name@
                    &&& c.tasks@.len() == a_tasks@.len()
                    &&& forall|i: int|
                        #![trigger c.tasks@[i]]
                        0 <= i < a_tasks@.len() ==> {
                            let t = c.tasks@[i];
                            let s = a_tasks@[i];
                            &&& t.config@ == a_name@
                            &&& t.commands@ == s.commands@
                            &&& t.enabled == s.enabled
                            &&& t.interval == s.interval
                            &&& t.order == s.order
                            &&& t.path@ == s.path@
                            &&& t.rotate == s.rotate
                            &&& t.rotate_strategy@ == s.rotate_strategy@
                            &&& t.singleton == s.singleton
                            &&& t.task@ == s.task@
                        }
                },
                Err(_) => true,
            },
    {
        if a_name.as_str().is_empty() {
            return Err(ConfigError::EmptyName);
        }
        let n = a_tasks.len();
        let mut i: usize = 0;
        while i < n
            invariant
                i <= n,
                n == a_tasks@.len(),
                a_name@.len() > 0,
                forall|p: int, q: int|
                    0 <= p < q < n && p < i ==> (#[trigger] a_tasks@[p]).task@ != (
                    #[trigger] a_tasks@[q]).task@,
            decreases n - i,
        {
            let mut j: usize = i + 1;
            while j < n
                invariant
                    i < j <= n,
                    n == a_tasks@.len(),
                    a_name@.len() > 0,
                    forall|q: int|
                        i < q < j ==> a_tasks@[i as int].task@ != (#[trigger] a_tasks@[q]).task@,
                decreases n - j,
            {
                if str_eq(a_tasks[i].task.as_str(), a_tasks[j].task.as_str()) {
                    return Err(ConfigError::DuplicateTask);
                }
                j = j + 1;
            }
            i = i + 1;
        }
        let mut stamped: Vec<ConfigTask> = Vec::new();
        let mut k: usize = 0;
        while k < n
            invariant
                k <= n,
                n == a_tasks@.len(),
                stamped@.len() == k,
                forall|i: int|
                    #![trigger stamped@[i]]
                    0 <= i < k ==> {
                        let t = stamped@[i];
                        let s = a_tasks@[i];
                        &&& t.config@ == a_name@
                        &&& t.commands@ == s.commands@
                        &&& t.enabled == s.enabled
                        &&& t.interval == s.interval
                        &&& t.order == s.order
                        &&& t.path@ == s.path@
                        &&& t.rotate == s.rotate
                        &&& t.rotate_strategy@ == s.rotate_strategy@
                        &&& t.singleton == s.singleton
                        &&& t.task@ == s.task@
                    },
            decreases n - k,
        {
            stamped.push(a_tasks[k].with_config(&a_name));
            k = k + 1;
        }
        Ok(Config { debug: a_debug, name: a_name, tasks: stamped })
    }

    /// Look the named task up in the catalog; a copy of the first task
    /// carrying that name, or `None` when no task does.
    pub fn get_task(&self, a_task: &str) -> (r: Option<ConfigTask>)
        ensures
            match r {
                Some(t) => {
                    &&& exists|i: int|
                        0 <= i < self.tasks@.len() && t.same(#[trigger] self.tasks@[i])
                    &&& t.task@ == a_task@
                },
                None => forall|i: int|
                    0 <= i < self.tasks@.len() ==> (#[trigger] self.tasks@[i]).task@ != a_task@,
            },
    {
        let n = self.tasks.len();
        let mut i: usize = 0;
        while i < n
            invariant
                i <= n,
                n == self.tasks@.len(),
                forall|j: int| 0 <= j < i ==> (#[trigger] self.tasks@[j]).task@ != a_task@,
            decreases n - i,
        {
            if str_eq(self.tasks[i].task.as_str(), a_task) {
                return Some(self.tasks[i].duplicate());
            }
            i = i + 1;
        }
        None
    }
}

} // verus!
