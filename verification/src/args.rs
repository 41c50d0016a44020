//! The program's arguments, as plain values, and what they ask for.
//! Reading the command line itself is the caller's business; the
//! decision which action the arguments name is made here.
use vstd::prelude::*;

verus! {

/// The program arguments: a configuration file, a task selector, and
/// the debug and sample flags.
pub struct Args {
    pub config: Option<String>,
    pub debug: bool,
    pub sample: bool,
    pub task: Option<String>,
}

impl Default for Args {
    /// No arguments given.
    fn default() -> (r: Args)
        ensures
            r.config is None,
            r.debug == false,
            r.sample == false,
            r.task is None,
    {
        Args { config: None, debug: false, sample: false, task: None }
    }
}

/// The action a set of arguments asks for, decided in fixed order:
/// the sample dump first, then the missing-argument errors, then a run.
#[derive(Clone, Copy, PartialEq, Eq, Structural, Debug)]
pub enum Directive {
    ShowSample,
    MissingConfig,
    MissingTask,
    Run,
}

impl Args {
    /// The action these arguments ask for.
    pub open spec fn directive_spec(self) -> Directive {
        if self.sample {
            Directive::ShowSample
        } else if self.config is None {
            Directive::MissingConfig
        } else if self.task is None {
            Directive::MissingTask
        } else {
            Directive::Run
        }
    }

    /// Decide what to do with these arguments. The two missing-argument
    /// cases are reported as errors with the short help.
    pub fn directive(&self) -> (r: Directive)
        ensures
            r == self.directive_spec(),
    {
        if self.sample {
            Directive::ShowSample
        } else if self.config.is_none() {
            Directive::MissingConfig
        } else if self.task.is_none() {
            Directive::MissingTask
        } else {
            Directive::Run
        }
    }
}

} // verus!
