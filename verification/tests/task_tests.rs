use vault::args::Args;
use vault::args::Directive;
use vault::config::Config;
use vault::config::ConfigError;
use vault::config::ConfigTask;
use vault::config::ConfigTaskRotate;
use vault::state::State;
use vault::task::Decision;
use vault::task::Selector;
use vault::task::SkipReason;
use vault::task::Task;
use vault::time::Time;

fn plain_task(name: &str) -> ConfigTask {
    let mut t = ConfigTask::default();
    t.task = String::from(name);
    t.enabled = true;
    t.interval = 60;
    t.path = String::from("/tmp/backups");
    t
}

fn instant(s: &str) -> Time {
    Time::from_string(s).unwrap()
}

#[test]
fn eval_substitutes_macros() {
    let now = instant("2023-05-20_04-55-11.000000001");
    let stamp = instant("2023-05-20_04-55-10.000000000");
    let out = Task::eval("tar -czf {PATH}/{STAMP}.tgz data # at {NOW}", "/var/backups", &now, &stamp);
    assert_eq!(
        out,
        "tar -czf /var/backups/2023-05-20_04-55-10.000000000.tgz data # at 2023-05-20_04-55-11.000000001"
    );
    // Every occurrence is replaced.
    let twice = Task::eval("{STAMP} {STAMP}", "/p", &now, &stamp);
    assert_eq!(twice, "2023-05-20_04-55-10.000000000 2023-05-20_04-55-10.000000000");
    // A template without macros is untouched.
    assert_eq!(Task::eval("echo done", "/p", &now, &stamp), "echo done");
}

#[test]
fn command_line_splits_on_spaces() {
    let now = instant("2023-05-20_04-55-11.000000001");
    let stamp = now;
    let c = Task::command_line("touch {STAMP}.txt", "/p", &now, &stamp).unwrap();
    assert_eq!(c.program, "touch");
    assert_eq!(c.args, vec![String::from("2023-05-20_04-55-11.000000001.txt")]);

    // The empty template runs nothing.
    assert!(Task::command_line("", "/p", &now, &stamp).is_none());

    // Consecutive spaces give empty arguments; there is no quoting.
    let d = Task::command_line("echo a  b", "/p", &now, &stamp).unwrap();
    assert_eq!(d.program, "echo");
    assert_eq!(d.args, vec![String::from("a"), String::from(""), String::from("b")]);
}

#[test]
fn prepare_skips_invalid_tasks() {
    let now = instant("2023-05-20_04-55-11.000000000");
    let state = State::initial(&now);

    let mut disabled = plain_task("a");
    disabled.enabled = false;
    assert_eq!(
        Task::decide_prepare(&disabled, &state, &now),
        Decision::Skip(SkipReason::Disabled)
    );

    let mut negative = plain_task("a");
    negative.interval = -1;
    assert_eq!(
        Task::decide_prepare(&negative, &state, &now),
        Decision::Skip(SkipReason::NegativeInterval)
    );

    let mut pathless = plain_task("a");
    pathless.path = String::new();
    assert_eq!(
        Task::decide_prepare(&pathless, &state, &now),
        Decision::Skip(SkipReason::EmptyPath)
    );
}

#[test]
fn prepare_skips_unparsable_expiry() {
    let now = instant("2023-05-20_04-55-11.000000000");
    let task = plain_task("a");
    let state = State { expires: String::from("not a timestamp"), locked: false };
    assert_eq!(
        Task::decide_prepare(&task, &state, &now),
        Decision::Skip(SkipReason::InvalidExpires)
    );
}

#[test]
fn prepare_throttles_until_expiry() {
    let task = plain_task("a");
    let t0 = instant("2023-05-20_04-00-00.000000000");

    // First run: state says due at t0, so prepare at t0 proceeds and
    // asks for the singleton lock.
    let state = State::initial(&t0);
    assert_eq!(
        Task::decide_prepare(&task, &state, &t0),
        Decision::Proceed { set_lock: true }
    );

    // The run finishes at t0 with interval 60: expires = t0 + 60.
    let after = State::finalized(&t0, task.interval).unwrap();
    assert_eq!(after.expires, "2023-05-20_04-01-00.000000000");
    assert!(!after.locked);

    // A second attempt before the interval has elapsed is skipped.
    assert_eq!(
        Task::decide_prepare(&task, &after, &t0),
        Decision::Skip(SkipReason::NotDue)
    );
    let just_before = instant("2023-05-20_04-00-59.999999999");
    assert_eq!(
        Task::decide_prepare(&task, &after, &just_before),
        Decision::Skip(SkipReason::NotDue)
    );

    // At the expiry instant the task is due again.
    let at_expiry = instant("2023-05-20_04-01-00.000000000");
    assert_eq!(
        Task::decide_prepare(&task, &after, &at_expiry),
        Decision::Proceed { set_lock: true }
    );
}

#[test]
fn finalize_adds_interval_exactly() {
    let t = instant("2023-12-31_23-59-55.000000007");
    let st = State::finalized(&t, 10).unwrap();
    assert_eq!(st.expires, "2024-01-01_00-00-05.000000007");
    assert!(!st.locked);

    let st0 = State::finalized(&t, 0).unwrap();
    assert_eq!(st0.expires, "2023-12-31_23-59-55.000000007");

    // An expiry beyond the representable years is refused.
    let late = instant("9999-12-31_23-59-59.000000000");
    assert!(State::finalized(&late, 1).is_none());
}

#[test]
fn locked_singleton_is_skipped() {
    let task = plain_task("a");
    assert!(task.singleton);
    let due = instant("2023-05-20_04-00-00.000000000");
    let locked = State { expires: Time::to_string(&due), locked: true };

    // Due, valid, but locked: the concurrent prepare reports the lock
    // and nothing runs.
    assert_eq!(
        Task::decide_prepare(&task, &locked, &due),
        Decision::Skip(SkipReason::Locked)
    );

    // A non-singleton task ignores the lock flag.
    let mut shared = plain_task("a");
    shared.singleton = false;
    assert_eq!(
        Task::decide_prepare(&shared, &locked, &due),
        Decision::Proceed { set_lock: false }
    );
}

#[test]
fn sort_tasks_by_declared_order() {
    let mut a = plain_task("a");
    a.order = 2;
    let mut b = plain_task("b");
    b.order = 0;
    let mut c = plain_task("c");
    c.order = 1;
    let mut v = vec![a, b, c];
    Task::sort_tasks(&mut v);
    assert_eq!(v[0].task, "b");
    assert_eq!(v[1].task, "c");
    assert_eq!(v[2].task, "a");

    assert_eq!(
        Task::sort_by_order(&v[0], &v[2]),
        std::cmp::Ordering::Less
    );
    assert_eq!(
        Task::sort_by_order(&v[0], &v[0]),
        std::cmp::Ordering::Equal
    );
    assert_eq!(
        Task::sort_by_order(&v[2], &v[0]),
        std::cmp::Ordering::Greater
    );
}

#[test]
fn selector_reads_task_names() {
    assert_eq!(Task::selector(""), Selector::Empty);
    assert_eq!(Task::selector("*"), Selector::All);
    assert_eq!(Task::selector("nightly"), Selector::One);
}

#[test]
fn directive_orders_argument_checks() {
    let mut args = Args::default();
    assert_eq!(args.directive(), Directive::MissingConfig);
    args.sample = true;
    assert_eq!(args.directive(), Directive::ShowSample);
    args.sample = false;
    args.config = Some(String::from("vault.toml"));
    assert_eq!(args.directive(), Directive::MissingTask);
    args.task = Some(String::from("*"));
    assert_eq!(args.directive(), Directive::Run);
}

#[test]
fn config_build_checks_names() {
    let tasks = vec![plain_task("a"), plain_task("b")];
    let cfg = Config::build(false, String::from("test"), tasks).unwrap();
    assert_eq!(cfg.name, "test");
    assert_eq!(cfg.tasks.len(), 2);
    assert_eq!(cfg.tasks[0].config, "test");
    assert_eq!(cfg.tasks[1].config, "test");

    let unnamed = Config::build(false, String::new(), vec![plain_task("a")]);
    assert_eq!(unnamed.unwrap_err(), ConfigError::EmptyName);

    let doubled = Config::build(
        false,
        String::from("test"),
        vec![plain_task("a"), plain_task("a")],
    );
    assert_eq!(doubled.unwrap_err(), ConfigError::DuplicateTask);
}

#[test]
fn get_task_finds_by_name() {
    let tasks = vec![plain_task("a"), plain_task("b")];
    let cfg = Config::build(false, String::from("test"), tasks).unwrap();
    let found = cfg.get_task("b").unwrap();
    assert_eq!(found.task, "b");
    assert_eq!(found.config, "test");
    assert!(cfg.get_task("c").is_none());
}

#[test]
fn state_paths_and_defaults() {
    assert_eq!(State::path("/var/backups"), "/var/backups/state.toml");
    let now = instant("2023-05-20_04-55-11.000000000");
    let st = State::initial(&now);
    assert_eq!(st.expires, "2023-05-20_04-55-11.000000000");
    assert!(!st.locked);

    let rotate = ConfigTaskRotate::default();
    assert!(!rotate.is_valid());
    let on = ConfigTaskRotate { daily: true, ..rotate };
    assert!(on.is_valid());

    let dflt = ConfigTask::default();
    assert!(!dflt.enabled);
    assert_eq!(dflt.interval, 0);
    assert_eq!(dflt.order, 0);
    assert_eq!(dflt.rotate_strategy, "move");
    assert!(dflt.singleton);
    assert!(!dflt.is_valid());
}
