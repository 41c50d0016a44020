use vault::config::Config;
use vault::config::ConfigTask;
use vault::config::ConfigTaskRotate;
use vault::rotate::Granularity;
use vault::rotate::Rotate;
use vault::rotate::RotateError;
use vault::task::Task;

fn rotating_task(strategy: &str, rotate: ConfigTaskRotate) -> Task {
    let mut t = ConfigTask::default();
    t.task = String::from("backup");
    t.enabled = true;
    t.interval = 60;
    t.path = String::from("/var/backups/test");
    t.rotate = rotate;
    t.rotate_strategy = String::from(strategy);
    let cfg = Config::build(false, String::from("test"), vec![t.clone()]).unwrap();
    Task { cfg, name: String::from("backup"), task: t }
}

fn hourly_only() -> ConfigTaskRotate {
    ConfigTaskRotate { hourly: true, ..ConfigTaskRotate::default() }
}

fn names(v: &[&str]) -> Vec<String> {
    v.iter().map(|s| String::from(*s)).collect()
}

#[test]
fn three_hourly_buckets_delete() {
    // Three consecutive hours holding 3, 2 and 1 files, oldest first.
    let files = names(&[
        "2023-05-20_04-10-00.000000000.tgz",
        "2023-05-20_04-20-00.000000000.tgz",
        "2023-05-20_04-30-00.000000000.tgz",
        "2023-05-20_05-10-00.000000000.tgz",
        "2023-05-20_05-20-00.000000000.tgz",
        "2023-05-20_06-10-00.000000000.tgz",
    ]);
    let task = rotating_task("delete", hourly_only());
    let rotate = Rotate::new(&task);
    let plan = rotate.run(&files).unwrap();
    assert_eq!(plan.passes.len(), 1);
    let pass = &plan.passes[0];
    assert_eq!(pass.granularity, Granularity::Hourly);
    // Exactly 2 files go from the oldest hour, 1 from the middle hour,
    // and the newest hour's single file is untouched.
    assert_eq!(
        pass.victims,
        names(&[
            "2023-05-20_04-10-00.000000000.tgz",
            "2023-05-20_04-20-00.000000000.tgz",
            "2023-05-20_05-10-00.000000000.tgz",
        ])
    );
}

#[test]
fn single_file_buckets_are_left_alone() {
    let files = names(&[
        "2023-05-20_04-10-00.000000000.tgz",
        "2023-05-20_05-10-00.000000000.tgz",
        "2023-05-20_06-10-00.000000000.tgz",
    ]);
    let task = rotating_task("delete", hourly_only());
    let plan = Rotate::new(&task).run(&files).unwrap();
    assert_eq!(plan.passes[0].victims, Vec::<String>::new());
}

#[test]
fn non_matching_names_are_invisible() {
    let files = names(&[
        "moved",
        "state.toml",
        "notes.txt",
        "2023-05-20_04-10-00.000000000.tgz",
        "2023-05-20_04-20-00.000000000.tgz",
        "2023-05-20_05-10-00.000000000.tgz",
    ]);
    let task = rotating_task("delete", hourly_only());
    let plan = Rotate::new(&task).run(&files).unwrap();
    assert_eq!(
        plan.passes[0].victims,
        names(&["2023-05-20_04-10-00.000000000.tgz"])
    );
}

#[test]
fn empty_listing_is_a_no_op() {
    let task = rotating_task("delete", hourly_only());
    let plan = Rotate::new(&task).run(&Vec::new()).unwrap();
    assert_eq!(plan.passes.len(), 1);
    assert!(plan.passes[0].victims.is_empty());
}

#[test]
fn move_strategy_targets_moved_subdirectory() {
    let files = names(&[
        "2023-05-20_04-10-00.000000000.tgz",
        "2023-05-20_04-20-00.000000000.tgz",
        "2023-05-20_05-10-00.000000000.tgz",
    ]);
    let task = rotating_task("move", hourly_only());
    let rotate = Rotate::new(&task);
    let plan = rotate.run(&files).unwrap();
    let victims = &plan.passes[0].victims;
    assert_eq!(victims, &names(&["2023-05-20_04-10-00.000000000.tgz"]));
    // The victim keeps its name under the task directory's "moved"
    // subdirectory, and leaves the place it had.
    assert_eq!(rotate.moved_dir(), "/var/backups/test/moved");
    assert_eq!(
        rotate.source_path(&victims[0]),
        "/var/backups/test/2023-05-20_04-10-00.000000000.tgz"
    );
    assert_eq!(
        rotate.moved_target(&victims[0]),
        "/var/backups/test/moved/2023-05-20_04-10-00.000000000.tgz"
    );
}

#[test]
fn hourly_pass_feeds_daily_pass() {
    // Day one holds two hours (two files, then one); day two holds one.
    let files = names(&[
        "2023-05-20_04-10-00.000000000.tgz",
        "2023-05-20_04-20-00.000000000.tgz",
        "2023-05-20_05-10-00.000000000.tgz",
        "2023-05-21_04-10-00.000000000.tgz",
    ]);
    let both = ConfigTaskRotate { hourly: true, daily: true, ..ConfigTaskRotate::default() };
    let task = rotating_task("delete", both);
    let plan = Rotate::new(&task).run(&files).unwrap();
    assert_eq!(plan.passes.len(), 2);
    assert_eq!(plan.passes[0].granularity, Granularity::Hourly);
    assert_eq!(plan.passes[1].granularity, Granularity::Daily);
    // The hourly pass prunes the first hour of day one.
    assert_eq!(
        plan.passes[0].victims,
        names(&["2023-05-20_04-10-00.000000000.tgz"])
    );
    // The daily pass sees only what the hourly pass left, so it prunes
    // day one down to its last remaining file and never touches what
    // the hourly pass already removed.
    assert_eq!(
        plan.passes[1].victims,
        names(&["2023-05-20_04-20-00.000000000.tgz"])
    );
    for f in &plan.passes[0].victims {
        assert!(!plan.passes[1].victims.contains(f));
    }
}

#[test]
fn cascade_runs_hourly_to_yearly() {
    let all = ConfigTaskRotate { hourly: true, daily: true, monthly: true, yearly: true };
    let task = rotating_task("delete", all);
    let plan = Rotate::new(&task).run(&Vec::new()).unwrap();
    let order: Vec<Granularity> = plan.passes.iter().map(|p| p.granularity).collect();
    assert_eq!(
        order,
        vec![Granularity::Hourly, Granularity::Daily, Granularity::Monthly, Granularity::Yearly]
    );
}

#[test]
fn unknown_strategy_fails_rotation_only_for_its_task() {
    let files = names(&[
        "2023-05-20_04-10-00.000000000.tgz",
        "2023-05-20_04-20-00.000000000.tgz",
        "2023-05-20_05-10-00.000000000.tgz",
    ]);
    let broken = rotating_task("archive", hourly_only());
    let err = Rotate::new(&broken).run(&files).unwrap_err();
    assert_eq!(err, RotateError::UnknownStrategy);

    // A sibling task with a supported strategy is not affected: its
    // rotation plans as usual.
    let sibling = rotating_task("move", hourly_only());
    assert!(Rotate::new(&sibling).run(&files).is_ok());
}

#[test]
fn per_granularity_passes_respect_flags() {
    let files = names(&[
        "2023-05-20_04-10-00.000000000.tgz",
        "2023-05-20_04-20-00.000000000.tgz",
        "2023-05-20_05-10-00.000000000.tgz",
        "2024-06-21_04-10-00.000000000.tgz",
    ]);
    let task = rotating_task("delete", hourly_only());
    let rotate = Rotate::new(&task);
    assert_eq!(
        rotate.run_hourly(&files),
        names(&["2023-05-20_04-10-00.000000000.tgz"])
    );
    // Granularities that are switched off plan nothing.
    assert!(rotate.run_daily(&files).is_empty());
    assert!(rotate.run_monthly(&files).is_empty());
    assert!(rotate.run_yearly(&files).is_empty());
}

#[test]
fn yearly_pass_buckets_by_year() {
    let files = names(&[
        "2021-01-01_00-00-00.000000000.tgz",
        "2021-06-01_00-00-00.000000000.tgz",
        "2022-01-01_00-00-00.000000000.tgz",
        "2023-01-01_00-00-00.000000000.tgz",
    ]);
    let yearly = ConfigTaskRotate { yearly: true, ..ConfigTaskRotate::default() };
    let task = rotating_task("delete", yearly);
    let plan = Rotate::new(&task).run(&files).unwrap();
    assert_eq!(
        plan.passes[0].victims,
        names(&["2021-01-01_00-00-00.000000000.tgz"])
    );
}
