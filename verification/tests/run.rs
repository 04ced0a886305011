use hitest::cmd::Cmd;
use hitest::concurrency::{default_name, ConcurrencyGroup};
use hitest::condition::Condition;
use hitest::env::{Env, ResourceEnv};
use hitest::input::{ArgMap, ArgValue, InputGroup};
use hitest::isolation::{child_exit_code, watch, ChildStatus, WatchAction, POLL_INTERVAL_MS, WAIT_TIMEOUT_MS};
use hitest::run::{CallOutcome, InstanceRun, Step};
use hitest::schedule::TestResult;
use hitest::test::{default_false, default_one, default_true, Test};

fn cmd(opfunc: &str, expect_eq: &str) -> Cmd {
    Cmd {
        opfunc: opfunc.into(),
        condition: Condition::Eq(expect_eq.into()),
        args: vec![],
        perf: false,
    }
}

fn run_instance(
    test: &Test,
    env: &ResourceEnv,
    on_worker: bool,
    call: &mut dyn FnMut(&Cmd) -> CallOutcome,
) -> bool {
    let mut run = InstanceRun::begin(env.instance_commands(&test.cmds, on_worker), test.break_if_fail);
    loop {
        let outcome = match run.step() {
            Step::Done(passed) => return passed,
            Step::Call(cmd) => call(cmd),
        };
        run.record(outcome);
    }
}

fn run_test(test: &Test, env: &ResourceEnv, call: &mut dyn FnMut(&Cmd) -> CallOutcome) -> TestResult {
    let schedule = test.schedule(env.max_threads);
    let mut outcomes = Vec::new();
    for chunk in &schedule.chunks {
        for instance in chunk {
            outcomes.push(run_instance(instance, env, false, call));
        }
    }
    TestResult::tally(&outcomes)
}

fn no_env() -> ResourceEnv {
    ResourceEnv::init(None, None, None)
}

#[test]
fn two_replicas_of_a_passing_command_report_two_of_two() {
    let test = Test {
        name: "t".into(),
        cmds: vec![cmd("always_zero", "0")],
        thread_num: 2,
        should_panic: false,
        break_if_fail: true,
        inputs: vec![],
        serial: None,
    };
    let mut calls = 0;
    let result = run_test(&test, &no_env(), &mut |_| {
        calls += 1;
        CallOutcome::Returned(0)
    });
    assert_eq!(result, TestResult { success: 2, total: 2 });
    assert_eq!(calls, 2);
    assert!(result.all_passed());
}

#[test]
fn input_group_resolves_the_argument_before_dispatch() {
    let mut args = ArgMap::new();
    args.insert("alloc_size".into(), ArgValue::Single("100".into()));
    let test = Test {
        name: "t".into(),
        cmds: vec![Cmd {
            opfunc: "my_malloc".into(),
            condition: Condition::Eq("0".into()),
            args: vec!["len=$alloc_size".into()],
            perf: false,
        }],
        thread_num: 1,
        should_panic: false,
        break_if_fail: true,
        inputs: vec![InputGroup { name: "i".into(), args, ..Default::default() }],
        serial: None,
    };
    let mut seen: Vec<Vec<String>> = Vec::new();
    let result = run_test(&test, &no_env(), &mut |cmd| {
        seen.push(cmd.args.clone());
        CallOutcome::Returned(0)
    });
    assert_eq!(seen, vec![vec!["len=100".to_string()]]);
    assert_eq!(result, TestResult { success: 1, total: 1 });
}

fn trace(test: &Test, returns: &[CallOutcome]) -> (bool, Vec<String>) {
    let mut called = Vec::new();
    let mut next = returns.iter();
    let passed = run_instance(test, &no_env(), false, &mut |cmd| {
        called.push(cmd.opfunc.clone());
        *next.next().unwrap()
    });
    (passed, called)
}

#[test]
fn failed_expectation_ends_the_instance_where_it_breaks_on_failure() {
    let mut test = Test {
        cmds: vec![cmd("a", "0"), cmd("b", "0"), cmd("c", "0")],
        break_if_fail: true,
        ..Default::default()
    };
    let r = CallOutcome::Returned;
    assert_eq!(trace(&test, &[r(0), r(1), r(0)]), (false, vec!["a".into(), "b".into()]));
    assert_eq!(trace(&test, &[r(0), r(0), r(0)]), (true, vec!["a".into(), "b".into(), "c".into()]));
    test.break_if_fail = false;
    assert_eq!(trace(&test, &[r(0), r(1), r(0)]), (false, vec!["a".into(), "b".into(), "c".into()]));
    assert_eq!(trace(&test, &[r(1), r(0), r(0)]), (false, vec!["a".into(), "b".into(), "c".into()]));
}

#[test]
fn dispatch_error_ends_the_instance_in_any_case() {
    let mut test = Test {
        cmds: vec![cmd("a", "0"), cmd("b", "0"), cmd("c", "0")],
        break_if_fail: false,
        ..Default::default()
    };
    let r = CallOutcome::Returned;
    assert_eq!(trace(&test, &[r(0), CallOutcome::Failed, r(0)]), (false, vec!["a".into(), "b".into()]));
    test.cmds[0] = cmd("a", "not a number");
    assert_eq!(trace(&test, &[r(0), r(0), r(0)]), (false, vec!["a".into()]));
}

#[test]
fn instance_without_commands_passes() {
    assert_eq!(trace(&Test::default(), &[]), (true, vec![]));
}

#[test]
fn failure_of_one_instance_leaves_its_siblings_alone() {
    let test = Test {
        name: "t".into(),
        cmds: vec![cmd("f", "0")],
        thread_num: 3,
        break_if_fail: true,
        ..Default::default()
    };
    let mut calls = 0;
    let result = run_test(&test, &no_env(), &mut |_| {
        calls += 1;
        CallOutcome::Returned(if calls == 2 { 1 } else { 0 })
    });
    assert_eq!(result, TestResult { success: 2, total: 3 });
    assert!(!result.all_passed());
}

#[test]
fn worker_threads_run_inside_the_thread_environment() {
    let env = ResourceEnv::init(
        Some(Env {
            name: "thread".into(),
            init: vec![cmd("t_init", "0")],
            exit: vec![cmd("t_exit", "0")],
            tests: vec![],
        }),
        Some(Env {
            name: "process".into(),
            init: vec![cmd("p_init", "0")],
            exit: vec![],
            tests: vec![],
        }),
        Some(3),
    );
    assert_eq!(env.max_threads, Some(3));
    let test = Test { cmds: vec![cmd("body", "0")], ..Default::default() };
    let names = |on_worker: bool| -> Vec<String> {
        env.instance_commands(&test.cmds, on_worker).into_iter().map(|c| c.opfunc).collect()
    };
    assert_eq!(names(true), vec!["t_init", "body", "t_exit"]);
    assert_eq!(names(false), vec!["body"]);
    let child = env.child_run(&Test { thread_num: 4, should_panic: true, ..test.clone() });
    let parts = |cmds: &[Cmd]| -> Vec<String> { cmds.iter().map(|c| c.opfunc.clone()).collect() };
    assert_eq!(parts(&child.set_up), vec!["p_init", "t_init"]);
    assert_eq!(parts(&child.body.cmds), vec!["body"]);
    assert_eq!(parts(&child.tear_down), vec!["t_exit"]);
    assert_eq!(child.body.thread_num, 1);
    assert!(!child.body.should_panic);
    let none = no_env();
    assert_eq!(none.instance_commands(&test.cmds, true).len(), 1);
    assert!(none.startup().is_empty());
    assert!(none.shutdown().is_empty());
    let first: Vec<String> = env.startup().into_iter().map(|c| c.opfunc).collect();
    assert_eq!(first, vec!["p_init", "t_init"]);
    let last: Vec<String> = env.shutdown().into_iter().map(|c| c.opfunc).collect();
    assert_eq!(last, vec!["t_exit"]);
    let mut called = Vec::new();
    assert!(run_instance(&test, &env, true, &mut |cmd| {
        called.push(cmd.opfunc.clone());
        CallOutcome::Returned(0)
    }));
    assert_eq!(called, vec!["t_init", "body", "t_exit"]);
}

#[test]
fn only_a_crash_makes_a_panic_test_pass() {
    assert_eq!(watch(ChildStatus::Signaled, 0), WatchAction::Report(true));
    assert_eq!(watch(ChildStatus::Signaled, 5000), WatchAction::Report(true));
    assert_eq!(watch(ChildStatus::Exited(0), 0), WatchAction::Report(false));
    assert_eq!(watch(ChildStatus::Exited(1), 0), WatchAction::Report(false));
    assert_eq!(watch(ChildStatus::Exited(-1), 2000), WatchAction::Report(false));
    assert_eq!(watch(ChildStatus::Other, 0), WatchAction::Report(false));
    assert_eq!(watch(ChildStatus::WaitFailed, 0), WatchAction::Report(false));
}

#[test]
fn a_child_that_hangs_is_killed_after_the_timeout() {
    assert_eq!(WAIT_TIMEOUT_MS, 1000);
    assert_eq!(POLL_INTERVAL_MS, 100);
    assert_eq!(watch(ChildStatus::StillAlive, 0), WatchAction::PollAgain);
    assert_eq!(watch(ChildStatus::StillAlive, 1000), WatchAction::PollAgain);
    assert_eq!(watch(ChildStatus::StillAlive, 1001), WatchAction::KillAndFail);
    assert_eq!(watch(ChildStatus::StillAlive, u64::MAX), WatchAction::KillAndFail);
}

#[test]
fn the_child_runs_one_instance_in_process() {
    let test = Test {
        name: "crash".into(),
        cmds: vec![cmd("write_past_end", "0")],
        thread_num: 8,
        should_panic: true,
        break_if_fail: true,
        inputs: vec![],
        serial: Some(false),
    };
    assert!(test.needs_isolation());
    let child = test.isolated_child();
    assert!(!child.needs_isolation());
    assert_eq!(child.thread_num, 1);
    assert_eq!(child.name, "crash");
    assert_eq!(child.cmds.len(), 1);
    assert!(child.break_if_fail);
    assert_eq!(child.serial, Some(false));
    assert_eq!(child_exit_code(true), 0);
    assert_eq!(child_exit_code(false), 1);
}

#[test]
fn group_of_two_passing_tests_reports_their_sum_under_its_own_names() {
    let t1 = Test { name: "t1".into(), cmds: vec![cmd("f", "0")], thread_num: 2, ..Default::default() };
    let t2 = Test { name: "t2".into(), cmds: vec![cmd("f", "0")], thread_num: 3, ..Default::default() };
    let other = Test { name: "t3".into(), cmds: vec![cmd("f", "0")], thread_num: 1, ..Default::default() };
    let tests = vec![t1.clone(), other, t2.clone()];
    let group = ConcurrencyGroup { tests: vec!["t2".into(), "t1".into()], name: "pair".into() };
    let members = group.members(&tests);
    let names: Vec<&str> = members.iter().map(|t| t.name.as_str()).collect();
    assert_eq!(names, vec!["pair_t1", "pair_t2"]);
    let mut outcomes = Vec::new();
    let mut names = Vec::new();
    for chunk in group.plan(&tests, None) {
        for instance in chunk {
            names.push(instance.name.clone());
            outcomes.push(Some(run_instance(&instance, &no_env(), true, &mut |_| {
                CallOutcome::Returned(0)
            })));
        }
    }
    assert_eq!(names, vec!["pair_t1", "pair_t1", "pair_t2", "pair_t2", "pair_t2"]);
    let results = vec![TestResult::tally_counted(&outcomes)];
    let alone1 = run_test(&t1, &no_env(), &mut |_| CallOutcome::Returned(0));
    let alone2 = run_test(&t2, &no_env(), &mut |_| CallOutcome::Returned(0));
    let sum = TestResult::sum(&results);
    assert_eq!(
        sum,
        TestResult { success: alone1.total + alone2.total, total: alone1.total + alone2.total }
    );
    assert_eq!(sum, TestResult { success: 5, total: 5 });
}

#[test]
fn group_that_names_no_existing_test_runs_nothing() {
    let tests = vec![Test { name: "t1".into(), ..Default::default() }];
    let group = ConcurrencyGroup { tests: vec!["gone".into()], name: "g".into() };
    assert!(group.members(&tests).is_empty());
    assert!(group.plan(&tests, Some(2)).is_empty());
    let empty = ConcurrencyGroup { tests: vec![], name: default_name() };
    assert!(empty.plan(&tests, None).is_empty());
    assert_eq!(TestResult::sum(&vec![]), TestResult { success: 0, total: 0 });
    assert_eq!(empty.name, "default_group");
}

#[test]
fn record_test_appends_the_names_of_the_group() {
    let group = ConcurrencyGroup { tests: vec!["a".into(), "b".into()], name: "g".into() };
    let mut taken = vec!["x".to_string()];
    group.record_test(&mut taken);
    group.record_test(&mut taken);
    assert_eq!(taken, vec!["x", "a", "b", "a", "b"]);
    let copy = group.clone();
    assert_eq!(copy.tests, group.tests);
}

#[test]
fn defaults_of_a_test_description() {
    assert_eq!(default_one(), 1);
    assert!(default_true());
    assert!(!default_false());
    let test = Test::default();
    assert_eq!(test.thread_num, 0);
    assert!(!test.break_if_fail);
    assert!(!test.runs_serially());
}

#[test]
fn a_group_under_a_cap_never_runs_more_instances_than_the_cap() {
    let tests: Vec<Test> = (0..3)
        .map(|i| Test {
            name: format!("t{}", i),
            cmds: vec![cmd("f", "0")],
            thread_num: 2,
            inputs: vec![
                InputGroup { name: "a".into(), ..Default::default() },
                InputGroup { name: "b".into(), ..Default::default() },
            ],
            ..Default::default()
        })
        .collect();
    let group = ConcurrencyGroup {
        tests: vec!["t0".into(), "t1".into(), "t2".into()],
        name: "g".into(),
    };
    for cap in [1usize, 2, 5, 12, 50] {
        let chunks = group.plan(&tests, Some(cap));
        let mut in_flight_peak = 0;
        let mut total = 0;
        for chunk in &chunks {
            assert!(!chunk.is_empty());
            in_flight_peak = in_flight_peak.max(chunk.len());
            total += chunk.len();
        }
        assert!(in_flight_peak <= cap);
        assert_eq!(total, 12);
        assert_eq!(chunks.len(), (12 + cap - 1) / cap);
    }
    let uncapped = group.plan(&tests, None);
    assert_eq!(uncapped.len(), 1);
    assert_eq!(uncapped[0].len(), 12);
    assert_eq!(uncapped[0][0].name, "g_t0_a");
    assert_eq!(uncapped[0][11].name, "g_t2_b");
}

#[test]
fn the_text_form_of_a_test() {
    let mut args = ArgMap::new();
    args.insert("size".into(), ArgValue::Single("100".into()));
    args.insert("off".into(), ArgValue::List(vec!["0x10".into(), "0x20".into()]));
    args.insert(
        "n".into(),
        ArgValue::Range(hitest::input::RangeExpr { start: -1, end: 3, step: Some(2) }),
    );
    args.insert(
        "m".into(),
        ArgValue::Range(hitest::input::RangeExpr { start: 0, end: 1, step: None }),
    );
    args.insert("none".into(), ArgValue::List(vec![]));
    let test = Test {
        name: "rw".into(),
        cmds: vec![
            Cmd {
                opfunc: "write".into(),
                condition: Condition::Eq("0".into()),
                args: vec!["val=$size".into(), "off=$off".into()],
                perf: true,
            },
            Cmd {
                opfunc: "read".into(),
                condition: Condition::Ne("$size".into()),
                args: vec![],
                perf: false,
            },
        ],
        thread_num: 2,
        should_panic: false,
        break_if_fail: true,
        inputs: vec![
            InputGroup { name: "i1".into(), args, ..Default::default() },
            InputGroup { name: "i2".into(), ..Default::default() },
        ],
        serial: None,
    };
    assert_eq!(
        test.describe(),
        "Test: rw\nThreads: 2\nShould Panic: false\nBreak if Fail: true\nInput Groups:\n  - \
         i1: {size: \"100\", off: [\"0x10\", \"0x20\"], n: -1..=3 step 2, m: 0..=1, none: []}\n  \
         - i2: {}\nCommands:\n  - write(val=$size, off=$off) == 0 (timed)\n  - read() != $size\n"
    );
    assert_eq!(test.cmds[1].describe(), "read() != $size");
    assert_eq!(
        Test::default().describe(),
        "Test: \nThreads: 0\nShould Panic: false\nBreak if Fail: false\nCommands:\n"
    );
}
