use hitest::cmd::Cmd;
use hitest::concurrency::ConcurrencyGroup;
use hitest::condition::Condition;
use hitest::config::{Config, ConfigError};
use hitest::env::Env;
use hitest::error::TestError;
use hitest::input::{ArgMap, ArgValue, InputGroup};
use hitest::shared::SharedInputs;
use hitest::test::Test;

fn cmd(opfunc: &str) -> Cmd {
    Cmd {
        opfunc: opfunc.into(),
        condition: Condition::Eq("0".into()),
        args: vec![],
        perf: false,
    }
}

fn opfuncs(test: &Test) -> Vec<String> {
    test.cmds.iter().map(|c| c.opfunc.clone()).collect()
}

fn named(name: &str) -> Test {
    Test { name: name.into(), thread_num: 1, ..Default::default() }
}

#[test]
fn test_validate_global_env() {
    let config = Config {
        envs: vec![
            Env {
                name: "global1".into(),
                init: vec![],
                exit: vec![],
                tests: vec![],
            },
            Env {
                name: "global2".into(),
                init: vec![],
                exit: vec![],
                tests: vec![],
            },
        ],
        tests: vec![],
        concurrences: None,
        shared_inputs: SharedInputs::new(),
        ..Default::default()
    };
    assert!(config.validate().is_err());
}

#[test]
fn test_validate_test_multiple_envs() {
    let config = Config {
        envs: vec![
            Env {
                name: "env1".into(),
                init: vec![],
                exit: vec![],
                tests: vec!["test1".into()],
            },
            Env {
                name: "env2".into(),
                init: vec![],
                exit: vec![],
                tests: vec!["test1".into()],
            },
        ],
        tests: vec![Test {
            name: "test1".into(),
            ..Default::default()
        }],
        ..Default::default()
    };
    assert!(config.validate().is_err());
}

#[test]
fn test_env_application_order() {
    let global_init = cmd("global_init");
    let global_exit = cmd("global_exit");
    let local_init = cmd("local_init");
    let local_exit = cmd("local_exit");
    let config = Config {
        envs: vec![
            Env {
                name: "global".into(),
                init: vec![global_init],
                exit: vec![global_exit],
                tests: vec![],
            },
            Env {
                name: "local".into(),
                init: vec![local_init],
                exit: vec![local_exit],
                tests: vec!["test1".into()],
            },
        ],
        tests: vec![Test {
            name: "test1".into(),
            ..Default::default()
        }],
        ..Default::default()
    };

    let tests = config.apply_envs();

    let test = &tests[0];

    assert_eq!(test.cmds[0].opfunc, "global_init");
    assert_eq!(test.cmds[1].opfunc, "local_init");

    assert_eq!(test.cmds[test.cmds.len() - 2].opfunc, "local_exit");
    assert_eq!(test.cmds[test.cmds.len() - 1].opfunc, "global_exit");
}

#[test]
fn validation_names_what_is_wrong() {
    let two_globals = Config {
        envs: vec![
            Env { name: "a".into(), init: vec![], exit: vec![], tests: vec![] },
            Env { name: "b".into(), init: vec![], exit: vec![], tests: vec![] },
        ],
        ..Default::default()
    };
    match two_globals.validate() {
        Err(ConfigError::MultipleGlobalEnvs) => {}
        other => panic!("{:?}", other),
    }
    assert_eq!(
        two_globals.validate().unwrap_err().message(),
        "Only one global env (with empty tests) is allowed"
    );

    let claimed_twice = Config {
        envs: vec![
            Env { name: "a".into(), init: vec![], exit: vec![], tests: vec!["t2".into()] },
            Env { name: "b".into(), init: vec![], exit: vec![], tests: vec!["t1".into(), "t2".into()] },
            Env { name: "c".into(), init: vec![], exit: vec![], tests: vec!["t1".into()] },
        ],
        tests: vec![named("t0"), named("t1"), named("t2")],
        ..Default::default()
    };
    match claimed_twice.validate() {
        Err(ConfigError::TestInSeveralEnvs(name)) => assert_eq!(name, "t1"),
        other => panic!("{:?}", other),
    }
    assert_eq!(
        claimed_twice.validate().unwrap_err().message(),
        "Test 't1' can only belong to one non-global env"
    );
}

#[test]
fn validation_accepts_one_global_and_one_claim_each() {
    let config = Config {
        envs: vec![
            Env { name: "g".into(), init: vec![], exit: vec![], tests: vec![] },
            Env { name: "a".into(), init: vec![], exit: vec![], tests: vec!["t1".into()] },
            Env { name: "b".into(), init: vec![], exit: vec![], tests: vec!["t2".into(), "gone".into()] },
        ],
        tests: vec![named("t1"), named("t2"), named("t3")],
        ..Default::default()
    };
    assert!(config.validate().is_ok());
    assert!(Config::default().validate().is_ok());
}

#[test]
fn environments_nest_global_outside_local() {
    let mut body = named("t1");
    body.cmds = vec![cmd("first"), cmd("second")];
    let mut free = named("t2");
    free.cmds = vec![cmd("only")];
    let config = Config {
        envs: vec![
            Env {
                name: "local".into(),
                init: vec![cmd("l_i1"), cmd("l_i2")],
                exit: vec![cmd("l_e1"), cmd("l_e2")],
                tests: vec!["t1".into()],
            },
            Env {
                name: "global".into(),
                init: vec![cmd("g_i1"), cmd("g_i2")],
                exit: vec![cmd("g_e")],
                tests: vec![],
            },
        ],
        tests: vec![body, free],
        ..Default::default()
    };
    let tests = config.apply_envs();
    assert_eq!(
        opfuncs(&tests[0]),
        vec!["g_i1", "g_i2", "l_i1", "l_i2", "first", "second", "l_e1", "l_e2", "g_e"]
    );
    assert_eq!(opfuncs(&tests[1]), vec!["g_i1", "g_i2", "only", "g_e"]);
    assert_eq!(tests[0].name, "t1");
    assert_eq!(tests[1].thread_num, 1);
}

#[test]
fn set_env_wraps_the_commands() {
    let mut test = named("t");
    test.cmds = vec![cmd("body")];
    let env = Env {
        name: "e".into(),
        init: vec![cmd("i1"), cmd("i2")],
        exit: vec![cmd("x1"), cmd("x2")],
        tests: vec![],
    };
    Config::set_env(&mut test, &env);
    assert_eq!(opfuncs(&test), vec!["i1", "i2", "body", "x1", "x2"]);
    test.push_front(cmd("front"));
    test.push_back(cmd("back"));
    assert_eq!(opfuncs(&test), vec!["front", "i1", "i2", "body", "x1", "x2", "back"]);
}

fn grouped() -> Config {
    let mut serial_by_choice = named("e");
    serial_by_choice.serial = Some(false);
    let mut many = named("f");
    many.thread_num = 2;
    Config {
        concurrences: Some(vec![
            ConcurrencyGroup { tests: vec!["b".into(), "a".into()], name: "g1".into() },
            ConcurrencyGroup { tests: vec!["c".into(), "zz".into()], name: "g2".into() },
        ]),
        tests: vec![named("a"), named("b"), named("c"), named("d"), serial_by_choice, many],
        default_serial: true,
        ..Default::default()
    }
}

#[test]
fn plan_runs_groups_first_and_the_rest_on_their_own() {
    let plan = grouped().plan().unwrap();
    assert_eq!(plan.groups.len(), 2);
    assert_eq!(plan.groups[0].name, "g1");
    let members: Vec<&str> = plan.groups[0].members.iter().map(|t| t.name.as_str()).collect();
    assert_eq!(members, vec!["g1_a", "g1_b"]);
    let members: Vec<&str> = plan.groups[1].members.iter().map(|t| t.name.as_str()).collect();
    assert_eq!(members, vec!["g2_c"]);
    let rest: Vec<(&str, Option<bool>)> =
        plan.tests.iter().map(|t| (t.name.as_str(), t.serial)).collect();
    assert_eq!(rest, vec![("d", Some(true)), ("e", Some(false)), ("f", None)]);
    assert_eq!(plan.groups[0].members[0].serial, None);
}

#[test]
fn plan_without_default_serial_marks_nothing() {
    let mut config = grouped();
    config.default_serial = false;
    config.concurrences = None;
    let plan = config.plan().unwrap();
    assert!(plan.groups.is_empty());
    let rest: Vec<(&str, Option<bool>)> =
        plan.tests.iter().map(|t| (t.name.as_str(), t.serial)).collect();
    assert_eq!(
        rest,
        vec![("a", None), ("b", None), ("c", None), ("d", None), ("e", Some(false)), ("f", None)]
    );
}

#[test]
fn singled_out_test_bypasses_groups() {
    let mut config = grouped();
    config.tests.push(named("add"));
    config.debug_test = Some("d".into());
    let plan = config.plan().unwrap();
    assert!(plan.groups.is_empty());
    let rest: Vec<(&str, Option<bool>)> =
        plan.tests.iter().map(|t| (t.name.as_str(), t.serial)).collect();
    assert_eq!(rest, vec![("d", None), ("add", None)]);
    config.debug_test = Some("nothing".into());
    assert!(config.plan().unwrap().tests.is_empty());
    config.debug_test = Some("".into());
    assert_eq!(config.plan().unwrap().tests.len(), 7);
}

#[test]
fn plan_of_no_tests_is_empty_whatever_else_is_wrong() {
    let config = Config {
        envs: vec![
            Env { name: "a".into(), init: vec![], exit: vec![], tests: vec![] },
            Env { name: "b".into(), init: vec![], exit: vec![], tests: vec![] },
        ],
        ..Default::default()
    };
    let plan = config.plan().unwrap();
    assert!(plan.groups.is_empty());
    assert!(plan.tests.is_empty());
}

#[test]
fn plan_refuses_what_validation_refuses() {
    let config = Config {
        envs: vec![
            Env { name: "a".into(), init: vec![], exit: vec![], tests: vec![] },
            Env { name: "b".into(), init: vec![], exit: vec![], tests: vec![] },
        ],
        tests: vec![named("t")],
        ..Default::default()
    };
    assert!(matches!(config.plan(), Err(ConfigError::MultipleGlobalEnvs)));
}

#[test]
fn plan_resolves_references_and_reports_collisions() {
    let mut one = ArgMap::new();
    one.insert("size".into(), ArgValue::Single("100".into()));
    let mut two = ArgMap::new();
    two.insert("size".into(), ArgValue::Single("200".into()));
    let mut shared = SharedInputs::new();
    shared.insert("one".into(), one);
    shared.insert("two".into(), two);
    let mut test = named("t");
    test.cmds = vec![cmd("body")];
    test.inputs = vec![InputGroup { name: "i".into(), refs: vec!["one".into()], ..Default::default() }];
    let mut config = Config {
        envs: vec![Env {
            name: "g".into(),
            init: vec![cmd("init")],
            exit: vec![cmd("exit")],
            tests: vec![],
        }],
        shared_inputs: shared,
        tests: vec![test],
        ..Default::default()
    };
    let plan = config.plan().unwrap();
    assert_eq!(plan.tests.len(), 1);
    assert_eq!(opfuncs(&plan.tests[0]), vec!["init", "body", "exit"]);
    assert_eq!(
        plan.tests[0].inputs[0].args.get("size"),
        Some(&ArgValue::Single("100".into()))
    );

    config.tests[0].inputs[0].refs.push("two".into());
    match config.plan() {
        Err(ConfigError::Input(TestError::DuplicateArg(text))) => assert_eq!(
            text,
            "Parameter 'size' is duplicated in shared_inputs 'one' and 'two'"
        ),
        other => panic!("{:?}", other),
    }
    assert_eq!(
        config.plan().unwrap_err().message(),
        "Duplicate argument 'Parameter 'size' is duplicated in shared_inputs 'one' and 'two'' \
         from shared input refs"
    );
    assert!(config.prepared_tests().is_err());
}
