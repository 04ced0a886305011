use hitest::error::TestError;
use hitest::input::{ArgMap, ArgValue, InputGroup, RangeExpr};
use hitest::shared::SharedInputs;
use hitest::test::Test;

fn args_of(pairs: Vec<(&str, ArgValue)>) -> ArgMap {
    let mut args = ArgMap::new();
    for (key, value) in pairs {
        args.insert(key.to_string(), value);
    }
    args
}

fn single(text: &str) -> ArgValue {
    ArgValue::Single(text.to_string())
}

#[test]
fn test_resolve_refs() {
    let mut shared_inputs = SharedInputs::new();
    shared_inputs.insert(
        "group1".to_string(),
        args_of(vec![("size", ArgValue::Single("100".to_string()))]),
    );

    let mut test = Test {
        inputs: vec![InputGroup {
            refs: vec!["group1".to_string()],
            args: args_of(vec![("val", ArgValue::Single("$size".to_string()))]),
            ..Default::default()
        }],
        ..Default::default()
    };

    test.resolve_refs(&shared_inputs).unwrap();
    assert_eq!(test.inputs[0].args.len(), 2);
    assert_eq!(
        test.inputs[0].args.get("size").unwrap(),
        &ArgValue::Single("100".to_string())
    );
    assert_eq!(
        test.inputs[0].args.get("val").unwrap(),
        &ArgValue::Single("100".to_string())
    );
}

#[test]
fn test_resolve_refs_conflict() {
    let mut shared_inputs = SharedInputs::new();
    shared_inputs.insert(
        "group1".to_string(),
        args_of(vec![("size", ArgValue::Single("100".to_string()))]),
    );
    shared_inputs.insert(
        "group2".to_string(),
        args_of(vec![("size", ArgValue::Single("200".to_string()))]),
    );

    let mut test = Test {
        inputs: vec![InputGroup {
            refs: vec!["group1".to_string(), "group2".to_string()],
            ..Default::default()
        }],
        ..Default::default()
    };

    let result = test.resolve_refs(&shared_inputs);
    assert!(result.is_err());
    assert!(matches!(result.unwrap_err(), TestError::DuplicateArg(_)));
}

fn two_groups() -> SharedInputs {
    let mut shared = SharedInputs::new();
    shared.insert("group1".into(), args_of(vec![("a", single("1")), ("size", single("100"))]));
    shared.insert("group2".into(), args_of(vec![("size", single("200")), ("b", single("2"))]));
    shared.insert("group3".into(), args_of(vec![("c", single("3"))]));
    shared
}

fn message_of(result: Result<InputGroup, TestError>) -> String {
    match result {
        Err(TestError::DuplicateArg(text)) => text,
        other => panic!("{:?}", other),
    }
}

#[test]
fn conflict_names_the_key_and_both_groups_in_either_order() {
    let shared = two_groups();
    let forward = InputGroup {
        refs: vec!["group1".into(), "group2".into()],
        ..Default::default()
    };
    let backward = InputGroup {
        refs: vec!["group2".into(), "group1".into()],
        ..Default::default()
    };
    assert_eq!(
        message_of(forward.resolved(&shared)),
        "Parameter 'size' is duplicated in shared_inputs 'group1' and 'group2'"
    );
    assert_eq!(
        message_of(backward.resolved(&shared)),
        "Parameter 'size' is duplicated in shared_inputs 'group2' and 'group1'"
    );
    let error = forward.resolved(&shared).unwrap_err();
    assert_eq!(
        error.message(),
        "Duplicate argument 'Parameter 'size' is duplicated in shared_inputs 'group1' and \
         'group2'' from shared input refs"
    );
}

#[test]
fn same_group_referenced_twice_is_a_conflict() {
    let shared = two_groups();
    let group = InputGroup { refs: vec!["group3".into(), "group3".into()], ..Default::default() };
    assert_eq!(
        message_of(group.resolved(&shared)),
        "Parameter 'c' is duplicated in shared_inputs 'group3' and 'group3'"
    );
}

#[test]
fn missing_group_is_reported_by_name() {
    let shared = two_groups();
    let group = InputGroup { refs: vec!["group1".into(), "nowhere".into()], ..Default::default() };
    match group.resolved(&shared) {
        Err(TestError::SharedInputNotFound(name)) => assert_eq!(name, "nowhere"),
        other => panic!("{:?}", other),
    }
    let error = group.resolved(&shared).unwrap_err();
    assert_eq!(error.message(), "Shared input group 'nowhere' not found");
}

#[test]
fn first_error_in_reference_order_wins() {
    let shared = two_groups();
    let group = InputGroup {
        refs: vec!["group1".into(), "group2".into(), "nowhere".into()],
        ..Default::default()
    };
    assert!(matches!(group.resolved(&shared), Err(TestError::DuplicateArg(_))));
    let group = InputGroup {
        refs: vec!["nowhere".into(), "group1".into(), "group2".into()],
        ..Default::default()
    };
    assert!(matches!(group.resolved(&shared), Err(TestError::SharedInputNotFound(_))));
}

#[test]
fn merge_gives_the_same_bindings_in_either_order() {
    let shared = two_groups();
    let forward = InputGroup {
        refs: vec!["group1".into(), "group3".into()],
        args: args_of(vec![("mine", single("$c")), ("a", single("own"))]),
        ..Default::default()
    };
    let backward = InputGroup {
        refs: vec!["group3".into(), "group1".into()],
        args: args_of(vec![("mine", single("$c")), ("a", single("own"))]),
        ..Default::default()
    };
    let forward = forward.resolved(&shared).unwrap();
    let backward = backward.resolved(&shared).unwrap();
    assert_eq!(forward.args.len(), 4);
    assert_eq!(backward.args.len(), 4);
    for key in ["mine", "a", "size", "c"] {
        assert_eq!(forward.args.get(key), backward.args.get(key), "{}", key);
    }
    assert_eq!(forward.args.get("mine"), Some(&single("3")));
    assert_eq!(forward.args.get("a"), Some(&single("own")));
    assert_eq!(forward.args.get("size"), Some(&single("100")));
    assert_eq!(forward.args.key_at(2), "size");
    assert_eq!(backward.args.key_at(2), "c");
    assert_eq!(forward.refs, vec!["group1".to_string(), "group3".to_string()]);
}

#[test]
fn only_values_that_name_a_referenced_key_are_replaced() {
    let mut shared = SharedInputs::new();
    shared.insert(
        "g".into(),
        args_of(vec![
            ("list", ArgValue::List(vec!["1".into(), "2".into()])),
            ("range", ArgValue::Range(RangeExpr { start: 0, end: 1, step: None })),
            ("alias", single("$list")),
        ]),
    );
    let group = InputGroup {
        refs: vec!["g".into()],
        args: args_of(vec![
            ("a", single("$list")),
            ("b", single("$range")),
            ("c", single("$unknown")),
            ("d", single("x$list")),
            ("e", single("$")),
            ("f", single("")),
            ("own", single("7")),
            ("g", single("$own")),
        ]),
        ..Default::default()
    };
    let resolved = group.resolved(&shared).unwrap();
    assert_eq!(resolved.args.get("a"), Some(&ArgValue::List(vec!["1".into(), "2".into()])));
    assert_eq!(
        resolved.args.get("b"),
        Some(&ArgValue::Range(RangeExpr { start: 0, end: 1, step: None }))
    );
    assert_eq!(resolved.args.get("c"), Some(&single("$unknown")));
    assert_eq!(resolved.args.get("d"), Some(&single("x$list")));
    assert_eq!(resolved.args.get("e"), Some(&single("$")));
    assert_eq!(resolved.args.get("f"), Some(&single("")));
    assert_eq!(resolved.args.get("g"), Some(&single("$own")));
    assert_eq!(
        resolved.args.get("alias"),
        Some(&ArgValue::List(vec!["1".into(), "2".into()]))
    );
}

#[test]
fn failed_resolution_leaves_the_test_as_it_was() {
    let shared = two_groups();
    let mut test = Test {
        inputs: vec![
            InputGroup { name: "ok".into(), refs: vec!["group3".into()], ..Default::default() },
            InputGroup { name: "bad".into(), refs: vec!["nowhere".into()], ..Default::default() },
        ],
        ..Default::default()
    };
    assert!(test.resolve_refs(&shared).is_err());
    assert_eq!(test.inputs.len(), 2);
    assert!(test.inputs[0].args.is_empty());
    assert!(test.inputs[1].args.is_empty());
}

#[test]
fn group_without_references_is_unchanged() {
    let shared = two_groups();
    let mut test = Test {
        inputs: vec![InputGroup {
            name: "own".into(),
            args: args_of(vec![("x", single("$size"))]),
            ..Default::default()
        }],
        ..Default::default()
    };
    test.resolve_refs(&shared).unwrap();
    assert_eq!(test.inputs[0].args.len(), 1);
    assert_eq!(test.inputs[0].args.get("x"), Some(&single("$size")));
}

#[test]
fn shared_inputs_replace_a_group_of_the_same_name() {
    let mut shared = SharedInputs::new();
    assert_eq!(shared.len(), 0);
    assert!(shared.get("a").is_none());
    shared.insert("a".into(), args_of(vec![("x", single("1"))]));
    shared.insert("b".into(), args_of(vec![("y", single("2"))]));
    shared.insert("a".into(), args_of(vec![("z", single("3"))]));
    assert_eq!(shared.len(), 2);
    assert_eq!(shared.get("a").unwrap().get("z"), Some(&single("3")));
    assert_eq!(shared.get("a").unwrap().get("x"), None);
    assert_eq!(shared.get("b").unwrap().len(), 1);
}
