use hitest::error::LibError;
use hitest::libparse::{fit_params, FnAttr, LibParse, Param};

fn strings(items: &[&str]) -> Vec<String> {
    items.iter().map(|s| s.to_string()).collect()
}

#[test]
fn test_parse_params() {
    let fn_attr = FnAttr {
        paras: vec!["param1".to_string(), "param2".to_string()],
    };

    let params = vec!["param1=123".to_string(), "param2=456".to_string()];
    let result = fn_attr.parse_params(&params);
    assert!(result.is_ok());
    assert_eq!(result.unwrap(), vec![Param::Int(123), Param::Int(456)]);

    let params = vec!["param1=123".to_string()];
    assert!(fn_attr.parse_params(&params).is_err());
}

#[test]
fn parameters_come_in_the_order_of_the_formal_names() {
    let f = FnAttr::new(strings(&["len", "mem_idx", "tag"]));
    let got = f.parse_params(&strings(&["tag='abc'", "mem_idx=0x10", "len=-7"])).unwrap();
    assert_eq!(got, vec![Param::Int(-7), Param::Int(16), Param::Text("abc".into())]);
}

#[test]
fn first_usable_argument_for_a_name_wins() {
    let f = FnAttr::new(strings(&["a", "b", "c"]));
    let got = f.parse_params(&strings(&["a=oops", "a=1", "a=2"]));
    match got {
        Err(LibError::ParamError(name)) => assert_eq!(name, "b"),
        other => panic!("{:?}", other),
    }
    let f = FnAttr::new(strings(&["a", "ab"]));
    let got = f.parse_params(&strings(&["ab=2", "a=1"])).unwrap();
    assert_eq!(got, vec![Param::Int(1), Param::Int(2)]);
    let f = FnAttr::new(strings(&["a", "a"]));
    let got = f.parse_params(&strings(&["a=x", "a=''"])).unwrap();
    assert_eq!(got, vec![Param::Text("".into()), Param::Text("".into())]);
}

#[test]
fn wrong_number_of_arguments_is_a_size_error() {
    let f = FnAttr::new(strings(&["a", "b"]));
    match f.parse_params(&strings(&["a=1"])) {
        Err(LibError::SizeError(expected, given)) => assert_eq!((expected, given), (2, 1)),
        other => panic!("{:?}", other),
    }
    match f.parse_params(&strings(&["a=1", "b=2", "c=3"])) {
        Err(LibError::SizeError(expected, given)) => assert_eq!((expected, given), (2, 3)),
        other => panic!("{:?}", other),
    }
    assert_eq!(
        f.parse_params(&strings(&[])).unwrap_err().message(),
        "Size error: expect 2 but got 0"
    );
    assert_eq!(FnAttr::new(vec![]).parse_params(&vec![]).unwrap(), vec![]);
}

#[test]
fn missing_or_unusable_argument_is_a_parameter_error() {
    let f = FnAttr::new(strings(&["a", "b"]));
    for args in [
        ["a=1", "c=2"],
        ["a=1", "b"],
        ["a=1", "b="],
        ["a=1", "b=$x"],
        ["a=1", "b=0x"],
        ["a=1", "b=0xzz"],
        ["a=1", "b='"],
        ["a=1", "b='x"],
        ["a=1", "b=x'"],
        ["a=1", " b=2"],
        ["a=1", "b =2"],
        ["a=1", "b='x\0y'"],
        ["a=1", "b=9223372036854775808"],
    ] {
        match f.parse_params(&strings(&args)) {
            Err(LibError::ParamError(name)) => assert_eq!(name, "b", "{:?}", args),
            other => panic!("{:?}: {:?}", args, other),
        }
    }
    assert_eq!(
        f.parse_params(&strings(&["a=1", "c=2"])).unwrap_err().message(),
        "Parameter not found: b"
    );
}

#[test]
fn quoted_text_with_nul_ends_the_search() {
    let f = FnAttr::new(strings(&["b"]));
    assert!(f.parse_params(&strings(&["b='\0'"])).is_err());
    let f = FnAttr::new(strings(&["b", "c"]));
    assert!(f.parse_params(&strings(&["b='\0'", "b=1"])).is_err());
    assert_eq!(
        f.parse_params(&strings(&["b=junk", "b='it''s'"])).unwrap_err().message(),
        "Parameter not found: c"
    );
}

#[test]
fn quoted_text_keeps_what_is_between_the_quotes() {
    let f = FnAttr::new(strings(&["s"]));
    for (written, text) in [("s=''", ""), ("s='a b'", "a b"), ("s='''", "'"), ("s='0x1'", "0x1"), ("s='é'", "é")] {
        assert_eq!(
            f.parse_params(&strings(&[written])).unwrap(),
            vec![Param::Text(text.into())],
            "{}",
            written
        );
    }
}

#[test]
fn registry_finds_functions_by_name() {
    let mut registry = LibParse::new(None);
    assert_eq!(registry.len(), 0);
    assert_eq!(registry.register("test_func".into(), strings(&["param1", "param2"])), 0);
    assert_eq!(registry.register("other".into(), strings(&[])), 1);
    assert!(registry.get_func("test_func").is_ok());
    assert!(registry.get_func("non_exist_func").is_err());
    assert_eq!(registry.get_func("test_func").unwrap().paras, strings(&["param1", "param2"]));
    assert_eq!(registry.slot_of("other"), Some(1));
    assert_eq!(registry.slot_of("Other"), None);
    match registry.get_func("non_exist_func") {
        Err(LibError::FuncNotFound(name)) => assert_eq!(name, "non_exist_func"),
        other => panic!("{:?}", other),
    }
    assert_eq!(
        registry.get_func("x").unwrap_err().message(),
        "Function not found: x"
    );
}

#[test]
fn registering_a_name_again_keeps_its_slot() {
    let mut registry = LibParse::new(None);
    registry.register("f".into(), strings(&["a"]));
    registry.register("g".into(), strings(&["b"]));
    assert_eq!(registry.register("f".into(), strings(&["c", "d"])), 0);
    assert_eq!(registry.len(), 2);
    assert_eq!(registry.get_func("f").unwrap().paras, strings(&["c", "d"]));
    assert_eq!(registry.slot_of("g"), Some(1));
}

#[test]
fn resolve_prepares_the_call() {
    let mut registry = LibParse::new(None);
    registry.register("skip".into(), strings(&[]));
    registry.register("test_func".into(), strings(&["param1", "param2"]));
    let call = registry
        .resolve("test_func", &strings(&["param1=123", "param2=456"]))
        .unwrap();
    assert_eq!(call.slot, 1);
    assert_eq!(call.params, vec![Param::Int(123), Param::Int(456)]);
    assert!(matches!(
        registry.resolve("nothing", &strings(&[])),
        Err(LibError::FuncNotFound(_))
    ));
    assert!(matches!(
        registry.resolve("test_func", &strings(&["param1=1"])),
        Err(LibError::SizeError(2, 1))
    ));
    assert!(matches!(
        registry.resolve("test_func", &strings(&["param1=1", "param3=1"])),
        Err(LibError::ParamError(_))
    ));
}

#[test]
fn calls_are_filled_up_to_the_width() {
    let mut registry = LibParse::new(Some(4));
    assert_eq!(registry.width(), Some(4));
    registry.register("f".into(), strings(&["a", "s"]));
    let call = registry.resolve("f", &strings(&["a=1", "s='x'"])).unwrap();
    assert_eq!(
        call.params,
        vec![Param::Int(1), Param::Text("x".into()), Param::Int(0), Param::Int(0)]
    );
    assert_eq!(fit_params(vec![Param::Int(1)], None).unwrap(), vec![Param::Int(1)]);
    assert_eq!(fit_params(vec![], Some(2)).unwrap(), vec![Param::Int(0), Param::Int(0)]);
    assert_eq!(fit_params(vec![Param::Int(7)], Some(1)).unwrap(), vec![Param::Int(7)]);
    assert_eq!(fit_params(vec![], Some(0)).unwrap(), vec![]);
    match fit_params(vec![Param::Int(1), Param::Int(2)], Some(1)) {
        Err(LibError::SizeError(cap, given)) => assert_eq!((cap, given), (1, 2)),
        other => panic!("{:?}", other),
    }
    registry.register("wide".into(), strings(&["a", "b", "c", "d", "e"]));
    assert!(matches!(
        registry.resolve("wide", &strings(&["a=1", "b=2", "c=3", "d=4", "e=5"])),
        Err(LibError::SizeError(4, 5))
    ));
}

#[test]
fn load_error_names_file_and_reason() {
    let error = LibError::LoadError("libs.toml".into(), "no such file".into());
    assert_eq!(error.message(), "File loading failed: libs.toml, error: no such file");
}
