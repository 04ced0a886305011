use hitest::cmd::{replace_vars, Cmd};
use hitest::condition::Condition;
use hitest::input::{ArgMap, ArgValue, RangeExpr};

fn single(text: &str) -> ArgValue {
    ArgValue::Single(text.to_string())
}

#[test]
fn test_test_replace_vars() {
    let mut vars = ArgMap::new();
    vars.insert("size".into(), ArgValue::Single("100".into()));
    let result = replace_vars("len=$size".into(), &vars);
    assert_eq!(result, "len=100");
}

#[test]
fn test_replace_negated_vars() {
    let mut vars = ArgMap::new();
    vars.insert("val".into(), ArgValue::Single("123".into()));
    let result = replace_vars("expect=$!val".into(), &vars);
    assert_eq!(result, "expect=!123");
}

#[test]
fn lib_test_replace_vars() {
    let mut vars = ArgMap::new();
    vars.insert("var1".to_string(), single("value1"));
    vars.insert("var2".to_string(), single("value2"));

    let result = replace_vars("test_$var1_$var2".to_string(), &vars);
    assert_eq!(result, "test_value1_value2");
}

#[test]
fn unbound_names_stay_verbatim() {
    let mut vars = ArgMap::new();
    vars.insert("size".into(), single("100"));
    assert_eq!(replace_vars("len=$other".into(), &vars), "len=$other");
    assert_eq!(replace_vars("$".into(), &vars), "$");
    assert_eq!(replace_vars("".into(), &vars), "");
    assert_eq!(replace_vars("len=$size".into(), &ArgMap::new()), "len=$size");
}

#[test]
fn substitution_is_idempotent_once_resolved() {
    let mut vars = ArgMap::new();
    vars.insert("a".into(), single("1"));
    vars.insert("b".into(), single("2"));
    let once = replace_vars("x=$a,y=$!b,z=$a$b".into(), &vars);
    assert_eq!(once, "x=1,y=!2,z=12");
    assert!(!once.contains('$'));
    let twice = replace_vars(once.clone(), &vars);
    assert_eq!(twice, once);
}

#[test]
fn substitution_can_build_a_new_variable_from_text_around_it() {
    let mut vars = ArgMap::new();
    vars.insert("a".into(), single(""));
    let once = replace_vars("$$aa".into(), &vars);
    assert_eq!(once, "$a");
    assert_eq!(replace_vars(once, &vars), "");
}

#[test]
fn the_longest_bound_name_wins_whatever_the_order() {
    let mut vars = ArgMap::new();
    vars.insert("a".into(), single("1"));
    vars.insert("ab".into(), single("2"));
    assert_eq!(replace_vars("x=$ab".into(), &vars), "x=2");
    assert_eq!(replace_vars("$ab".into(), &vars), "2");
    assert_eq!(replace_vars("$a$ab$abc$b".into(), &vars), "122c$b");
    assert_eq!(replace_vars("$!ab,$!a".into(), &vars), "!2,!1");

    let mut vars = ArgMap::new();
    vars.insert("ab".into(), single("2"));
    vars.insert("a".into(), single("1"));
    assert_eq!(replace_vars("x=$ab".into(), &vars), "x=2");
    assert_eq!(replace_vars("$ab".into(), &vars), "2");
    assert_eq!(replace_vars("$a$ab$abc$b".into(), &vars), "122c$b");
    assert_eq!(replace_vars("$!ab,$!a".into(), &vars), "!2,!1");
}

#[test]
fn what_was_put_in_is_not_read_again() {
    for order in [["a", "b"], ["b", "a"]] {
        let mut vars = ArgMap::new();
        for key in order {
            vars.insert(key.into(), single(if key == "a" { "$b" } else { "x$a" }));
        }
        assert_eq!(replace_vars("$a".into(), &vars), "$b");
        assert_eq!(replace_vars("$b$a".into(), &vars), "x$a$b");
        assert_eq!(replace_vars("$!b-$".into(), &vars), "!x$a-$");
    }
}

#[test]
fn a_mark_that_no_bound_name_follows_is_copied() {
    let mut vars = ArgMap::new();
    vars.insert("val".into(), single("7"));
    assert_eq!(replace_vars("$$val".into(), &vars), "$7");
    assert_eq!(replace_vars("$!$val".into(), &vars), "$!7");
    assert_eq!(replace_vars("$!!val".into(), &vars), "$!!val");
    assert_eq!(replace_vars("$va $VAL $ val$".into(), &vars), "$va $VAL $ val$");
    assert_eq!(replace_vars("$!".into(), &vars), "$!");
    assert_eq!(replace_vars("é$valé".into(), &vars), "é7é");
}

#[test]
fn substitution_passes_over_lists_and_ranges() {
    let mut vars = ArgMap::new();
    vars.insert("l".into(), ArgValue::List(vec!["1".into(), "2".into()]));
    vars.insert("r".into(), ArgValue::Range(RangeExpr { start: 1, end: 2, step: None }));
    vars.insert("s".into(), single("7"));
    assert_eq!(replace_vars("$l $r $s".into(), &vars), "$l $r 7");
}

#[test]
fn command_substitution_resolves_argument_before_dispatch() {
    let mut vars = ArgMap::new();
    vars.insert("alloc_size".into(), single("100"));
    let cmd = Cmd {
        opfunc: "my_malloc".into(),
        condition: Condition::Eq("0".into()),
        args: vec!["len=$alloc_size".into(), "mem_idx=1".into()],
        perf: false,
    };
    let resolved = cmd.substituted(&vars);
    assert_eq!(resolved.args, vec!["len=100".to_string(), "mem_idx=1".to_string()]);
    assert_eq!(resolved.opfunc, "my_malloc");
    assert_eq!(resolved.condition, Condition::Eq("0".into()));
    assert!(!resolved.perf);
}

#[test]
fn negated_equality_becomes_inequality() {
    let mut vars = ArgMap::new();
    vars.insert("val".into(), single("5"));
    assert_eq!(
        Condition::Eq("$!val".into()).substituted(&vars),
        Condition::Ne("5".into())
    );
    assert_eq!(
        Condition::Eq("$val".into()).substituted(&vars),
        Condition::Eq("5".into())
    );
    assert_eq!(
        Condition::Ne("$val".into()).substituted(&vars),
        Condition::Ne("5".into())
    );
    assert_eq!(
        Condition::Ne("$!val".into()).substituted(&vars),
        Condition::Ne("!5".into())
    );
}

#[test]
fn a_second_substitution_changes_nothing_in_a_delimited_text() {
    let mut vars = ArgMap::new();
    vars.insert("a".into(), single("1"));
    vars.insert("ab".into(), single("2"));
    vars.insert("l".into(), ArgValue::List(vec!["x".into()]));
    for text in [
        "x=$ab, y=$c; z=$!a ($d) $!e.",
        "$a",
        "$c",
        "$ $! $!a-$!c",
        "len=$abc+$a.$l",
        "",
        "no marks at all",
        "$c $a$",
    ] {
        let once = replace_vars(text.into(), &vars);
        let twice = replace_vars(once.clone(), &vars);
        assert_eq!(twice, once, "{:?}", text);
    }
    assert_eq!(
        replace_vars("x=$ab, y=$c; z=$!a ($d) $!e.".into(), &vars),
        "x=2, y=$c; z=!1 ($d) $!e."
    );
    assert_eq!(replace_vars("len=$abc+$a.$l".into(), &vars), "len=2c+1.$l");
}
