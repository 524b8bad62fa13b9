use platform_expr::config::PlatformConfig;
use platform_expr::config::PlatformExpr;
use platform_expr::config::PlatformName;
use platform_expr::lookup::platform_names_for_expr;
use platform_expr::parse::PredicateParseError;
use platform_expr::pred::PlatformPredicate;

fn expr(text: &str) -> PlatformExpr {
    PlatformExpr::from(String::from(text))
}

fn parse(text: &str) -> PlatformPredicate {
    PlatformPredicate::parse(&expr(text)).unwrap()
}

fn config(entries: &[(&str, &[&str])]) -> PlatformConfig {
    let mut c = PlatformConfig::new();
    for (key, values) in entries {
        let vs: Vec<String> = values.iter().map(|v| String::from(*v)).collect();
        c.insert(String::from(*key), vs);
    }
    c
}

#[test]
fn value_predicate_scenarios() {
    let p = parse("cfg(target_os = \"linux\")");
    assert!(p.eval(&config(&[("target_os", &["linux", "android"])])));
    assert!(!p.eval(&config(&[("target_os", &["windows"])])));
    // absent key is a wildcard
    assert!(p.eval(&config(&[])));
}

#[test]
fn all_with_unix_sugar() {
    let p = parse("cfg(all(unix, target_arch = \"x86_64\"))");
    assert!(p.eval(&config(&[("target_family", &["unix"]), ("target_arch", &["x86_64"])])));
    assert!(!p.eval(&config(&[("target_arch", &["arm"])])));
}

#[test]
fn empty_any_is_false() {
    let p = parse("cfg(any())");
    assert!(!p.eval(&config(&[])));
    assert!(!p.eval(&config(&[("unix", &[])])));
    assert!(!p.eval(&config(&[("target_os", &["linux"])])));
}

#[test]
fn empty_all_is_true() {
    let p = parse("cfg(all())");
    assert!(p.eval(&config(&[])));
    assert!(p.eval(&config(&[("target_os", &["linux"])])));
}

#[test]
fn not_windows_tracks_the_sugar() {
    // an empty config leaves target_family unconstrained, so the windows
    // sugar holds there and its negation does not
    let p = parse("cfg(not(windows))");
    assert!(!p.eval(&config(&[])));
    // a config that records target_family decides the sugar exactly
    assert!(p.eval(&config(&[("target_family", &["unix"])])));
    assert!(!p.eval(&config(&[("target_family", &["windows"])])));
}

#[test]
fn trailing_junk_keeps_exact_suffix() {
    let e = expr("cfg(unix) trailing");
    match PlatformPredicate::parse(&e) {
        Err(PredicateParseError::TrailingJunk(junk)) => assert_eq!(junk, " trailing"),
        other => panic!("expected trailing junk, got {:?}", other),
    }
}

#[test]
fn lookup_filters_by_predicate() {
    let table = vec![
        (
            PlatformName::new(String::from("DEFAULT")),
            config(&[("target_family", &[])]),
        ),
        (
            PlatformName::new(String::from("win64")),
            config(&[("target_family", &["windows"])]),
        ),
    ];
    let names = platform_names_for_expr(&table, &expr("cfg(windows)")).unwrap();
    assert_eq!(names.len(), 1);
    assert_eq!(names[0].as_str(), "win64");
}

#[test]
fn lookup_keeps_unconstrained_platforms() {
    // a platform that records nothing about target_family is unconstrained,
    // so the windows sugar keeps it
    let table = vec![
        (PlatformName::new(String::from("DEFAULT")), config(&[])),
        (
            PlatformName::new(String::from("win64")),
            config(&[("target_family", &["windows"])]),
        ),
        (
            PlatformName::new(String::from("linux")),
            config(&[("target_family", &["unix"])]),
        ),
    ];
    let names = platform_names_for_expr(&table, &expr("cfg(windows)")).unwrap();
    let texts: Vec<&str> = names.iter().map(|n| n.as_str()).collect();
    assert_eq!(texts, vec!["DEFAULT", "win64"]);
}

#[test]
fn lookup_keeps_table_order() {
    let table = vec![
        (PlatformName::new(String::from("a")), config(&[])),
        (PlatformName::new(String::from("b")), config(&[("flag", &[])])),
        (PlatformName::new(String::from("c")), config(&[])),
    ];
    let names = platform_names_for_expr(&table, &expr("cfg(all())")).unwrap();
    let texts: Vec<&str> = names.iter().map(|n| n.as_str()).collect();
    assert_eq!(texts, vec!["a", "b", "c"]);
}

#[test]
fn lookup_propagates_parse_errors() {
    let table: Vec<(PlatformName, PlatformConfig)> = Vec::new();
    match platform_names_for_expr(&table, &expr("cfg(")) {
        Err(PredicateParseError::Incomplete) => {},
        other => panic!("expected incomplete, got {:?}", other),
    }
}

#[test]
fn presence_is_not_wildcard() {
    // a key that is present with an empty value set: presence tests succeed,
    // membership tests fail
    let c = config(&[("feature_x", &[])]);
    assert!(parse("cfg(feature_x)").eval(&c));
    assert!(!parse("cfg(feature_x = \"on\")").eval(&c));
    // and the other way around for an absent key
    assert!(!parse("cfg(feature_y)").eval(&c));
    assert!(parse("cfg(feature_y = \"on\")").eval(&c));
}

#[test]
fn membership_checks_the_value_set() {
    let c = config(&[("target_os", &["linux", "android"])]);
    assert!(parse("cfg(target_os = \"android\")").eval(&c));
    assert!(!parse("cfg(target_os = \"ios\")").eval(&c));
}

#[test]
fn unix_sugar_truth_table() {
    let p = parse("cfg(unix)");
    assert!(p.eval(&config(&[("unix", &[])])));
    assert!(p.eval(&config(&[("target_family", &["unix"])])));
    assert!(!p.eval(&config(&[("target_family", &["windows"])])));
    // an absent target_family is unconstrained, so the sugar holds
    assert!(p.eval(&config(&[])));
    // a present but empty target_family admits no family at all
    assert!(!p.eval(&config(&[("target_family", &[])])));
}

#[test]
fn windows_sugar_truth_table() {
    let p = parse("cfg(windows)");
    assert!(p.eval(&config(&[("windows", &[])])));
    assert!(p.eval(&config(&[("target_family", &["windows"])])));
    assert!(!p.eval(&config(&[("target_family", &["unix"])])));
    assert!(p.eval(&config(&[])));
}

#[test]
fn de_morgan_agreement() {
    let lhs = parse("cfg(not(all(unix, target_os = \"linux\")))");
    let rhs = parse("cfg(any(not(unix), not(target_os = \"linux\")))");
    let configs = [
        config(&[]),
        config(&[("target_family", &["unix"])]),
        config(&[("target_family", &["unix"]), ("target_os", &["linux"])]),
        config(&[("target_os", &["windows"])]),
    ];
    for c in &configs {
        assert_eq!(lhs.eval(c), rhs.eval(c));
    }
}

#[test]
fn printed_form_is_canonical() {
    let p = parse("cfg(all(unix, target_arch = \"x86_64\"))");
    assert_eq!(p.to_expr_string(), "all(unix, target_arch = \"x86_64\")");
    let q = parse("cfg(any(not(windows), vendor))");
    assert_eq!(q.to_expr_string(), "any(not(windows), vendor)");
    assert_eq!(parse("cfg(any())").to_expr_string(), "any()");
}

#[test]
fn round_trip_preserves_the_tree() {
    let texts = [
        "cfg(unix)",
        "cfg(windows)",
        "cfg(key_only)",
        "cfg(target_os = \"linux\")",
        "cfg(any())",
        "cfg(all())",
        "cfg(not(any(unix, all(a, b = \"c\"))))",
        "cfg( all( unix ,  target_arch = \"x86_64\" ) )",
    ];
    for text in &texts {
        let p = parse(text);
        let reprinted = format!("cfg({})", p.to_expr_string());
        let q = parse(&reprinted);
        assert_eq!(p, q);
        let configs = [
            config(&[]),
            config(&[("target_family", &["unix"]), ("a", &[])]),
            config(&[("target_arch", &["x86_64"]), ("b", &["c"])]),
        ];
        for c in &configs {
            assert_eq!(p.eval(c), q.eval(c));
        }
    }
}

#[test]
fn whitespace_between_tokens_is_ignored() {
    let p = parse("cfg( any ( unix , windows ) )");
    assert!(p.eval(&config(&[("target_family", &["windows"])])));
    let q = parse("  cfg(unix)");
    assert!(q.eval(&config(&[("unix", &[])])));
}

#[test]
fn incomplete_inputs() {
    for text in ["cfg", "cf", "cfg(", "cfg(unix", "cfg(any(unix, ", "cfg(foo = ", "cfg(foo = \"bar", ""] {
        match PlatformPredicate::parse(&expr(text)) {
            Err(PredicateParseError::Incomplete) => {},
            other => panic!("{:?} on {:?}", other, text),
        }
    }
}

#[test]
fn grammar_violations() {
    for text in ["cfg()", "xfg(unix)", "cfg[unix]", "cfg(1abc)", "cfg(a b)", "cfg(foo = bar)", "cfg(not(unix) junk)"] {
        match PlatformPredicate::parse(&expr(text)) {
            Err(PredicateParseError::ParseError(_)) => {},
            other => panic!("{:?} on {:?}", other, text),
        }
    }
}

#[test]
fn trailing_whitespace_is_junk() {
    match PlatformPredicate::parse(&expr("cfg(unix) ")) {
        Err(PredicateParseError::TrailingJunk(junk)) => assert_eq!(junk, " "),
        other => panic!("expected trailing junk, got {:?}", other),
    }
}

#[test]
fn error_messages_name_the_kind() {
    let junk = PredicateParseError::TrailingJunk(String::from("xyz"));
    assert_eq!(junk.message(), "trailing junk: xyz");
    assert_eq!(PredicateParseError::Incomplete.message(), "incomplete input");
    let syntax = PlatformPredicate::parse(&expr("cfg()")).unwrap_err();
    assert!(syntax.message().starts_with("parse error: "));
}

#[test]
fn default_platform_name() {
    assert!(PlatformName::new(String::from("DEFAULT")).is_default());
    assert!(!PlatformName::new(String::from("default")).is_default());
    assert!(!PlatformName::new(String::from("win64")).is_default());
}

#[test]
fn platform_name_equality_is_by_text() {
    let a = PlatformName::new(String::from("linux-x86_64"));
    let b = PlatformName::new(String::from("linux-x86_64"));
    let c = PlatformName::new(String::from("macos"));
    assert!(a == b);
    assert!(a != c);
    assert_eq!(a.clone().as_str(), "linux-x86_64");
}

#[test]
fn expr_keeps_its_text() {
    let e = expr("cfg(unix)");
    assert_eq!(e.as_str(), "cfg(unix)");
    assert_eq!(e.clone().as_str(), "cfg(unix)");
}

#[test]
fn reserved_words_only_matter_as_operators() {
    // `any`, `all`, `not` without parentheses are ordinary keys
    let c = config(&[("any", &[]), ("not", &["x"])]);
    assert!(parse("cfg(any)").eval(&c));
    assert!(parse("cfg(not = \"x\")").eval(&c));
    assert!(!parse("cfg(all)").eval(&c));
}

#[test]
fn predicates_clone_deeply() {
    let p = parse("cfg(not(any(unix, all(a, b = \"c\"))))");
    let q = p.clone();
    assert_eq!(p, q);
    assert_eq!(p.to_expr_string(), q.to_expr_string());
    let c = config(&[("a", &[]), ("b", &["c"])]);
    assert_eq!(p.eval(&c), q.eval(&c));
}

#[test]
fn quoted_values_may_hold_arbitrary_text() {
    let p = parse("cfg(flags = \"a b,c(d)=e\")");
    assert!(p.eval(&config(&[("flags", &["a b,c(d)=e"])])));
    assert!(!p.eval(&config(&[("flags", &["other"])])));
}
