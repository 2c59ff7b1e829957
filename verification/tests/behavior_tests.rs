use ropt::is_str_option;
use ropt::new_bool_option;
use ropt::new_parser;
use ropt::new_str_option;
use ropt::OptKind;
use ropt::RoptError;

fn args(spec: &str) -> Vec<String> {
    spec.split(' ').map(|s| s.to_string()).collect()
}

#[test]
fn test_accumulation_order() {
    let mut p = new_parser();
    p.add_str("-x").unwrap();
    let rest = p.parse(&args("-x one -x two")).unwrap();
    assert!(rest.is_empty());
    assert_eq!(p.get_many("-x").unwrap(), vec!["one", "two"]);
    assert_eq!(p.get("-x").unwrap(), "one");
}

#[test]
fn test_reset_idempotent() {
    let mut p = new_parser();
    p.add_bool("-h -help").unwrap();
    p.add_str("-I").unwrap();
    p.parse(&args("-h -I /inc")).unwrap();
    assert!(p.is_set("-h"));
    assert!(p.is_set("-I"));
    p.reset();
    assert!(!p.is_set("-h"));
    assert!(!p.is_set("-help"));
    assert!(!p.is_set("-I"));
    p.reset();
    assert!(!p.is_set("-h"));
    assert!(!p.is_set("-help"));
    assert!(!p.is_set("-I"));
    assert_eq!(p.get("-I"), Err(RoptError::NotSet));
}

#[test]
fn test_alias_equivalence() {
    let mut p = new_parser();
    p.add_bool("-a -alpha --alpha").unwrap();
    p.add_str("-o -out").unwrap();
    assert_eq!(p.is_set("-a"), p.is_set("-alpha"));
    assert_eq!(p.is_set("-alpha"), p.is_set("--alpha"));
    p.parse(&args("-a -out fout")).unwrap();
    assert!(p.is_set("-a") && p.is_set("-alpha") && p.is_set("--alpha"));
    assert_eq!(p.get("-o").unwrap(), p.get("-out").unwrap());
    assert_eq!(p.get_many("-o").unwrap(), p.get_many("-out").unwrap());
}

#[test]
fn test_missing_argument() {
    let mut p = new_parser();
    p.add_str("-I").unwrap();
    let r = p.parse(&args("-I"));
    match r {
        Err(RoptError::MissingArgument(t)) => assert_eq!(t, "-I"),
        other => panic!("expected MissingArgument, got {:?}", other),
    }
}

#[test]
fn test_invalid_spec() {
    let mut p = new_parser();
    assert_eq!(p.add_bool(""), Err(RoptError::InvalidSpec));
    assert_eq!(p.add_str("   "), Err(RoptError::InvalidSpec));
    assert_eq!(p.add_str_fancy(""), Err(RoptError::InvalidSpec));
    assert!(matches!(new_str_option(" "), Err(RoptError::InvalidSpec)));
}

#[test]
fn test_type_mismatch() {
    let mut p = new_parser();
    p.add_bool("-h").unwrap();
    p.parse(&args("-h")).unwrap();
    assert_eq!(p.get("-h"), Err(RoptError::TypeMismatch));
    assert_eq!(p.get_many("-h"), Err(RoptError::TypeMismatch));

    let mut b = new_bool_option("-b").unwrap();
    assert_eq!(b.add("value"), Err(RoptError::TypeMismatch));
    assert!(!b.is_set());
    assert!(matches!(b.values(), Err(RoptError::TypeMismatch)));
}

#[test]
fn test_not_set() {
    let mut p = new_parser();
    p.add_str("-I").unwrap();
    assert_eq!(p.get("-I"), Err(RoptError::NotSet));
    assert_eq!(p.get_many("-I"), Err(RoptError::NotSet));
    // an unregistered alias is simply not set
    assert_eq!(p.get("-missing"), Err(RoptError::NotSet));
    assert!(!p.is_set("-missing"));
}

#[test]
fn test_longest_prefix_wins() {
    let mut p = new_parser();
    p.add_str("-I -I=").unwrap();
    let rest = p.parse(&args("-I=/x -I/y")).unwrap();
    assert!(rest.is_empty());
    // `-I=` is the longest alias prefix of `-I=/x`, so the `=` is stripped
    assert_eq!(p.get_many("-I").unwrap(), vec!["/x", "/y"]);
}

#[test]
fn test_alias_collision_overwrites() {
    let mut p = new_parser();
    p.add_bool("-a -alpha").unwrap();
    p.add_str("-a -aval").unwrap();
    // `-a` now resolves to the later value-taking option...
    assert!(!p.is_set("-a"));
    p.parse(&args("-a v -alpha")).unwrap();
    assert_eq!(p.get("-a").unwrap(), "v");
    assert_eq!(p.get("-aval").unwrap(), "v");
    // ...while `-alpha` still reaches the earlier boolean option
    assert!(p.is_set("-alpha"));
}

#[test]
fn test_cluster_not_partially_applied() {
    let mut p = new_parser();
    p.add_bool("-h").unwrap();
    p.add_bool("-v").unwrap();
    let rest = p.parse(&args("-hx next")).unwrap();
    // `-x` is unregistered, so `-hx` falls through whole: `-h` stays unset
    assert_eq!(rest, vec!["-hx", "next"]);
    assert!(!p.is_set("-h"));
    assert!(!p.is_set("-v"));
}

#[test]
fn test_cluster_sets_all() {
    let mut p = new_parser();
    p.add_bool("-h").unwrap();
    p.add_bool("-v").unwrap();
    p.add_bool("-z").unwrap();
    let rest = p.parse(&args("-zhv")).unwrap();
    assert!(rest.is_empty());
    assert!(p.is_set("-h") && p.is_set("-v") && p.is_set("-z"));
}

#[test]
fn test_short_set_options() {
    let mut p = new_parser();
    p.add_bool("-help -h --help").unwrap();
    p.add_bool("-v -version").unwrap();
    p.add_str("-I").unwrap();
    p.parse(&args("-h -I /inc")).unwrap();
    let mut short = p.short_set_options();
    short.sort();
    assert_eq!(short, vec!["-I", "-h"]);
    p.reset();
    assert!(p.short_set_options().is_empty());
}

#[test]
fn test_fancy_options_empty_and_plain() {
    assert_eq!(ropt::fancy_options(""), "");
    assert_eq!(ropt::fancy_options("plain"), "plain");
    assert_eq!(ropt::fancy_options("-x"), "-x= -x");
    assert_eq!(ropt::fancy_options("--long"), "-long -long= --long= --long");
}

#[test]
fn test_repeated_parse_accumulates() {
    let mut p = new_parser();
    p.add_str("-x").unwrap();
    p.parse(&args("-x one")).unwrap();
    p.parse(&args("-x two")).unwrap();
    assert_eq!(p.get_many("-x").unwrap(), vec!["one", "two"]);
}

#[test]
fn test_is_str_option() {
    assert!(is_str_option(OptKind::Str));
    assert!(!is_str_option(OptKind::Boolean));
}

#[test]
fn test_split_and_join() {
    let toks = ropt::split_spaces("  -a   -b c ");
    assert_eq!(toks, vec!["-a", "-b", "c"]);
    assert_eq!(ropt::join_spaces(&toks), "-a -b c");
    assert!(ropt::split_spaces("   ").is_empty());
}
