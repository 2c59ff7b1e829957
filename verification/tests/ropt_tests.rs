use ropt::new_bool_option;
use ropt::new_parser;
use ropt::new_str_option_fancy;

#[test]
fn test_ropt() {
    let mut p = new_parser();

    // bool options
    p.add_bool("-h -help --help").unwrap();
    p.add_bool("-v -version --version").unwrap();
    // str options
    p.add_str("-I").unwrap();
    p.add_str_fancy("-f --file").unwrap();

    let argv: Vec<String> = "a1 -I/inc -I /inc2 -hv a2 -f=farg"
        .split(' ')
        .map(|s| s.to_string())
        .collect();

    let rest = p.parse(&argv).unwrap();
    assert_eq!(rest.len(), 2);
    assert_eq!(rest[0], "a1");
    assert_eq!(rest[1], "a2");

    assert!(p.is_set("-help"));
    assert!(p.is_set("-version"));
    assert!(p.is_set("-I"));
    assert!(p.is_set("-file"));
    // any flag should report the same answer
    assert_eq!(p.is_set("-f"), p.is_set("-file"));
    assert_eq!(p.is_set("-file"), p.is_set("--file"));

    assert_eq!(p.get("-file").unwrap(), "farg");
    let iargs = p.get_many("-I").unwrap();
    assert_eq!(iargs.len(), 2);
    assert_eq!(iargs[0], "/inc");
    assert_eq!(iargs[1], "/inc2");

    p.reset();
    assert!(!p.is_set("-file"));
    assert!(!p.is_set("-I"));
    assert!(!p.is_set("-help"));
    assert!(!p.is_set("-version"));
}

#[test]
fn test_option() {
    // boolean option
    let mut b_option = new_bool_option("-h -help").unwrap();
    assert!(!b_option.is_set());
    b_option.set();
    assert!(b_option.is_set());
    b_option.reset();
    assert!(!b_option.is_set());

    // string options
    let mut s_option = new_str_option_fancy("-f --file").unwrap();
    assert!(!s_option.is_set());
    s_option.add("one").unwrap();
    assert!(s_option.is_set());

    assert_eq!(s_option.values().unwrap().len(), 1);

    s_option.add("two").unwrap();
    assert!(s_option.is_set());

    let s_state = s_option.values().unwrap();
    assert_eq!(s_state.len(), 2);
    assert_eq!(s_state[0], "one");
    assert_eq!(s_state[1], "two");
}

#[test]
fn test_juxta_split() {
    let sp = ropt::juxta_split("-abc");
    assert_eq!(sp.len(), 3);
    assert_eq!(sp[0], "-a");
    assert_eq!(sp[1], "-b");
    assert_eq!(sp[2], "-c");
}

#[test]
fn test_fancy_options() {
    let fncy: String = ropt::fancy_options("-a --all");
    let mut sp: Vec<&str> = fncy.split(' ').collect();
    let mut ok: Vec<&str> = vec!["-a", "-a=", "-all", "-all=", "--all", "--all="];
    ok.sort();
    sp.sort();
    assert_eq!(sp.len(), ok.len());

    for i in 0..sp.len() {
        assert_eq!(ok[i], sp[i]);
    }
}
