use pstree::args::{parse_args, usage, Args, ParseError};

fn parse(s: &str) -> Result<Args, ParseError> {
    parse_args(s.split_whitespace().map(|s| s.to_string()).collect())
}

fn error_text(s: &str) -> String {
    match parse(s) {
        Ok(_) => panic!("expected an error for {:?}", s),
        Err(e) => e.0,
    }
}

#[test]
fn defaults() {
    let a = parse("pstree-rs").unwrap();
    assert_eq!(a.root_pid, 1);
    assert!(!a.wide);
    assert!(!a.ascii);
    assert!(a.pid_filter.is_none());
    assert!(a.user_filter.is_none());
    assert!(a.max_depth.is_none());
}

#[test]
fn positional_pid() {
    let a = parse("pstree-rs 42").unwrap();
    assert_eq!(a.root_pid, 42);
}

#[test]
fn flags() {
    let a = parse("pstree-rs -w --ascii -p 99 -u didi -l 3").unwrap();
    assert!(a.wide);
    assert!(a.ascii);
    assert_eq!(a.pid_filter, Some(99));
    assert_eq!(a.user_filter.as_deref(), Some("didi"));
    assert_eq!(a.max_depth, Some(3));
}

#[test]
fn missing_arg_for_flag() {
    assert!(parse("pstree-rs -p").is_err());
    assert!(parse("pstree-rs -u").is_err());
    assert!(parse("pstree-rs -l").is_err());
}

#[test]
fn invalid_pid() {
    assert!(parse("pstree-rs -p abc").is_err());
    assert!(parse("pstree-rs notapid").is_err());
}

#[test]
fn unknown_flag() {
    assert!(parse("pstree-rs --foo").is_err());
}

#[test]
fn empty_command_line_gives_defaults() {
    let a = parse_args(Vec::new()).unwrap();
    assert_eq!(a.root_pid, 1);
    assert!(a.pid_filter.is_none());
}

#[test]
fn long_wide_flag() {
    let a = parse("pstree-rs --wide").unwrap();
    assert!(a.wide);
    assert!(!a.ascii);
}

#[test]
fn error_messages() {
    assert_eq!(error_text("pstree-rs -p"), "-p requires a pid");
    assert_eq!(error_text("pstree-rs -u"), "-u requires a username");
    assert_eq!(error_text("pstree-rs -l"), "-l requires a number");
    assert_eq!(error_text("pstree-rs -p abc"), "invalid pid: abc");
    assert_eq!(error_text("pstree-rs notapid"), "invalid pid: notapid");
    assert_eq!(error_text("pstree-rs -l -1"), "invalid depth: -1");
    assert_eq!(error_text("pstree-rs -h"), usage());
    assert_eq!(error_text("pstree-rs --help"), usage());
    assert_eq!(error_text("pstree-rs --foo"), format!("unknown flag: --foo\n{}", usage()));
}

#[test]
fn negative_positional_is_a_flag() {
    assert_eq!(error_text("pstree-rs -5"), format!("unknown flag: -5\n{}", usage()));
}

#[test]
fn signed_and_bounded_numbers() {
    assert_eq!(parse("pstree-rs -p -7").unwrap().pid_filter, Some(-7));
    assert_eq!(parse("pstree-rs -p +8").unwrap().pid_filter, Some(8));
    assert_eq!(parse("pstree-rs -p 2147483647").unwrap().pid_filter, Some(2147483647));
    assert_eq!(parse("pstree-rs -p -2147483648").unwrap().pid_filter, Some(-2147483648));
    assert!(parse("pstree-rs -p 2147483648").is_err());
    assert!(parse("pstree-rs -p -2147483649").is_err());
    assert!(parse("pstree-rs -p +").is_err());
    assert!(parse("pstree-rs -p -").is_err());
    assert!(parse("pstree-rs -p 12x").is_err());
    assert_eq!(parse("pstree-rs -l +4").unwrap().max_depth, Some(4));
    assert_eq!(parse("pstree-rs -l 0").unwrap().max_depth, Some(0));
    assert!(parse("pstree-rs -l 99999999999999999999999").is_err());
    assert_eq!(parse("pstree-rs +17").unwrap().root_pid, 17);
}

#[test]
fn later_arguments_override_earlier() {
    let a = parse("pstree-rs 5 7 -p 1 -p 2").unwrap();
    assert_eq!(a.root_pid, 7);
    assert_eq!(a.pid_filter, Some(2));
}

#[test]
fn first_error_wins() {
    assert_eq!(error_text("pstree-rs -p x -h"), "invalid pid: x");
    assert_eq!(error_text("pstree-rs -h -p x"), usage());
}

#[test]
fn usage_text_starts_with_synopsis() {
    assert!(usage().starts_with("Usage: pstree-rs [-w] [--ascii] [-p pid] [-u user] [-l depth] [pid]"));
    assert!(usage().ends_with("-h         show this help"));
}
