use vyges_resize::cli::parse_cli;

fn args(v: &[&str]) -> Vec<String> {
    v.iter().map(|s| s.to_string()).collect()
}

#[test]
fn run_with_output_and_flags() {
    let c = parse_cli(&args(&["run", "top.resize", "-o", "sized.v", "--json", "--fail-on-violation"]));
    assert_eq!(c.positionals, args(&["run", "top.resize"]));
    assert_eq!(c.out, Some("sized.v".to_string()));
    assert!(c.json && c.fail_on_violation);
    assert!(!c.quiet && !c.verbose && !c.help && !c.version);
}

#[test]
fn short_and_long_switches() {
    let c = parse_cli(&args(&["-q", "--verbose", "-h", "-V", "--bug-report", "--feature-request", "--sponsor", "--star"]));
    assert!(c.positionals.is_empty());
    assert!(c.quiet && c.verbose && c.help && c.version);
    assert!(c.bug_report && c.feature_request && c.sponsor && c.star);
    assert!(!c.json);
}

#[test]
fn dash_o_at_the_end_has_no_file() {
    let c = parse_cli(&args(&["demo", "-o", "x.v", "-o"]));
    assert_eq!(c.positionals, args(&["demo"]));
    assert_eq!(c.out, None);
}

#[test]
fn dash_o_takes_a_flag_looking_word() {
    let c = parse_cli(&args(&["-o", "--json"]));
    assert_eq!(c.out, Some("--json".to_string()));
    assert!(!c.json);
}

#[test]
fn unknown_words_are_positionals() {
    let c = parse_cli(&args(&["check", "--nope", "job"]));
    assert_eq!(c.positionals, args(&["check", "--nope", "job"]));
}

#[test]
fn no_arguments() {
    let c = parse_cli(&[]);
    assert!(c.positionals.is_empty());
    assert_eq!(c.out, None);
}
