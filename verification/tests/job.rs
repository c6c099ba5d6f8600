use vyges_resize::job::{glob_match, parse_cfg, CfgBuilder, Objective, ResizeCfg};

fn strs(v: &[&str]) -> Vec<String> {
    v.iter().map(|s| s.to_string()).collect()
}

#[test]
fn defaults_are_timing_and_medium() {
    let cfg = parse_cfg("design: top\nnetlist: top.v\n").unwrap();
    assert!(cfg.groups.is_empty());
    assert_eq!(cfg.objective, Objective::Timing);
    assert_eq!(cfg.effort, 100);
    assert!(cfg.dont_touch.is_empty());
}

#[test]
fn empty_text_gives_defaults() {
    let cfg = parse_cfg("").unwrap();
    assert_eq!(cfg.effort, 100);
    assert_eq!(cfg.objective, Objective::Timing);
}

#[test]
fn the_readme_job() {
    let text = "design:     top\nnetlist:    top.v\nlib:        tt.lib\nclock:      clk 1.2\n\
                input_slew: 0.02\noutput_load: 0.01\n\
                group:      INV  INV2  INV4        # interchangeable cells, weakest -> strongest (repeatable)\n\
                group:      NAND2 NAND2X2 NAND2X4\n\
                objective:  timing                 # timing | area  (default: timing)\n\
                effort:     medium                 # low | medium | high\n\
                dont_touch: clk_* *scan*           # instance-name globs to leave alone\n";
    let cfg = parse_cfg(text).unwrap();
    assert_eq!(cfg.groups, vec![strs(&["INV", "INV2", "INV4"]), strs(&["NAND2", "NAND2X2", "NAND2X4"])]);
    assert_eq!(cfg.objective, Objective::Timing);
    assert_eq!(cfg.effort, 100);
    assert_eq!(cfg.dont_touch, strs(&["clk_*", "*scan*"]));
}

#[test]
fn single_cell_groups_are_dropped() {
    let cfg = parse_cfg("group: INV\ngroup:\ngroup: A\tB\n").unwrap();
    assert_eq!(cfg.groups, vec![strs(&["A", "B"])]);
}

#[test]
fn keys_and_values_ignore_case() {
    let cfg = parse_cfg("OBJECTIVE: Area\nEffort: HIGH\nGroup: X Y\n").unwrap();
    assert_eq!(cfg.objective, Objective::Area);
    assert_eq!(cfg.effort, 500);
    assert_eq!(cfg.groups, vec![strs(&["X", "Y"])]);
}

#[test]
fn effort_words() {
    assert_eq!(parse_cfg("effort: low").unwrap().effort, 20);
    assert_eq!(parse_cfg("effort: medium").unwrap().effort, 100);
    assert_eq!(parse_cfg("effort: high").unwrap().effort, 500);
    // the last effort line wins
    assert_eq!(parse_cfg("effort: low\neffort: high\n").unwrap().effort, 500);
}

#[test]
fn bad_objective_is_an_error() {
    let e = parse_cfg("objective: Fast\n").unwrap_err();
    assert_eq!(e, "objective must be timing|area, got \"fast\"");
}

#[test]
fn bad_effort_is_an_error() {
    let e = parse_cfg("effort: EXTREME\n").unwrap_err();
    assert_eq!(e, "effort must be low|medium|high, got \"extreme\"");
    // a bad effort word is only an error at the end, and a later good one fixes it
    assert_eq!(parse_cfg("effort: x\neffort: low\n").unwrap().effort, 20);
}

#[test]
fn first_bad_objective_stops_reading() {
    // the objective error comes first, before the effort word is looked at
    let e = parse_cfg("effort: nope\nobjective: speed\n").unwrap_err();
    assert_eq!(e, "objective must be timing|area, got \"speed\"");
}

#[test]
fn dont_touch_splits_on_commas_and_spaces() {
    let cfg = parse_cfg("dont_touch: a,b ,, c\ndont_touch: d\n").unwrap();
    assert_eq!(cfg.dont_touch, strs(&["a", "b", "c", "d"]));
}

#[test]
fn comments_and_lines_without_colon_are_skipped() {
    let cfg = parse_cfg("# group: A B\njust words\ngroup: C D # E F\n").unwrap();
    assert_eq!(cfg.groups, vec![strs(&["C", "D"])]);
}

#[test]
fn crlf_lines_read_the_same() {
    let cfg = parse_cfg("group: A B\r\nobjective: area\r\neffort: low\r\n").unwrap();
    assert_eq!(cfg.groups, vec![strs(&["A", "B"])]);
    assert_eq!(cfg.objective, Objective::Area);
    assert_eq!(cfg.effort, 20);
}

#[test]
fn value_keeps_text_after_first_colon() {
    let cfg = parse_cfg("group: A:1 B:2\n").unwrap();
    assert_eq!(cfg.groups, vec![strs(&["A:1", "B:2"])]);
}

#[test]
fn builder_applies_entries() {
    let mut b = CfgBuilder::new();
    assert!(b.apply_entry("group", "P Q R", "p q r").is_ok());
    assert!(b.apply_entry("objective", "Area", "area").is_ok());
    assert_eq!(
        b.apply_entry("objective", "X", "x"),
        Err("objective must be timing|area, got \"x\"".to_string())
    );
    assert!(b.apply_entry("effort", "Low", "low").is_ok());
    assert!(b.apply_entry("dont_touch", " u1 , u2 ", " u1 , u2 ").is_ok());
    assert!(b.apply_entry("clock", "clk 1", "clk 1").is_ok());
    let cfg: ResizeCfg = b.finish().unwrap();
    assert_eq!(cfg.groups, vec![strs(&["P", "Q", "R"])]);
    assert_eq!(cfg.objective, Objective::Area);
    assert_eq!(cfg.effort, 20);
    assert_eq!(cfg.dont_touch, strs(&["u1", "u2"]));
}

#[test]
fn builder_reports_bad_effort() {
    let mut b = CfgBuilder::new();
    assert!(b.apply_entry("effort", "Max", "max").is_ok());
    assert_eq!(b.finish().unwrap_err(), "effort must be low|medium|high, got \"max\"");
}

#[test]
fn glob_edge_cases() {
    assert!(glob_match("*", ""));
    assert!(glob_match("*", "anything"));
    assert!(glob_match("**", "x"));
    assert!(glob_match("*a*b*", "xa*by"));
    assert!(!glob_match("*a*b*", "xaby"));
    assert!(glob_match("clk_*", "clk_"));
    assert!(!glob_match("clk_*", "clk"));
    assert!(glob_match("*_reg", "_reg"));
    assert!(!glob_match("*_reg", "reg"));
    assert!(glob_match("", ""));
    assert!(!glob_match("", "a"));
    assert!(!glob_match("u1", "u10"));
}

#[test]
fn timing_job_keys_change_nothing() {
    let base = parse_cfg("group: A B\neffort: low\n").unwrap();
    let more = parse_cfg("group: A B\neffort: low\ndesign: top\nnetlist: top.v\nclock: clk 1.2\nno colon here\n").unwrap();
    assert_eq!(more.groups, base.groups);
    assert_eq!(more.objective, base.objective);
    assert_eq!(more.effort, base.effort);
    assert_eq!(more.dont_touch, base.dont_touch);
}
