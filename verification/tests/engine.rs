use vyges_resize::engine::{
    cell_position, current_cell, instance_of_label, is_dont_touch, stronger_variant,
    upsize_candidates, weaker_variant, Action, Event, Sizer,
};
use vyges_resize::job::{parse_cfg, Objective, ResizeCfg};

fn strs(v: &[&str]) -> Vec<String> {
    v.iter().map(|s| s.to_string()).collect()
}

fn pairs(v: &[(&str, &str)]) -> Vec<(String, String)> {
    v.iter().map(|(a, b)| (a.to_string(), b.to_string())).collect()
}

fn cfg(groups: &[&[&str]], objective: Objective, effort: usize, dont: &[&str]) -> ResizeCfg {
    ResizeCfg {
        groups: groups.iter().map(|g| strs(g)).collect(),
        objective,
        effort,
        dont_touch: strs(dont),
    }
}

/// A toy timer: a chain of inverters between input `a` and output `y`, each adding the
/// delay of its cell; setup slack is the clock period minus the path delay; hold slack
/// is a fixed margin.
struct ChainTimer {
    period: f64,
    insts: Vec<(String, String)>,
    saved: Vec<Vec<(String, String)>>,
}

impl ChainTimer {
    fn new(period: f64, cells: &[&str]) -> Self {
        let insts = cells
            .iter()
            .enumerate()
            .map(|(i, c)| (format!("u{}", i + 1), c.to_string()))
            .collect();
        ChainTimer { period, insts, saved: Vec::new() }
    }
    fn delay(cell: &str) -> f64 {
        match cell {
            "INV" => 0.24,
            "INV2" => 0.10,
            "INV4" => 0.06,
            _ => 0.5,
        }
    }
    fn wns(&self) -> f64 {
        let total: f64 = self.insts.iter().map(|(_, c)| Self::delay(c)).sum();
        self.period - total
    }
    fn whs(&self) -> f64 {
        0.05
    }
    fn worst_path(&self) -> Vec<String> {
        let mut v = vec!["a".to_string()];
        for (name, _) in &self.insts {
            v.push(format!("{name}/A"));
            v.push(format!("{name}/Y"));
        }
        v.push("y".to_string());
        v
    }
    fn resize(&mut self, inst: &str, cell: &str) {
        for e in self.insts.iter_mut() {
            if e.0 == inst {
                e.1 = cell.to_string();
            }
        }
    }
    fn checkpoint(&mut self) {
        self.saved.push(self.insts.clone());
    }
    fn restore(&mut self) {
        self.insts = self.saved.pop().unwrap();
    }
}

/// Drives a sizing run on the toy timer the way the tool drives the real one.
fn drive(cfg: ResizeCfg, t: &mut ChainTimer) -> (f64, f64, Vec<(String, String, String)>) {
    let before = t.wns();
    let (mut sizer, mut action) = Sizer::start(cfg);
    let mut trial_wns: Vec<f64> = Vec::new();
    let mut base = (0.0, 0.0);
    let mut base_whs = 0.0;
    let mut steps = 0;
    loop {
        steps += 1;
        assert!(steps < 10_000, "the run should end");
        let event = match action {
            Action::CheckSetup => Event::SetupMet(t.wns() >= 0.0),
            Action::ReportWorstPath => {
                base = (t.wns(), t.whs());
                trial_wns.clear();
                Event::WorstPath { labels: t.worst_path(), cells: t.insts.clone() }
            }
            Action::Trial { inst, cell } => {
                t.checkpoint();
                t.resize(&inst, &cell);
                let (w, h) = (t.wns(), t.whs());
                t.restore();
                let improves = w > base.0 + 1e-12 && h >= base.1 - 1e-9;
                let beats_best = match sizer.best_candidate() {
                    Some(b) => w > trial_wns[b],
                    None => true,
                };
                trial_wns.push(w);
                Event::Trial { improves, beats_best }
            }
            Action::Commit { inst, cell } => {
                t.resize(&inst, &cell);
                Event::Applied
            }
            Action::ReportInstances => Event::Instances(t.insts.clone()),
            Action::TryDownsize { inst, cell } => {
                base_whs = t.whs();
                t.checkpoint();
                t.resize(&inst, &cell);
                Event::Downsized { still_met: t.wns() >= 0.0 && t.whs() >= base_whs - 1e-9 }
            }
            Action::Restore => {
                t.restore();
                Event::Applied
            }
            Action::Finish => break,
        };
        let (s, a) = sizer.step(event);
        sizer = s;
        action = a;
    }
    assert!(sizer.is_finished());
    let _ = base_whs;
    (before, t.wns(), sizer.into_changes())
}

#[test]
fn sizer_closes_a_setup_violation_by_upsizing() {
    let cfg = parse_cfg("group: INV INV2\nobjective: timing\neffort: high\n").unwrap();
    let mut t = ChainTimer::new(0.30, &["INV", "INV"]);
    let (before, after, changed) = drive(cfg, &mut t);
    assert!(before < 0.0);
    assert!(after >= 0.0);
    assert!(!changed.is_empty());
    assert!(changed.iter().all(|(_, old, new)| old == "INV" && new == "INV2"));
    assert_eq!(
        changed,
        vec![
            ("u1".to_string(), "INV".to_string(), "INV2".to_string()),
            ("u2".to_string(), "INV".to_string(), "INV2".to_string()),
        ]
    );
    assert!(t.insts.iter().all(|(_, c)| c == "INV2"));
}

#[test]
fn sizer_leaves_dont_touch_instances_alone() {
    let cfg =
        parse_cfg("group: INV INV2\nobjective: timing\neffort: high\ndont_touch: u1 u2\n").unwrap();
    let mut t = ChainTimer::new(0.30, &["INV", "INV"]);
    let (_, after, changed) = drive(cfg, &mut t);
    assert!(changed.is_empty());
    assert!(after < 0.0);
}

#[test]
fn sizer_recovers_area_when_met() {
    let cfg = parse_cfg("group: INV INV2\nobjective: timing\neffort: high\n").unwrap();
    let mut t = ChainTimer::new(1.0, &["INV2", "INV2"]);
    let (before, after, changed) = drive(cfg, &mut t);
    assert!(before >= 0.0 && after >= 0.0);
    assert_eq!(
        changed,
        vec![
            ("u1".to_string(), "INV2".to_string(), "INV".to_string()),
            ("u2".to_string(), "INV2".to_string(), "INV".to_string()),
        ]
    );
}

#[test]
fn sizer_downsizes_only_while_timing_holds() {
    // 0.34 ns fits one INV and one INV2, not two INVs: the first downsize stays, the
    // second is undone.
    let cfg = parse_cfg("group: INV INV2\n").unwrap();
    let mut t = ChainTimer::new(0.36, &["INV2", "INV2"]);
    let (_, after, changed) = drive(cfg, &mut t);
    assert!(after >= 0.0);
    assert_eq!(changed, vec![("u1".to_string(), "INV2".to_string(), "INV".to_string())]);
    assert_eq!(t.insts, pairs(&[("u1", "INV"), ("u2", "INV2")]));
}

#[test]
fn sizer_area_objective_never_upsizes() {
    let cfg = parse_cfg("group: INV INV2\nobjective: area\n").unwrap();
    let mut t = ChainTimer::new(0.30, &["INV", "INV"]);
    let (_, after, changed) = drive(cfg, &mut t);
    assert!(changed.is_empty());
    assert!(after < 0.0);
}

#[test]
fn sizer_respects_the_effort_budget() {
    let c = cfg(&[&["INV", "INV2", "INV4"]], Objective::Timing, 1, &[]);
    let mut t = ChainTimer::new(0.10, &["INV", "INV"]);
    let (_, after, changed) = drive(c, &mut t);
    assert!(after < 0.0);
    assert_eq!(changed, vec![("u1".to_string(), "INV".to_string(), "INV2".to_string())]);
}

#[test]
fn sizer_zero_effort_goes_straight_to_area() {
    let c = cfg(&[&["INV", "INV2"]], Objective::Timing, 0, &[]);
    let (sizer, action) = Sizer::start(c);
    assert!(matches!(action, Action::CheckSetup));
    let (sizer, action) = sizer.step(Event::SetupMet(false));
    assert!(matches!(action, Action::Finish));
    assert!(sizer.is_finished());
}

#[test]
fn sizer_repeats_its_request_on_a_wrong_answer() {
    let c = cfg(&[&["INV", "INV2"]], Objective::Timing, 5, &[]);
    let (sizer, _) = Sizer::start(c);
    let (sizer, action) = sizer.step(Event::SetupMet(false));
    assert!(matches!(action, Action::ReportWorstPath));
    let (sizer, action) = sizer.step(Event::Applied);
    assert!(matches!(action, Action::ReportWorstPath));
    assert!(sizer.changes().is_empty());
    let (_, action) = sizer.step(Event::WorstPath {
        labels: strs(&["a", "u1/A", "u1/Y", "y"]),
        cells: pairs(&[("u1", "INV")]),
    });
    match action {
        Action::Trial { inst, cell } => {
            assert_eq!(inst, "u1");
            assert_eq!(cell, "INV2");
        }
        _ => panic!("expected a trial"),
    }
}

#[test]
fn sizer_keeps_the_first_of_equal_best_candidates() {
    let c = cfg(&[&["INV", "INV2"]], Objective::Timing, 5, &[]);
    let (sizer, _) = Sizer::start(c);
    let (sizer, _) = sizer.step(Event::SetupMet(false));
    let (sizer, _) = sizer.step(Event::WorstPath {
        labels: strs(&["u1/Y", "u2/Y", "u3/Y"]),
        cells: pairs(&[("u1", "INV"), ("u2", "INV"), ("u3", "INV")]),
    });
    let (sizer, _) = sizer.step(Event::Trial { improves: false, beats_best: true });
    assert_eq!(sizer.best_candidate(), None);
    let (sizer, _) = sizer.step(Event::Trial { improves: true, beats_best: true });
    assert_eq!(sizer.best_candidate(), Some(1));
    let (sizer, action) = sizer.step(Event::Trial { improves: true, beats_best: false });
    match action {
        Action::Commit { inst, cell } => {
            assert_eq!(inst, "u2");
            assert_eq!(cell, "INV2");
        }
        _ => panic!("expected a commit"),
    }
    assert_eq!(sizer.changes().len(), 1);
}

#[test]
fn candidates_follow_the_worst_path() {
    let c = cfg(&[&["INV", "INV2"], &["BUF", "BUF2"]], Objective::Timing, 5, &["u3"]);
    let labels = strs(&["in", "u1/A", "u1/Y", "u2/A", "u9/A", "u3/A", "u4/A", "u2/Y", "out"]);
    let cells = pairs(&[("u1", "INV"), ("u2", "BUF"), ("u3", "INV"), ("u4", "INV2"), ("u2", "INV")]);
    let cands = upsize_candidates(&c, &labels, &cells);
    assert_eq!(
        cands,
        vec![
            ("u1".to_string(), "INV".to_string(), "INV2".to_string()),
            ("u2".to_string(), "BUF".to_string(), "BUF2".to_string()),
        ]
    );
}

#[test]
fn lookups() {
    let c = cfg(&[&["A", "B", "C"], &["X", "B"]], Objective::Timing, 5, &["clk_*", "*scan*"]);
    assert_eq!(cell_position(&c, "A"), Some((0, 0)));
    // the last occurrence of a cell wins
    assert_eq!(cell_position(&c, "B"), Some((1, 1)));
    assert_eq!(cell_position(&c, "Z"), None);
    assert_eq!(stronger_variant(&c, "A"), Some("B".to_string()));
    assert_eq!(stronger_variant(&c, "B"), None);
    assert_eq!(stronger_variant(&c, "C"), None);
    assert_eq!(weaker_variant(&c, "B"), Some("X".to_string()));
    assert_eq!(weaker_variant(&c, "A"), None);
    assert_eq!(weaker_variant(&c, "C"), Some("B".to_string()));
    assert!(is_dont_touch(&c, "clk_gate"));
    assert!(is_dont_touch(&c, "u_scan_3"));
    assert!(!is_dont_touch(&c, "u1"));
    assert_eq!(instance_of_label("u1/A"), Some("u1".to_string()));
    assert_eq!(instance_of_label("top/u1/A"), Some("top".to_string()));
    assert_eq!(instance_of_label("in"), None);
    let cells = pairs(&[("u1", "INV"), ("u1", "BUF")]);
    assert_eq!(current_cell(&cells, "u1"), Some("INV".to_string()));
    assert_eq!(current_cell(&cells, "u2"), None);
}

#[test]
fn sizer_downsizes_in_list_order() {
    let c = cfg(&[&["INV", "INV2"]], Objective::Timing, 5, &[]);
    let (sizer, _) = Sizer::start(c);
    let (sizer, _) = sizer.step(Event::SetupMet(true));
    let (sizer, action) = sizer.step(Event::SetupMet(true));
    assert!(matches!(action, Action::ReportInstances));
    let (sizer, action) =
        sizer.step(Event::Instances(pairs(&[("u3", "INV2"), ("u1", "INV"), ("u2", "INV2")])));
    match &action {
        Action::TryDownsize { inst, cell } => assert_eq!((inst.as_str(), cell.as_str()), ("u3", "INV")),
        _ => panic!("expected a downsize"),
    }
    let (sizer, action) = sizer.step(Event::Downsized { still_met: true });
    match &action {
        Action::TryDownsize { inst, cell } => assert_eq!((inst.as_str(), cell.as_str()), ("u2", "INV")),
        _ => panic!("expected a downsize"),
    }
    let (sizer, action) = sizer.step(Event::Downsized { still_met: true });
    assert!(matches!(action, Action::Finish));
    assert_eq!(
        sizer.into_changes(),
        vec![
            ("u3".to_string(), "INV2".to_string(), "INV".to_string()),
            ("u2".to_string(), "INV2".to_string(), "INV".to_string()),
        ]
    );
}
