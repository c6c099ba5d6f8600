//! The sizing loop's decisions: rank the critical path, try a stronger variant on each of
//! its instances, keep the best non-hold-breaking improvement, repeat within the effort
//! budget; then recover area by downsizing instances one greedy pass long.
//!
//! The timer that scores each candidate works in floating point, so it stays with the
//! caller. [`Sizer`] is the loop as a state machine: each [`Sizer::step`] takes what the
//! timer reported ([`Event`]) and says what to do with it next ([`Action`]).

use vstd::prelude::*;

use crate::job::{glob_match, glob_matches, CfgView, Objective, ResizeCfg};
use crate::text::{before, chars_of, find_char, has_char, same_text};

verus! {

/// A swap, `(instance, old cell, new cell)`, by its characters.
pub type MoveV = (Seq<char>, Seq<char>, Seq<char>);

// ---------------------------------------------------------------------------------------
// Cells, groups and instances

/// Whether some `dont_touch` glob matches the instance name.
pub open spec fn dont_touched(globs: Seq<Seq<char>>, inst: Seq<char>) -> bool {
    exists|k: int| 0 <= k < globs.len() && glob_matches(#[trigger] globs[k], inst)
}

/// The last position of `cell` in the group `g`.
pub open spec fn last_index_in(g: Seq<Seq<char>>, cell: Seq<char>) -> Option<int>
    decreases g.len(),
{
    if g.len() == 0 {
        None
    } else if g.last() == cell {
        Some(g.len() - 1)
    } else {
        last_index_in(g.drop_last(), cell)
    }
}

/// Where `cell` stands among the groups, `(group, position)`: its last occurrence, as a
/// map filled group by group, cell by cell, holds it.
pub open spec fn position_in(groups: Seq<Seq<Seq<char>>>, cell: Seq<char>) -> Option<(int, int)>
    decreases groups.len(),
{
    if groups.len() == 0 {
        None
    } else {
        match last_index_in(groups.last(), cell) {
            Some(p) => Some((groups.len() - 1, p)),
            None => position_in(groups.drop_last(), cell),
        }
    }
}

/// The next stronger variant of `cell` in its group, if it has one.
pub open spec fn upsize_target(groups: Seq<Seq<Seq<char>>>, cell: Seq<char>) -> Option<Seq<char>> {
    match position_in(groups, cell) {
        Some((g, p)) => if p + 1 < groups[g].len() {
            Some(groups[g][p + 1])
        } else {
            None
        },
        None => None,
    }
}

/// The next weaker variant of `cell` in its group, if it has one.
pub open spec fn downsize_target(groups: Seq<Seq<Seq<char>>>, cell: Seq<char>) -> Option<Seq<char>> {
    match position_in(groups, cell) {
        Some((g, p)) => if p > 0 {
            Some(groups[g][p - 1])
        } else {
            None
        },
        None => None,
    }
}

/// The instance of a timing-path node label `inst/pin`; a port has no `/`.
pub open spec fn inst_of_label(label: Seq<char>) -> Option<Seq<char>> {
    if has_char(label, '/') {
        Some(before(label, '/'))
    } else {
        None
    }
}

/// The cell of the first netlist instance named `inst`.
pub open spec fn cell_in(cells: Seq<(Seq<char>, Seq<char>)>, inst: Seq<char>) -> Option<Seq<char>>
    decreases cells.len(),
{
    if cells.len() == 0 {
        None
    } else if cells[0].0 == inst {
        Some(cells[0].1)
    } else {
        cell_in(cells.drop_first(), inst)
    }
}

/// The instances of the labels, in order, repeats kept.
pub open spec fn seen_insts(labels: Seq<Seq<char>>) -> Seq<Seq<char>>
    decreases labels.len(),
{
    if labels.len() == 0 {
        seq![]
    } else {
        match inst_of_label(labels.last()) {
            Some(i) => seen_insts(labels.drop_last()).push(i),
            None => seen_insts(labels.drop_last()),
        }
    }
}

/// The upsize that a path label offers, after the labels `earlier`: an instance pin, its
/// instance met for the first time, not `dont_touch`, in the netlist, with a stronger
/// variant.
pub open spec fn label_candidate(
    cfg: CfgView,
    earlier: Seq<Seq<char>>,
    label: Seq<char>,
    cells: Seq<(Seq<char>, Seq<char>)>,
) -> Option<MoveV> {
    match inst_of_label(label) {
        None => None,
        Some(inst) => if seen_insts(earlier).contains(inst) || dont_touched(cfg.dont_touch, inst) {
            None
        } else {
            match cell_in(cells, inst) {
                None => None,
                Some(cur) => match upsize_target(cfg.groups, cur) {
                    Some(to) => Some((inst, cur, to)),
                    None => None,
                },
            }
        },
    }
}

/// The candidate upsizes along the worst path, in path order.
pub open spec fn upsize_candidates_spec(
    cfg: CfgView,
    labels: Seq<Seq<char>>,
    cells: Seq<(Seq<char>, Seq<char>)>,
) -> Seq<MoveV>
    decreases labels.len(),
{
    if labels.len() == 0 {
        seq![]
    } else {
        let prev = upsize_candidates_spec(cfg, labels.drop_last(), cells);
        match label_candidate(cfg, labels.drop_last(), labels.last(), cells) {
            Some(m) => prev.push(m),
            None => prev,
        }
    }
}

/// The downsize an instance `(name, cell)` offers: not `dont_touch`, with a weaker variant.
pub open spec fn downsize_move(cfg: CfgView, entry: (Seq<char>, Seq<char>)) -> Option<MoveV> {
    if dont_touched(cfg.dont_touch, entry.0) {
        None
    } else {
        match downsize_target(cfg.groups, entry.1) {
            Some(to) => Some((entry.0, entry.1, to)),
            None => None,
        }
    }
}

/// The first instance at or after `k` that offers a downsize.
pub open spec fn next_downsizable(
    cfg: CfgView,
    insts: Seq<(Seq<char>, Seq<char>)>,
    k: nat,
) -> Option<nat>
    decreases insts.len() - k,
{
    if k >= insts.len() {
        None
    } else if downsize_move(cfg, insts[k as int]) is Some {
        Some(k)
    } else {
        next_downsizable(cfg, insts, k + 1)
    }
}

/// A legal upsize: an instance that is not `dont_touch` moves to the next stronger variant.
pub open spec fn valid_upsize(cfg: CfgView, m: MoveV) -> bool {
    !dont_touched(cfg.dont_touch, m.0) && upsize_target(cfg.groups, m.1) == Some(m.2)
}

/// A legal downsize: an instance that is not `dont_touch` moves to the next weaker variant.
pub open spec fn valid_downsize(cfg: CfgView, m: MoveV) -> bool {
    !dont_touched(cfg.dont_touch, m.0) && downsize_target(cfg.groups, m.1) == Some(m.2)
}

// ---------------------------------------------------------------------------------------
// Executable lookups

/// Whether some `dont_touch` glob of `cfg` matches the instance name.
pub fn is_dont_touch(cfg: &ResizeCfg, inst: &str) -> (r: bool)
    ensures
        r == dont_touched(cfg@.dont_touch, inst@),
{
    let n = cfg.dont_touch.len();
    let mut k: usize = 0;
    while k < n
        invariant
            n == cfg.dont_touch.len(),
            k <= n,
            forall|j: int| 0 <= j < k ==> !glob_matches(#[trigger] cfg@.dont_touch[j], inst@),
        decreases n - k,
    {
        if glob_match(cfg.dont_touch[k].as_str(), inst) {
            assert(glob_matches(cfg@.dont_touch[k as int], inst@));
            return true;
        }
        k = k + 1;
    }
    false
}

proof fn lemma_last_index_in_bounds(g: Seq<Seq<char>>, cell: Seq<char>)
    ensures
        last_index_in(g, cell) matches Some(p) ==> 0 <= p < g.len() && g[p] == cell,
    decreases g.len(),
{
    if g.len() > 0 && g.last() != cell {
        lemma_last_index_in_bounds(g.drop_last(), cell);
    }
}

pub proof fn lemma_position_in_bounds(groups: Seq<Seq<Seq<char>>>, cell: Seq<char>)
    ensures
        position_in(groups, cell) matches Some((g, p)) ==> 0 <= g < groups.len() && 0 <= p
            < groups[g].len() && groups[g][p] == cell,
    decreases groups.len(),
{
    if groups.len() > 0 {
        lemma_last_index_in_bounds(groups.last(), cell);
        if last_index_in(groups.last(), cell) is None {
            lemma_position_in_bounds(groups.drop_last(), cell);
        }
    }
}

/// Where `cell` stands among the groups of `cfg` (its last occurrence).
pub fn cell_position(cfg: &ResizeCfg, cell: &str) -> (r: Option<(usize, usize)>)
    ensures
        match r {
            Some((g, p)) => position_in(cfg@.groups, cell@) == Some((g as int, p as int)),
            None => position_in(cfg@.groups, cell@) is None,
        },
{
    let groups = &cfg.groups;
    let ghost gs = groups.deep_view();
    let mut gi = groups.len();
    assert(gs.take(gi as int) =~= gs);
    while gi > 0
        invariant
            gs == groups.deep_view(),
            gs == cfg@.groups,
            gs.len() == groups.len(),
            gi <= groups.len(),
            position_in(gs, cell@) == position_in(gs.take(gi as int), cell@),
        decreases gi,
    {
        let g = &groups[gi - 1];
        let ghost gv = g.deep_view();
        assert(gs.take(gi as int).drop_last() =~= gs.take(gi - 1));
        assert(gs.take(gi as int).last() == gv);
        let mut pi = g.len();
        assert(gv.take(pi as int) =~= gv);
        while pi > 0
            invariant
                gs == cfg@.groups,
                gs.len() == groups.len(),
                0 < gi <= groups.len(),
                position_in(gs, cell@) == position_in(gs.take(gi as int), cell@),
                gs.take(gi as int).drop_last() == gs.take(gi - 1),
                gs.take(gi as int).last() == gv,
                gv == g.deep_view(),
                pi <= g.len(),
                last_index_in(gv, cell@) == last_index_in(gv.take(pi as int), cell@),
            decreases pi,
        {
            assert(gv.take(pi as int).drop_last() =~= gv.take(pi - 1));
            assert(gv.take(pi as int).last() == g[pi - 1]@);
            if same_text(g[pi - 1].as_str(), cell) {
                assert(last_index_in(gv.take(pi as int), cell@) == Some(pi - 1));
                assert(last_index_in(gs.take(gi as int).last(), cell@) == Some(pi - 1));
                assert(gs.take(gi as int).len() == gi);
                assert(position_in(gs.take(gi as int), cell@) == Some((gi - 1, pi - 1)));
                return Some((gi - 1, pi - 1));
            }
            pi = pi - 1;
        }
        assert(gv.take(0) =~= Seq::<Seq<char>>::empty());
        gi = gi - 1;
    }
    assert(gs.take(0) =~= Seq::<Seq<Seq<char>>>::empty());
    None
}

/// The next stronger variant of `cell` in its group.
pub fn stronger_variant(cfg: &ResizeCfg, cell: &str) -> (r: Option<String>)
    ensures
        r.deep_view() == upsize_target(cfg@.groups, cell@),
{
    proof {
        lemma_position_in_bounds(cfg@.groups, cell@);
    }
    match cell_position(cfg, cell) {
        Some((g, p)) => {
            assert(cfg@.groups[g as int].len() == cfg.groups[g as int].len());
            if p + 1 < cfg.groups[g].len() {
                Some(cfg.groups[g][p + 1].clone())
            } else {
                None
            }
        },
        None => None,
    }
}

/// The next weaker variant of `cell` in its group.
pub fn weaker_variant(cfg: &ResizeCfg, cell: &str) -> (r: Option<String>)
    ensures
        r.deep_view() == downsize_target(cfg@.groups, cell@),
{
    proof {
        lemma_position_in_bounds(cfg@.groups, cell@);
    }
    match cell_position(cfg, cell) {
        Some((g, p)) => {
            if p > 0 {
                Some(cfg.groups[g][p - 1].clone())
            } else {
                None
            }
        },
        None => None,
    }
}

/// The instance of a path node label `inst/pin` (the text before the first `/`); `None`
/// for a port.
pub fn instance_of_label(label: &str) -> (r: Option<String>)
    ensures
        r.deep_view() == inst_of_label(label@),
{
    let v = chars_of(label);
    let k = find_char(&v, 0, v.len(), '/');
    assert(v@.subrange(0, v.len() as int) =~= label@);
    if k == v.len() {
        None
    } else {
        let s = String::from_str(label.substring_char(0, k));
        assert(s@ =~= before(label@, '/'));
        Some(s)
    }
}

/// The cell of the first instance named `inst` in the netlist list `(name, cell)`.
pub fn current_cell(cells: &Vec<(String, String)>, inst: &str) -> (r: Option<String>)
    ensures
        r.deep_view() == cell_in(cells.deep_view(), inst@),
{
    let ghost cs = cells.deep_view();
    let n = cells.len();
    let mut k: usize = 0;
    assert(cs.skip(0) =~= cs);
    while k < n
        invariant
            cs == cells.deep_view(),
            n == cells.len(),
            k <= n,
            cell_in(cs, inst@) == cell_in(cs.skip(k as int), inst@),
        decreases n - k,
    {
        assert(cs.skip(k as int).drop_first() =~= cs.skip(k + 1));
        assert(cs.skip(k as int)[0] == cs[k as int]);
        if same_text(cells[k].0.as_str(), inst) {
            return Some(cells[k].1.clone());
        }
        k = k + 1;
    }
    assert(cs.skip(n as int) =~= Seq::<(Seq<char>, Seq<char>)>::empty());
    None
}

/// Whether one of the strings of `v` holds the characters of `s`.
fn contains_text(v: &Vec<String>, s: &str) -> (r: bool)
    ensures
        r == v.deep_view().contains(s@),
{
    let n = v.len();
    let mut k: usize = 0;
    while k < n
        invariant
            n == v.len(),
            k <= n,
            forall|j: int| 0 <= j < k ==> #[trigger] v.deep_view()[j] != s@,
        decreases n - k,
    {
        if same_text(v[k].as_str(), s) {
            assert(v.deep_view()[k as int] == s@);
            return true;
        }
        k = k + 1;
    }
    false
}

/// The candidate upsizes along the worst path: for each node label `inst/pin` in path
/// order, its instance (first time met, not `dont_touch`, present in `cells`) moved from
/// its current cell to the next stronger variant of its group.
pub fn upsize_candidates(
    cfg: &ResizeCfg,
    labels: &Vec<String>,
    cells: &Vec<(String, String)>,
) -> (r: Vec<(String, String, String)>)
    ensures
        r.deep_view() == upsize_candidates_spec(cfg@, labels.deep_view(), cells.deep_view()),
{
    let ghost ls = labels.deep_view();
    let mut out: Vec<(String, String, String)> = Vec::new();
    let mut seen: Vec<String> = Vec::new();
    let n = labels.len();
    let mut i: usize = 0;
    while i < n
        invariant
            ls == labels.deep_view(),
            n == labels.len(),
            i <= n,
            out.deep_view() == upsize_candidates_spec(cfg@, ls.take(i as int), cells.deep_view()),
            seen.deep_view() == seen_insts(ls.take(i as int)),
        decreases n - i,
    {
        assert(ls.take(i + 1).drop_last() =~= ls.take(i as int));
        assert(ls.take(i + 1).last() == labels[i as int]@);
        let ghost out0 = out.deep_view();
        let ghost seen0 = seen.deep_view();
        match instance_of_label(labels[i].as_str()) {
            None => {},
            Some(inst) => {
                let already = contains_text(&seen, inst.as_str());
                seen.push(inst.clone());
                assert(seen.deep_view() =~= seen0.push(inst@));
                if !already && !is_dont_touch(cfg, inst.as_str()) {
                    match current_cell(cells, inst.as_str()) {
                        Some(cur) => {
                            match stronger_variant(cfg, cur.as_str()) {
                                Some(to) => {
                                    let ghost mv = (inst@, cur@, to@);
                                    out.push((inst, cur, to));
                                    assert(out.deep_view() =~= out0.push(mv));
                                },
                                None => {},
                            }
                        },
                        None => {},
                    }
                }
            },
        }
        i = i + 1;
    }
    assert(ls.take(n as int) =~= ls);
    out
}

/// The first instance at or after `from` that offers a downsize, with its weaker variant.
fn next_downsize(cfg: &ResizeCfg, insts: &Vec<(String, String)>, from: usize) -> (r: Option<
    (usize, String),
>)
    requires
        from <= insts.len(),
    ensures
        match next_downsizable(cfg@, insts.deep_view(), from as nat) {
            Some(j) => r matches Some((k, to)) && k == j && k < insts.len() && downsize_move(
                cfg@,
                insts.deep_view()[j as int],
            ) == Some((insts@[j as int].0@, insts@[j as int].1@, to@)),
            None => r is None,
        },
{
    let ghost is = insts.deep_view();
    let n = insts.len();
    let mut k = from;
    while k < n
        invariant
            is == insts.deep_view(),
            n == insts.len(),
            from <= k <= n,
            next_downsizable(cfg@, is, from as nat) == next_downsizable(cfg@, is, k as nat),
        decreases n - k,
    {
        if !is_dont_touch(cfg, insts[k].0.as_str()) {
            match weaker_variant(cfg, insts[k].1.as_str()) {
                Some(to) => {
                    return Some((k, to));
                },
                None => {},
            }
        }
        k = k + 1;
    }
    None
}

// ---------------------------------------------------------------------------------------
// The sizing loop as a state machine

/// What the timer reported, in answer to the last [`Action`].
pub enum Event {
    /// Setup is met: worst negative slack is at least zero.
    SetupMet(bool),
    /// The worst path's node labels (`inst/pin`, or a port name) and the netlist's
    /// instances with their cells.
    WorstPath { labels: Vec<String>, cells: Vec<(String, String)> },
    /// The speculative swap improved WNS without breaking hold (`improves`), and its WNS is
    /// above that of the best candidate so far (`beats_best`; read only when there is one).
    Trial { improves: bool, beats_best: bool },
    /// The commit or the restore has been done.
    Applied,
    /// The netlist's instances with their cells.
    Instances(Vec<(String, String)>),
    /// After the downsize, setup is still met and hold is no worse than before.
    Downsized { still_met: bool },
}

/// What the caller is to do with the timer next.
pub enum Action {
    /// Report whether setup is met ([`Event::SetupMet`]).
    CheckSetup,
    /// Report the worst path and the netlist ([`Event::WorstPath`]).
    ReportWorstPath,
    /// Checkpoint, resize `inst` to `cell`, update, read WNS/WHS, restore
    /// ([`Event::Trial`]).
    Trial { inst: String, cell: String },
    /// Resize `inst` to `cell` and update for good ([`Event::Applied`]).
    Commit { inst: String, cell: String },
    /// Report the netlist's instances ([`Event::Instances`]).
    ReportInstances,
    /// Note the WHS, checkpoint, resize `inst` to `cell`, update, and report
    /// ([`Event::Downsized`]).
    TryDownsize { inst: String, cell: String },
    /// Restore the checkpoint of the last downsize ([`Event::Applied`]).
    Restore,
    /// Sizing is over.
    Finish,
}

pub enum EventV {
    SetupMet(bool),
    WorstPath { labels: Seq<Seq<char>>, cells: Seq<(Seq<char>, Seq<char>)> },
    Trial { improves: bool, beats_best: bool },
    Applied,
    Instances(Seq<(Seq<char>, Seq<char>)>),
    Downsized { still_met: bool },
}

pub enum ActionV {
    CheckSetup,
    ReportWorstPath,
    Trial { inst: Seq<char>, cell: Seq<char> },
    Commit { inst: Seq<char>, cell: Seq<char> },
    ReportInstances,
    TryDownsize { inst: Seq<char>, cell: Seq<char> },
    Restore,
    Finish,
}

impl View for Event {
    type V = EventV;

    open spec fn view(&self) -> EventV {
        match self {
            Event::SetupMet(b) => EventV::SetupMet(*b),
            Event::WorstPath { labels, cells } => EventV::WorstPath {
                labels: labels.deep_view(),
                cells: cells.deep_view(),
            },
            Event::Trial { improves, beats_best } => EventV::Trial {
                improves: *improves,
                beats_best: *beats_best,
            },
            Event::Applied => EventV::Applied,
            Event::Instances(v) => EventV::Instances(v.deep_view()),
            Event::Downsized { still_met } => EventV::Downsized { still_met: *still_met },
        }
    }
}

impl View for Action {
    type V = ActionV;

    open spec fn view(&self) -> ActionV {
        match self {
            Action::CheckSetup => ActionV::CheckSetup,
            Action::ReportWorstPath => ActionV::ReportWorstPath,
            Action::Trial { inst, cell } => ActionV::Trial { inst: inst@, cell: cell@ },
            Action::Commit { inst, cell } => ActionV::Commit { inst: inst@, cell: cell@ },
            Action::ReportInstances => ActionV::ReportInstances,
            Action::TryDownsize { inst, cell } => ActionV::TryDownsize { inst: inst@, cell: cell@ },
            Action::Restore => ActionV::Restore,
            Action::Finish => ActionV::Finish,
        }
    }
}

/// Where the loop stands.
enum Phase {
    UpsizeCheck,
    UpsizePath,
    UpsizeTrial { cands: Vec<(String, String, String)>, next: usize, best: Option<usize> },
    UpsizeCommit,
    AreaCheck,
    AreaList,
    AreaTrial { insts: Vec<(String, String)>, next: usize },
    AreaRestore { insts: Vec<(String, String)>, next: usize },
    Finished,
}

pub enum PhaseV {
    /// Asked whether setup is met, at the top of an upsize round.
    UpsizeCheck,
    /// Asked for the worst path.
    UpsizePath,
    /// Asked to try `cands[next]`; `best` is the best improving candidate before it.
    UpsizeTrial { cands: Seq<MoveV>, next: nat, best: Option<nat> },
    /// Asked to commit the last recorded swap.
    UpsizeCommit,
    /// Asked whether setup is met, before area recovery.
    AreaCheck,
    /// Asked for the instances.
    AreaList,
    /// Asked to try downsizing `insts[next]`.
    AreaTrial { insts: Seq<(Seq<char>, Seq<char>)>, next: nat },
    /// Asked to undo the downsize of `insts[next]`.
    AreaRestore { insts: Seq<(Seq<char>, Seq<char>)>, next: nat },
    /// Done.
    Finished,
}

impl View for Phase {
    type V = PhaseV;

    closed spec fn view(&self) -> PhaseV {
        match self {
            Phase::UpsizeCheck => PhaseV::UpsizeCheck,
            Phase::UpsizePath => PhaseV::UpsizePath,
            Phase::UpsizeTrial { cands, next, best } => PhaseV::UpsizeTrial {
                cands: cands.deep_view(),
                next: *next as nat,
                best: match best {
                    Some(b) => Some(*b as nat),
                    None => None,
                },
            },
            Phase::UpsizeCommit => PhaseV::UpsizeCommit,
            Phase::AreaCheck => PhaseV::AreaCheck,
            Phase::AreaList => PhaseV::AreaList,
            Phase::AreaTrial { insts, next } => PhaseV::AreaTrial {
                insts: insts.deep_view(),
                next: *next as nat,
            },
            Phase::AreaRestore { insts, next } => PhaseV::AreaRestore {
                insts: insts.deep_view(),
                next: *next as nat,
            },
            Phase::Finished => PhaseV::Finished,
        }
    }
}

/// The state of a sizing run: the configuration, where the loop stands, how many upsize
/// rounds committed, the swaps recorded in order, and where in the instance list of area
/// recovery each kept downsize was taken.
pub struct SizerView {
    pub cfg: CfgView,
    pub phase: PhaseV,
    pub rounds: nat,
    pub changed: Seq<MoveV>,
    /// The instance list that area recovery goes through, once it has been given.
    pub area_list: Seq<(Seq<char>, Seq<char>)>,
    /// The positions in `area_list` of the downsizes kept, in the order they were kept.
    pub down_at: Seq<nat>,
}

/// A round of upsizing starts when the objective is timing and the budget allows;
/// otherwise the loop goes on to area recovery. Either way setup is checked first.
pub open spec fn start_round(m: SizerView, rounds: nat) -> (SizerView, ActionV) {
    if m.cfg.objective == Objective::Timing && rounds < m.cfg.effort {
        (SizerView { phase: PhaseV::UpsizeCheck, rounds, ..m }, ActionV::CheckSetup)
    } else {
        (SizerView { phase: PhaseV::AreaCheck, rounds, ..m }, ActionV::CheckSetup)
    }
}

/// A fresh run on `cfg`: nothing recorded, no instance list yet.
pub open spec fn initial(cfg: CfgView) -> (SizerView, ActionV) {
    start_round(
        SizerView {
            cfg,
            phase: PhaseV::AreaCheck,
            rounds: 0,
            changed: seq![],
            area_list: seq![],
            down_at: seq![],
        },
        0,
    )
}

/// Upsizing is over: check setup before area recovery.
pub open spec fn leave_upsizing(m: SizerView) -> (SizerView, ActionV) {
    (SizerView { phase: PhaseV::AreaCheck, ..m }, ActionV::CheckSetup)
}

/// Area recovery goes on from instance `k`: try the next one that offers a downsize, or
/// finish.
pub open spec fn scan_from(m: SizerView, insts: Seq<(Seq<char>, Seq<char>)>, k: nat) -> (
    SizerView,
    ActionV,
) {
    match next_downsizable(m.cfg, insts, k) {
        Some(j) => (
            SizerView { phase: PhaseV::AreaTrial { insts, next: j }, ..m },
            ActionV::TryDownsize {
                inst: insts[j as int].0,
                cell: downsize_target(m.cfg.groups, insts[j as int].1)->0,
            },
        ),
        None => (SizerView { phase: PhaseV::Finished, ..m }, ActionV::Finish),
    }
}

/// The action that the state `m` waits on an answer to.
pub open spec fn pending_action(m: SizerView) -> ActionV {
    match m.phase {
        PhaseV::UpsizeCheck => ActionV::CheckSetup,
        PhaseV::UpsizePath => ActionV::ReportWorstPath,
        PhaseV::UpsizeTrial { cands, next, best } => ActionV::Trial {
            inst: cands[next as int].0,
            cell: cands[next as int].2,
        },
        PhaseV::UpsizeCommit => ActionV::Commit {
            inst: m.changed.last().0,
            cell: m.changed.last().2,
        },
        PhaseV::AreaCheck => ActionV::CheckSetup,
        PhaseV::AreaList => ActionV::ReportInstances,
        PhaseV::AreaTrial { insts, next } => ActionV::TryDownsize {
            inst: insts[next as int].0,
            cell: downsize_target(m.cfg.groups, insts[next as int].1)->0,
        },
        PhaseV::AreaRestore { insts, next } => ActionV::Restore,
        PhaseV::Finished => ActionV::Finish,
    }
}

/// One step of the sizing loop: the state after event `e`, and the next action. An event
/// that does not answer the pending action changes nothing and repeats that action.
pub open spec fn transition(m: SizerView, e: EventV) -> (SizerView, ActionV) {
    let stay = (m, pending_action(m));
    match m.phase {
        PhaseV::UpsizeCheck => match e {
            EventV::SetupMet(met) => if met {
                leave_upsizing(m)
            } else {
                (SizerView { phase: PhaseV::UpsizePath, ..m }, ActionV::ReportWorstPath)
            },
            _ => stay,
        },
        PhaseV::UpsizePath => match e {
            EventV::WorstPath { labels, cells } => {
                let c = upsize_candidates_spec(m.cfg, labels, cells);
                if c.len() == 0 {
                    leave_upsizing(m)
                } else {
                    (
                        SizerView {
                            phase: PhaseV::UpsizeTrial { cands: c, next: 0, best: None },
                            ..m
                        },
                        ActionV::Trial { inst: c[0].0, cell: c[0].2 },
                    )
                }
            },
            _ => stay,
        },
        PhaseV::UpsizeTrial { cands, next, best } => match e {
            EventV::Trial { improves, beats_best } => {
                let best2 = if improves && (best is None || beats_best) {
                    Some(next)
                } else {
                    best
                };
                if next + 1 < cands.len() {
                    (
                        SizerView {
                            phase: PhaseV::UpsizeTrial { cands, next: next + 1, best: best2 },
                            ..m
                        },
                        ActionV::Trial {
                            inst: cands[next + 1 as int].0,
                            cell: cands[next + 1 as int].2,
                        },
                    )
                } else {
                    match best2 {
                        Some(b) => (
                            SizerView {
                                phase: PhaseV::UpsizeCommit,
                                changed: m.changed.push(cands[b as int]),
                                ..m
                            },
                            ActionV::Commit { inst: cands[b as int].0, cell: cands[b as int].2 },
                        ),
                        None => leave_upsizing(m),
                    }
                }
            },
            _ => stay,
        },
        PhaseV::UpsizeCommit => match e {
            EventV::Applied => start_round(m, m.rounds + 1),
            _ => stay,
        },
        PhaseV::AreaCheck => match e {
            EventV::SetupMet(met) => if met {
                (SizerView { phase: PhaseV::AreaList, ..m }, ActionV::ReportInstances)
            } else {
                (SizerView { phase: PhaseV::Finished, ..m }, ActionV::Finish)
            },
            _ => stay,
        },
        PhaseV::AreaList => match e {
            EventV::Instances(insts) => scan_from(SizerView { area_list: insts, ..m }, insts, 0),
            _ => stay,
        },
        PhaseV::AreaTrial { insts, next } => match e {
            EventV::Downsized { still_met } => if still_met {
                scan_from(
                    SizerView {
                        changed: m.changed.push(downsize_move(m.cfg, insts[next as int])->0),
                        down_at: m.down_at.push(next),
                        ..m
                    },
                    insts,
                    next + 1,
                )
            } else {
                (SizerView { phase: PhaseV::AreaRestore { insts, next }, ..m }, ActionV::Restore)
            },
            _ => stay,
        },
        PhaseV::AreaRestore { insts, next } => match e {
            EventV::Applied => scan_from(m, insts, next + 1),
            _ => stay,
        },
        PhaseV::Finished => stay,
    }
}

/// How many of the recorded swaps are upsizes: one per committed round, and the one
/// waiting to be committed.
pub open spec fn upsizes_recorded(m: SizerView) -> nat {
    if m.phase is UpsizeCommit {
        m.rounds + 1
    } else {
        m.rounds
    }
}

/// The invariant of a sizing run: the recorded swaps are first the upsizes, at most one
/// per round of the budget and none for the area objective, then the downsizes; every
/// swap is legal; each downsize is the one offered at its position of the area list, at
/// strictly increasing positions, all before the instance under way; and the loop's
/// position is consistent.
pub open spec fn wf(m: SizerView) -> bool {
    let u = upsizes_recorded(m);
    &&& u <= m.changed.len()
    &&& u <= m.cfg.effort
    &&& (m.cfg.objective == Objective::Area ==> u == 0)
    &&& forall|i: int| 0 <= i < u ==> valid_upsize(m.cfg, #[trigger] m.changed[i])
    &&& forall|i: int| u <= i < m.changed.len() ==> valid_downsize(m.cfg, #[trigger] m.changed[i])
    &&& u + m.down_at.len() == m.changed.len()
    &&& forall|k: int|
        0 <= k < m.down_at.len() ==> #[trigger] m.down_at[k] < m.area_list.len()
            && downsize_move(m.cfg, m.area_list[m.down_at[k] as int]) == Some(m.changed[u + k])
    &&& forall|k1: int, k2: int|
        0 <= k1 < k2 < m.down_at.len() ==> #[trigger] m.down_at[k1] < #[trigger] m.down_at[k2]
    &&& match m.phase {
        PhaseV::UpsizeCheck | PhaseV::UpsizePath => {
            &&& m.down_at.len() == 0
            &&& m.cfg.objective == Objective::Timing
            &&& m.rounds < m.cfg.effort
            &&& m.changed.len() == m.rounds
        },
        PhaseV::UpsizeTrial { cands, next, best } => {
            &&& m.down_at.len() == 0
            &&& m.cfg.objective == Objective::Timing
            &&& m.rounds < m.cfg.effort
            &&& m.changed.len() == m.rounds
            &&& next < cands.len()
            &&& (best matches Some(b) ==> b < next)
            &&& forall|i: int| 0 <= i < cands.len() ==> valid_upsize(m.cfg, #[trigger] cands[i])
        },
        PhaseV::UpsizeCommit => {
            &&& m.down_at.len() == 0
            &&& m.cfg.objective == Objective::Timing
            &&& m.changed.len() == m.rounds + 1
        },
        PhaseV::AreaCheck | PhaseV::AreaList => m.down_at.len() == 0,
        PhaseV::AreaTrial { insts, next } => {
            &&& next < insts.len()
            &&& downsize_move(m.cfg, insts[next as int]) is Some
            &&& insts == m.area_list
            &&& forall|k: int| 0 <= k < m.down_at.len() ==> #[trigger] m.down_at[k] < next
        },
        PhaseV::AreaRestore { insts, next } => {
            &&& next < insts.len()
            &&& downsize_move(m.cfg, insts[next as int]) is Some
            &&& insts == m.area_list
            &&& forall|k: int| 0 <= k < m.down_at.len() ==> #[trigger] m.down_at[k] < next
        },
        _ => true,
    }
}

/// A sizing run. Obtain one with [`Sizer::start`], then answer each [`Action`] with the
/// matching [`Event`] through [`Sizer::step`] until the action is [`Action::Finish`].
pub struct Sizer {
    cfg: ResizeCfg,
    phase: Phase,
    rounds: usize,
    changed: Vec<(String, String, String)>,
    area_list: Ghost<Seq<(Seq<char>, Seq<char>)>>,
    down_at: Ghost<Seq<nat>>,
}

impl View for Sizer {
    type V = SizerView;

    closed spec fn view(&self) -> SizerView {
        SizerView {
            cfg: self.cfg@,
            phase: self.phase@,
            rounds: self.rounds as nat,
            changed: self.changed.deep_view(),
            area_list: self.area_list@,
            down_at: self.down_at@,
        }
    }
}

impl Sizer {
    #[verifier::type_invariant]
    closed spec fn inv(self) -> bool {
        &&& wf(self@)
        &&& self.rounds <= self.cfg.effort
        &&& match self.phase {
            Phase::UpsizeTrial { cands, next, best } => next < cands.len(),
            _ => true,
        }
    }

    /// Starts a sizing run on `cfg`; the first action is a setup check.
    pub fn start(cfg: ResizeCfg) -> (r: (Sizer, Action))
        ensures
            (r.0@, r.1@) == initial(cfg@),
    {
        let phase = if cfg.objective == Objective::Timing && 0 < cfg.effort {
            Phase::UpsizeCheck
        } else {
            Phase::AreaCheck
        };
        let changed: Vec<(String, String, String)> = Vec::new();
        assert(changed.deep_view() =~= Seq::<MoveV>::empty());
        (
            Sizer {
                cfg,
                phase,
                rounds: 0,
                changed,
                area_list: Ghost(Seq::empty()),
                down_at: Ghost(Seq::empty()),
            },
            Action::CheckSetup,
        )
    }

    /// The swaps recorded so far, `(instance, old cell, new cell)`, in order.
    pub fn changes(&self) -> (r: &Vec<(String, String, String)>)
        ensures
            r.deep_view() == self@.changed,
    {
        &self.changed
    }

    /// The swaps recorded, once the run is over.
    pub fn into_changes(self) -> (r: Vec<(String, String, String)>)
        ensures
            r.deep_view() == self@.changed,
    {
        self.changed
    }

    /// Whether the run is over.
    pub fn is_finished(&self) -> (b: bool)
        ensures
            b == (self@.phase is Finished),
    {
        match self.phase {
            Phase::Finished => true,
            _ => false,
        }
    }

    /// While candidates are being tried, the index of the best improving one so far; the
    /// caller compares the next candidate's WNS with that one's for [`Event::Trial`].
    pub fn best_candidate(&self) -> (r: Option<usize>)
        ensures
            match self@.phase {
                PhaseV::UpsizeTrial { cands, next, best } => match r {
                    Some(b) => best == Some(b as nat),
                    None => best is None,
                },
                _ => r is None,
            },
    {
        match &self.phase {
            Phase::UpsizeTrial { cands, next, best } => *best,
            _ => None,
        }
    }

    /// Whether `e` answers the action this run waits on.
    fn answers(&self, e: &Event) -> (b: bool)
        ensures
            b == answers_spec(self@.phase, e@),
    {
        match (&self.phase, e) {
            (Phase::UpsizeCheck, Event::SetupMet(_)) => true,
            (Phase::UpsizePath, Event::WorstPath { .. }) => true,
            (Phase::UpsizeTrial { .. }, Event::Trial { .. }) => true,
            (Phase::UpsizeCommit, Event::Applied) => true,
            (Phase::AreaCheck, Event::SetupMet(_)) => true,
            (Phase::AreaList, Event::Instances(_)) => true,
            (Phase::AreaTrial { .. }, Event::Downsized { .. }) => true,
            (Phase::AreaRestore { .. }, Event::Applied) => true,
            _ => false,
        }
    }

    /// The action this run waits on an answer to.
    pub fn pending(&self) -> (a: Action)
        ensures
            a@ == pending_action(self@),
    {
        proof {
            use_type_invariant(self);
        }
        match &self.phase {
            Phase::UpsizeCheck => Action::CheckSetup,
            Phase::UpsizePath => Action::ReportWorstPath,
            Phase::UpsizeTrial { cands, next, best } => Action::Trial {
                inst: cands[*next].0.clone(),
                cell: cands[*next].2.clone(),
            },
            Phase::UpsizeCommit => {
                let k = self.changed.len() - 1;
                assert(self@.changed.last() == self@.changed[k as int]);
                Action::Commit {
                    inst: self.changed[k].0.clone(),
                    cell: self.changed[k].2.clone(),
                }
            },
            Phase::AreaCheck => Action::CheckSetup,
            Phase::AreaList => Action::ReportInstances,
            Phase::AreaTrial { insts, next } => {
                let to = weaker_variant(&self.cfg, insts[*next].1.as_str());
                match to {
                    Some(t) => Action::TryDownsize { inst: insts[*next].0.clone(), cell: t },
                    None => vstd::pervasive::unreached(),
                }
            },
            Phase::AreaRestore { .. } => Action::Restore,
            Phase::Finished => Action::Finish,
        }
    }

    /// Area recovery from instance `k` of `insts`.
    fn scan(
        cfg: ResizeCfg,
        rounds: usize,
        changed: Vec<(String, String, String)>,
        area_list: Ghost<Seq<(Seq<char>, Seq<char>)>>,
        down_at: Ghost<Seq<nat>>,
        insts: Vec<(String, String)>,
        k: usize,
    ) -> (r: (Sizer, Action))
        requires
            k <= insts.len(),
            rounds <= cfg.effort,
            wf(
                scan_from(
                    SizerView {
                        cfg: cfg@,
                        phase: PhaseV::Finished,
                        rounds: rounds as nat,
                        changed: changed.deep_view(),
                        area_list: area_list@,
                        down_at: down_at@,
                    },
                    insts.deep_view(),
                    k as nat,
                ).0,
            ),
        ensures
            (r.0@, r.1@) == scan_from(
                SizerView {
                    cfg: cfg@,
                    phase: PhaseV::Finished,
                    rounds: rounds as nat,
                    changed: changed.deep_view(),
                    area_list: area_list@,
                    down_at: down_at@,
                },
                insts.deep_view(),
                k as nat,
            ),
    {
        proof {
            lemma_next_downsizable(cfg@, insts.deep_view(), k as nat);
        }
        match next_downsize(&cfg, &insts, k) {
            Some((j, to)) => {
                let inst = insts[j].0.clone();
                (
                    Sizer {
                        cfg,
                        phase: Phase::AreaTrial { insts, next: j },
                        rounds,
                        changed,
                        area_list,
                        down_at,
                    },
                    Action::TryDownsize { inst, cell: to },
                )
            },
            None => (
                Sizer { cfg, phase: Phase::Finished, rounds, changed, area_list, down_at },
                Action::Finish,
            ),
        }
    }

    /// One step of the sizing loop, as [`transition`] states it: the run after the event, and
    /// what to do next.
    pub fn step(self, event: Event) -> (r: (Sizer, Action))
        ensures
            (r.0@, r.1@) == transition(self@, event@),
    {
        proof {
            use_type_invariant(&self);
            lemma_next_keeps_wf(self@, event@);
        }
        if !self.answers(&event) {
            let a = self.pending();
            return (self, a);
        }
        let ghost m = self@;
        let Sizer { cfg, phase, rounds, changed, area_list, down_at } = self;
        match phase {
            Phase::UpsizeCheck => match event {
                Event::SetupMet(met) => {
                    if met {
                        (Sizer { cfg, phase: Phase::AreaCheck, rounds, changed, area_list, down_at }, Action::CheckSetup)
                    } else {
                        (
                            Sizer { cfg, phase: Phase::UpsizePath, rounds, changed, area_list, down_at },
                            Action::ReportWorstPath,
                        )
                    }
                },
                _ => vstd::pervasive::unreached(),
            },
            Phase::UpsizePath => match event {
                Event::WorstPath { labels, cells } => {
                    let c = upsize_candidates(&cfg, &labels, &cells);
                    proof {
                        lemma_candidates_valid(cfg@, labels.deep_view(), cells.deep_view());
                    }
                    if c.len() == 0 {
                        (Sizer { cfg, phase: Phase::AreaCheck, rounds, changed, area_list, down_at }, Action::CheckSetup)
                    } else {
                        let inst = c[0].0.clone();
                        let cell = c[0].2.clone();
                        (
                            Sizer {
                                cfg,
                                phase: Phase::UpsizeTrial { cands: c, next: 0, best: None },
                                rounds,
                                changed,
                                area_list,
                                down_at,
                            },
                            Action::Trial { inst, cell },
                        )
                    }
                },
                _ => vstd::pervasive::unreached(),
            },
            Phase::UpsizeTrial { cands, next, best } => match event {
                Event::Trial { improves, beats_best } => {
                    let best2 = if improves && (best.is_none() || beats_best) {
                        Some(next)
                    } else {
                        best
                    };
                    if next + 1 < cands.len() {
                        let inst = cands[next + 1].0.clone();
                        let cell = cands[next + 1].2.clone();
                        (
                            Sizer {
                                cfg,
                                phase: Phase::UpsizeTrial { cands, next: next + 1, best: best2 },
                                rounds,
                                changed,
                                area_list,
                                down_at,
                            },
                            Action::Trial { inst, cell },
                        )
                    } else {
                        match best2 {
                            Some(b) => {
                                let mv = (
                                    cands[b].0.clone(),
                                    cands[b].1.clone(),
                                    cands[b].2.clone(),
                                );
                                let inst = cands[b].0.clone();
                                let cell = cands[b].2.clone();
                                let mut changed = changed;
                                let ghost old_changed = changed.deep_view();
                                changed.push(mv);
                                assert(changed.deep_view() =~= old_changed.push(
                                    cands.deep_view()[b as int],
                                ));
                                (
                                    Sizer { cfg, phase: Phase::UpsizeCommit, rounds, changed, area_list, down_at },
                                    Action::Commit { inst, cell },
                                )
                            },
                            None => (
                                Sizer { cfg, phase: Phase::AreaCheck, rounds, changed, area_list, down_at },
                                Action::CheckSetup,
                            ),
                        }
                    }
                },
                _ => vstd::pervasive::unreached(),
            },
            Phase::UpsizeCommit => match event {
                Event::Applied => {
                    let rounds = rounds + 1;
                    let phase = if cfg.objective == Objective::Timing && rounds < cfg.effort {
                        Phase::UpsizeCheck
                    } else {
                        Phase::AreaCheck
                    };
                    (Sizer { cfg, phase, rounds, changed, area_list, down_at }, Action::CheckSetup)
                },
                _ => vstd::pervasive::unreached(),
            },
            Phase::AreaCheck => match event {
                Event::SetupMet(met) => {
                    if met {
                        (
                            Sizer { cfg, phase: Phase::AreaList, rounds, changed, area_list, down_at },
                            Action::ReportInstances,
                        )
                    } else {
                        (Sizer { cfg, phase: Phase::Finished, rounds, changed, area_list, down_at }, Action::Finish)
                    }
                },
                _ => vstd::pervasive::unreached(),
            },
            Phase::AreaList => match event {
                Event::Instances(insts) => {
                    let area_list = Ghost(insts.deep_view());
                    Sizer::scan(cfg, rounds, changed, area_list, down_at, insts, 0)
                },
                _ => vstd::pervasive::unreached(),
            },
            Phase::AreaTrial { insts, next } => match event {
                Event::Downsized { still_met } => {
                    assert(insts.deep_view().len() == insts.len());
                    if still_met {
                        let to = weaker_variant(&cfg, insts[next].1.as_str());
                        match to {
                            Some(t) => {
                                let mv = (insts[next].0.clone(), insts[next].1.clone(), t);
                                let mut changed = changed;
                                let ghost old_changed = changed.deep_view();
                                let ghost mvv = (mv.0@, mv.1@, mv.2@);
                                changed.push(mv);
                                assert(changed.deep_view() =~= old_changed.push(mvv));
                                let down_at = Ghost(down_at@.push(next as nat));
                                Sizer::scan(cfg, rounds, changed, area_list, down_at, insts, next + 1)
                            },
                            None => vstd::pervasive::unreached(),
                        }
                    } else {
                        (
                            Sizer { cfg, phase: Phase::AreaRestore { insts, next }, rounds, changed, area_list, down_at },
                            Action::Restore,
                        )
                    }
                },
                _ => vstd::pervasive::unreached(),
            },
            Phase::AreaRestore { insts, next } => match event {
                Event::Applied => {
                    assert(insts.deep_view().len() == insts.len());
                    Sizer::scan(cfg, rounds, changed, area_list, down_at, insts, next + 1)
                },
                _ => vstd::pervasive::unreached(),
            },
            Phase::Finished => vstd::pervasive::unreached(),
        }
    }
}

/// Whether the event `e` answers the action that a run in phase `p` waits on.
pub open spec fn answers_spec(p: PhaseV, e: EventV) -> bool {
    match p {
        PhaseV::UpsizeCheck => e is SetupMet,
        PhaseV::UpsizePath => e is WorstPath,
        PhaseV::UpsizeTrial { .. } => e is Trial,
        PhaseV::UpsizeCommit => e is Applied,
        PhaseV::AreaCheck => e is SetupMet,
        PhaseV::AreaList => e is Instances,
        PhaseV::AreaTrial { .. } => e is Downsized,
        PhaseV::AreaRestore { .. } => e is Applied,
        PhaseV::Finished => false,
    }
}

// ---------------------------------------------------------------------------------------
// Laws

proof fn lemma_next_downsizable(cfg: CfgView, insts: Seq<(Seq<char>, Seq<char>)>, k: nat)
    ensures
        next_downsizable(cfg, insts, k) matches Some(j) ==> k <= j < insts.len()
            && downsize_move(cfg, insts[j as int]) is Some,
    decreases insts.len() - k,
{
    if k < insts.len() && downsize_move(cfg, insts[k as int]) is None {
        lemma_next_downsizable(cfg, insts, k + 1);
    }
}

/// Every candidate upsize is legal: its instance is not `dont_touch`, and its new cell is
/// the next stronger variant of its current cell.
pub proof fn lemma_candidates_valid(
    cfg: CfgView,
    labels: Seq<Seq<char>>,
    cells: Seq<(Seq<char>, Seq<char>)>,
)
    ensures
        forall|i: int|
            0 <= i < upsize_candidates_spec(cfg, labels, cells).len() ==> valid_upsize(
                cfg,
                #[trigger] upsize_candidates_spec(cfg, labels, cells)[i],
            ),
    decreases labels.len(),
{
    if labels.len() > 0 {
        lemma_candidates_valid(cfg, labels.drop_last(), cells);
        let prev = upsize_candidates_spec(cfg, labels.drop_last(), cells);
        let all = upsize_candidates_spec(cfg, labels, cells);
        assert forall|i: int| 0 <= i < all.len() implies valid_upsize(cfg, #[trigger] all[i]) by {
            if i < prev.len() {
                assert(all[i] == prev[i]);
            }
        }
    }
}

/// A fresh run satisfies the invariant [`wf`].
pub proof fn lemma_initial_wf(cfg: CfgView)
    ensures
        wf(initial(cfg).0),
{
}

/// Every step keeps the invariant [`wf`], whatever the timer reports.
pub proof fn lemma_next_keeps_wf(m: SizerView, e: EventV)
    requires
        wf(m),
    ensures
        wf(transition(m, e).0),
{
    match m.phase {
        PhaseV::UpsizePath => {
            match e {
                EventV::WorstPath { labels, cells } => {
                    lemma_candidates_valid(m.cfg, labels, cells);
                },
                _ => {},
            }
        },
        PhaseV::UpsizeTrial { cands, next, best } => {
            match e {
                EventV::Trial { improves, beats_best } => {
                    let r = transition(m, e).0;
                    if next + 1 >= cands.len() {
                        let best2 = if improves && (best is None || beats_best) {
                            Some(next)
                        } else {
                            best
                        };
                        if let Some(b) = best2 {
                            assert(valid_upsize(m.cfg, cands[b as int]));
                            assert forall|i: int| 0 <= i < upsizes_recorded(r) implies valid_upsize(
                                r.cfg,
                                #[trigger] r.changed[i],
                            ) by {
                                if i < m.changed.len() {
                                    assert(r.changed[i] == m.changed[i]);
                                }
                            }
                        }
                    }
                },
                _ => {},
            }
        },
        PhaseV::AreaList => {
            match e {
                EventV::Instances(insts) => {
                    lemma_next_downsizable(m.cfg, insts, 0);
                },
                _ => {},
            }
        },
        PhaseV::AreaTrial { insts, next } => {
            lemma_next_downsizable(m.cfg, insts, next + 1);
            match e {
                EventV::Downsized { still_met } => {
                    if still_met {
                        let mv = downsize_move(m.cfg, insts[next as int])->0;
                        let c2 = m.changed.push(mv);
                        assert(valid_downsize(m.cfg, mv));
                        assert forall|i: int| upsizes_recorded(m) <= i < c2.len() implies valid_downsize(
                            m.cfg,
                            #[trigger] c2[i],
                        ) by {
                            if i < m.changed.len() {
                                assert(c2[i] == m.changed[i]);
                            }
                        }
                        assert forall|i: int| 0 <= i < upsizes_recorded(m) implies valid_upsize(
                            m.cfg,
                            #[trigger] c2[i],
                        ) by {
                            assert(c2[i] == m.changed[i]);
                        }
                    }
                },
                _ => {},
            }
        },
        PhaseV::AreaRestore { insts, next } => {
            lemma_next_downsizable(m.cfg, insts, next + 1);
        },
        _ => {},
    }
}

/// Only the cell variant of an instance ever changes: every recorded swap moves an
/// instance that no `dont_touch` glob matches one step along its group. The upsizes come
/// first, at most `effort` of them and none under the area objective; the downsizes
/// follow.
pub proof fn lemma_recorded_swaps(m: SizerView)
    requires
        wf(m),
    ensures
        forall|i: int|
            0 <= i < m.changed.len() ==> !dont_touched(m.cfg.dont_touch, (#[trigger] m.changed[i]).0)
                && (upsize_target(m.cfg.groups, m.changed[i].1) == Some(m.changed[i].2)
                || downsize_target(m.cfg.groups, m.changed[i].1) == Some(m.changed[i].2)),
        upsizes_recorded(m) <= m.cfg.effort,
        upsizes_recorded(m) <= m.changed.len(),
        forall|i: int| 0 <= i < upsizes_recorded(m) ==> valid_upsize(m.cfg, #[trigger] m.changed[i]),
        forall|i: int|
            upsizes_recorded(m) <= i < m.changed.len() ==> valid_downsize(
                m.cfg,
                #[trigger] m.changed[i],
            ),
        m.cfg.objective == Objective::Area ==> forall|i: int|
            0 <= i < m.changed.len() ==> valid_downsize(m.cfg, #[trigger] m.changed[i]),
{
    assert forall|i: int| 0 <= i < m.changed.len() implies !dont_touched(
        m.cfg.dont_touch,
        (#[trigger] m.changed[i]).0,
    ) && (upsize_target(m.cfg.groups, m.changed[i].1) == Some(m.changed[i].2) || downsize_target(
        m.cfg.groups,
        m.changed[i].1,
    ) == Some(m.changed[i].2)) by {
        if i < upsizes_recorded(m) {
            assert(valid_upsize(m.cfg, m.changed[i]));
        } else {
            assert(valid_downsize(m.cfg, m.changed[i]));
        }
    }
}

/// Whether an action proposes only legal swaps: a trial or a commit moves an instance
/// that is not `dont_touch` to the next stronger variant of some cell, a trial downsize to
/// the next weaker one.
pub open spec fn proposes_legal_swap(cfg: CfgView, a: ActionV) -> bool {
    match a {
        ActionV::Trial { inst, cell } => !dont_touched(cfg.dont_touch, inst) && exists|c: Seq<
            char,
        >| upsize_target(cfg.groups, c) == Some(cell),
        ActionV::Commit { inst, cell } => !dont_touched(cfg.dont_touch, inst) && exists|c: Seq<
            char,
        >| upsize_target(cfg.groups, c) == Some(cell),
        ActionV::TryDownsize { inst, cell } => !dont_touched(cfg.dont_touch, inst) && exists|
            c: Seq<char>,
        | downsize_target(cfg.groups, c) == Some(cell),
        _ => true,
    }
}

/// The timer is only ever asked to try or commit legal swaps.
pub proof fn lemma_actions_propose_legal_swaps(m: SizerView, e: EventV)
    requires
        wf(m),
    ensures
        proposes_legal_swap(m.cfg, transition(m, e).1),
        proposes_legal_swap(m.cfg, pending_action(m)),
{
    lemma_next_keeps_wf(m, e);
    match m.phase {
        PhaseV::UpsizePath => {
            match e {
                EventV::WorstPath { labels, cells } => {
                    lemma_candidates_valid(m.cfg, labels, cells);
                    let c = upsize_candidates_spec(m.cfg, labels, cells);
                    if c.len() > 0 {
                        assert(valid_upsize(m.cfg, c[0]));
                        assert(upsize_target(m.cfg.groups, c[0].1) == Some(c[0].2));
                    }
                },
                _ => {},
            }
        },
        PhaseV::UpsizeTrial { cands, next, best } => {
            assert(valid_upsize(m.cfg, cands[next as int]));
            assert(upsize_target(m.cfg.groups, cands[next as int].1) == Some(cands[next as int].2));
            match e {
                EventV::Trial { improves, beats_best } => {
                    if next + 1 < cands.len() {
                        let c = cands[next + 1 as int];
                        assert(valid_upsize(m.cfg, c));
                        assert(upsize_target(m.cfg.groups, c.1) == Some(c.2));
                    } else {
                        let best2 = if improves && (best is None || beats_best) {
                            Some(next)
                        } else {
                            best
                        };
                        if let Some(b) = best2 {
                            let c = cands[b as int];
                            assert(valid_upsize(m.cfg, c));
                            assert(upsize_target(m.cfg.groups, c.1) == Some(c.2));
                        }
                    }
                },
                _ => {},
            }
        },
        PhaseV::UpsizeCommit => {
            let c = m.changed.last();
            assert(valid_upsize(m.cfg, m.changed[m.changed.len() - 1]));
            assert(upsize_target(m.cfg.groups, c.1) == Some(c.2));
        },
        PhaseV::AreaList => {
            match e {
                EventV::Instances(insts) => {
                    lemma_next_downsizable(m.cfg, insts, 0);
                    if let Some(j) = next_downsizable(m.cfg, insts, 0) {
                        assert(downsize_target(m.cfg.groups, insts[j as int].1) is Some);
                    }
                },
                _ => {},
            }
        },
        PhaseV::AreaTrial { insts, next } => {
            lemma_next_downsizable(m.cfg, insts, next + 1);
            assert(downsize_target(m.cfg.groups, insts[next as int].1) is Some);
            if let Some(j) = next_downsizable(m.cfg, insts, next + 1) {
                assert(downsize_target(m.cfg.groups, insts[j as int].1) is Some);
            }
        },
        PhaseV::AreaRestore { insts, next } => {
            lemma_next_downsizable(m.cfg, insts, next + 1);
            if let Some(j) = next_downsizable(m.cfg, insts, next + 1) {
                assert(downsize_target(m.cfg.groups, insts[j as int].1) is Some);
            }
        },
        _ => {},
    }
}

/// Every candidate of a round is an instance of a node on the worst path, taken at its
/// current cell in the netlist, and no instance is a candidate twice.
pub proof fn lemma_candidates_on_path(
    cfg: CfgView,
    labels: Seq<Seq<char>>,
    cells: Seq<(Seq<char>, Seq<char>)>,
)
    ensures
        forall|i: int|
            0 <= i < upsize_candidates_spec(cfg, labels, cells).len() ==> {
                let c = #[trigger] upsize_candidates_spec(cfg, labels, cells)[i];
                &&& seen_insts(labels).contains(c.0)
                &&& cell_in(cells, c.0) == Some(c.1)
            },
        forall|i: int, j: int|
            0 <= i < j < upsize_candidates_spec(cfg, labels, cells).len() ==> (
            #[trigger] upsize_candidates_spec(cfg, labels, cells)[i]).0
                != (#[trigger] upsize_candidates_spec(cfg, labels, cells)[j]).0,
    decreases labels.len(),
{
    if labels.len() > 0 {
        let earlier = labels.drop_last();
        lemma_candidates_on_path(cfg, earlier, cells);
        let prev = upsize_candidates_spec(cfg, earlier, cells);
        let all = upsize_candidates_spec(cfg, labels, cells);
        let seen0 = seen_insts(earlier);
        let seen1 = seen_insts(labels);
        assert forall|x: Seq<char>| seen0.contains(x) implies seen1.contains(x) by {
            let k = choose|k: int| 0 <= k < seen0.len() && seen0[k] == x;
            if inst_of_label(labels.last()) is Some {
                assert(seen1[k] == x);
            }
        }
        assert forall|i: int| 0 <= i < all.len() implies {
            let c = #[trigger] all[i];
            &&& seen1.contains(c.0)
            &&& cell_in(cells, c.0) == Some(c.1)
        } by {
            if i < prev.len() {
                assert(all[i] == prev[i]);
                assert(seen0.contains(prev[i].0));
            } else {
                let inst = inst_of_label(labels.last())->0;
                assert(seen1[seen1.len() - 1] == inst);
            }
        }
        assert forall|i: int, j: int| 0 <= i < j < all.len() implies (#[trigger] all[i]).0 != (
        #[trigger] all[j]).0 by {
            assert(all[i] == prev[i]);
            if j < prev.len() {
                assert(all[j] == prev[j]);
            } else {
                assert(seen0.contains(prev[i].0));
            }
        }
    }
}

/// Area recovery is one pass over the instances: each step moves on to a later instance
/// of the same list, so no instance is tried twice.
pub proof fn lemma_area_pass_moves_forward(m: SizerView, e: EventV)
    requires
        wf(m),
    ensures
        match (m.phase, transition(m, e).0.phase) {
            (PhaseV::AreaTrial { insts, next }, PhaseV::AreaTrial { insts: insts2, next: next2 }) =>
                insts2 == insts && (next2 > next || (next2 == next && transition(m, e).0 == m)),
            (PhaseV::AreaRestore { insts, next }, PhaseV::AreaTrial { insts: insts2, next: next2 }) =>
                insts2 == insts && next2 > next,
            (PhaseV::AreaTrial { insts, next }, PhaseV::AreaRestore { insts: insts2, next: next2 }) =>
                insts2 == insts && next2 == next,
            _ => true,
        },
{
    match m.phase {
        PhaseV::AreaTrial { insts, next } => {
            lemma_next_downsizable(m.cfg, insts, next + 1);
        },
        PhaseV::AreaRestore { insts, next } => {
            lemma_next_downsizable(m.cfg, insts, next + 1);
        },
        _ => {},
    }
}

/// Area recovery keeps its downsizes in the order of the instance list it was given: the
/// k-th kept downsize is the one offered by the instance at position `down_at[k]` of that
/// list, taken at its listed cell, and the positions strictly increase. So when the list
/// names each instance once, no instance is downsized twice.
pub proof fn lemma_downsizes_follow_the_list(m: SizerView)
    requires
        wf(m),
    ensures
        upsizes_recorded(m) + m.down_at.len() == m.changed.len(),
        forall|k: int|
            0 <= k < m.down_at.len() ==> #[trigger] m.down_at[k] < m.area_list.len()
                && downsize_move(m.cfg, m.area_list[m.down_at[k] as int]) == Some(
                m.changed[upsizes_recorded(m) + k],
            ),
        forall|k1: int, k2: int|
            0 <= k1 < k2 < m.down_at.len() ==> #[trigger] m.down_at[k1] < #[trigger] m.down_at[k2],
        (forall|i: int, j: int|
            0 <= i < j < m.area_list.len() ==> (#[trigger] m.area_list[i]).0 != (
            #[trigger] m.area_list[j]).0) ==> forall|k1: int, k2: int|
            upsizes_recorded(m) <= k1 < k2 < m.changed.len() ==> (#[trigger] m.changed[k1]).0 != (
            #[trigger] m.changed[k2]).0,
{
    let u = upsizes_recorded(m);
    if forall|i: int, j: int|
        0 <= i < j < m.area_list.len() ==> (#[trigger] m.area_list[i]).0 != (
        #[trigger] m.area_list[j]).0 {
        assert forall|k1: int, k2: int| u <= k1 < k2 < m.changed.len() implies (
        #[trigger] m.changed[k1]).0 != (#[trigger] m.changed[k2]).0 by {
            let p1 = m.down_at[k1 - u];
            let p2 = m.down_at[k2 - u];
            assert(p1 < p2);
            assert(downsize_move(m.cfg, m.area_list[p1 as int]) == Some(m.changed[u + (k1 - u)]));
            assert(downsize_move(m.cfg, m.area_list[p2 as int]) == Some(m.changed[u + (k2 - u)]));
            assert(m.changed[k1].0 == m.area_list[p1 as int].0);
            assert(m.changed[k2].0 == m.area_list[p2 as int].0);
        }
    }
}

/// The instance list of area recovery is given once per run: only the answer to the
/// request for instances sets it, and no other step changes it.
pub proof fn lemma_area_list_given_once(m: SizerView, e: EventV)
    ensures
        (m.phase is AreaList && e is Instances) ==> transition(m, e).0.area_list == e->Instances_0,
        !(m.phase is AreaList && e is Instances) ==> transition(m, e).0.area_list == m.area_list,
{
}

/// Upsizing ends only for a reason: setup is reported met, the worst path offers no
/// candidate, no candidate of the round improved without breaking hold, or the effort
/// budget is spent. Otherwise each round commits the best improving candidate.
pub proof fn lemma_upsizing_ends_for_a_reason(m: SizerView, e: EventV)
    requires
        wf(m),
        m.phase is UpsizeCheck || m.phase is UpsizePath || m.phase is UpsizeTrial || m.phase is UpsizeCommit,
        transition(m, e).0.phase is AreaCheck,
    ensures
        match m.phase {
            PhaseV::UpsizeCheck => e == EventV::SetupMet(true),
            PhaseV::UpsizePath => e matches EventV::WorstPath { labels, cells }
                && upsize_candidates_spec(m.cfg, labels, cells).len() == 0,
            PhaseV::UpsizeTrial { cands, next, best } => e matches EventV::Trial {
                improves,
                beats_best,
            } && next + 1 == cands.len() && best is None && !improves,
            PhaseV::UpsizeCommit => e == EventV::Applied && m.rounds + 1 == m.cfg.effort,
            _ => false,
        },
{
}

/// The first instance at or after `k` that offers a downsize is the one found.
proof fn lemma_first_downsizable(
    cfg: CfgView,
    insts: Seq<(Seq<char>, Seq<char>)>,
    k: nat,
    j: nat,
)
    requires
        k <= j < insts.len(),
        downsize_move(cfg, insts[j as int]) is Some,
        forall|i: int| k <= i < j ==> downsize_move(cfg, #[trigger] insts[i]) is None,
    ensures
        next_downsizable(cfg, insts, k) == Some(j),
    decreases j - k,
{
    if k < j {
        lemma_first_downsizable(cfg, insts, k + 1, j);
    }
}

/// When no instance at or after `k` offers a downsize, none is found.
proof fn lemma_none_downsizable(cfg: CfgView, insts: Seq<(Seq<char>, Seq<char>)>, k: nat)
    requires
        forall|i: int| k <= i < insts.len() ==> downsize_move(cfg, #[trigger] insts[i]) is None,
    ensures
        next_downsizable(cfg, insts, k) is None,
    decreases insts.len() - k,
{
    if k < insts.len() {
        lemma_none_downsizable(cfg, insts, k + 1);
    }
}

/// Where area recovery resumes after an event: at the start of a newly given list, after a
/// kept downsize, or after an undone one; `None` for any other step.
pub open spec fn pass_resumes_at(m: SizerView, e: EventV) -> Option<
    (Seq<(Seq<char>, Seq<char>)>, nat),
> {
    match m.phase {
        PhaseV::AreaList => match e {
            EventV::Instances(insts) => Some((insts, 0)),
            _ => None,
        },
        PhaseV::AreaTrial { insts, next } => match e {
            EventV::Downsized { still_met } => if still_met {
                Some((insts, next + 1))
            } else {
                None
            },
            _ => None,
        },
        PhaseV::AreaRestore { insts, next } => match e {
            EventV::Applied => Some((insts, next + 1)),
            _ => None,
        },
        _ => None,
    }
}

/// Area recovery visits every instance that offers a downsize: wherever the pass resumes
/// (a new list, after a kept downsize, after an undone one), the next action is to try the
/// first instance from there on that offers a downsize, at its next weaker variant; the
/// run finishes only when no later instance offers one.
pub proof fn lemma_area_pass_goes_on(m: SizerView, e: EventV)
    requires
        wf(m),
        pass_resumes_at(m, e) is Some,
    ensures
        ({
            let insts = (pass_resumes_at(m, e)->0).0;
            let k = (pass_resumes_at(m, e)->0).1;
            let r = transition(m, e);
            &&& forall|j: int|
                k <= j < insts.len() && downsize_move(m.cfg, #[trigger] insts[j]) is Some && (
                forall|i: int| k <= i < j ==> downsize_move(m.cfg, #[trigger] insts[i]) is None)
                    ==> r.1 == ActionV::TryDownsize {
                    inst: insts[j].0,
                    cell: downsize_target(m.cfg.groups, insts[j].1)->0,
                } && r.0.phase == PhaseV::AreaTrial { insts, next: j as nat }
            &&& (forall|i: int| k <= i < insts.len() ==> downsize_move(m.cfg, #[trigger] insts[i]) is None)
                ==> r.1 == ActionV::Finish && r.0.phase is Finished
        }),
{
    let insts = (pass_resumes_at(m, e)->0).0;
    let k = (pass_resumes_at(m, e)->0).1;
    assert forall|j: int|
        k <= j < insts.len() && downsize_move(m.cfg, #[trigger] insts[j]) is Some && (forall|i: int|
            k <= i < j ==> downsize_move(m.cfg, #[trigger] insts[i]) is None) implies transition(m, e).1
        == ActionV::TryDownsize {
        inst: insts[j].0,
        cell: downsize_target(m.cfg.groups, insts[j].1)->0,
    } && transition(m, e).0.phase == PhaseV::AreaTrial { insts, next: j as nat } by {
        lemma_first_downsizable(m.cfg, insts, k, j as nat);
    }
    if forall|i: int| k <= i < insts.len() ==> downsize_move(m.cfg, #[trigger] insts[i]) is None {
        lemma_none_downsizable(m.cfg, insts, k);
    }
}

/// A downsize is kept exactly when setup stays met (and hold no worse): then it is
/// recorded as the instance's move to its next weaker variant; otherwise nothing is
/// recorded and the caller is told to undo it.
pub proof fn lemma_downsize_kept_or_undone(m: SizerView, still_met: bool)
    requires
        wf(m),
        m.phase is AreaTrial,
    ensures
        ({
            let insts = m.phase->AreaTrial_insts;
            let next = m.phase->AreaTrial_next;
            let r = transition(m, EventV::Downsized { still_met });
            &&& still_met ==> r.0.changed == m.changed.push(
                (insts[next as int].0, insts[next as int].1, downsize_target(
                    m.cfg.groups,
                    insts[next as int].1,
                )->0),
            )
            &&& !still_met ==> r.1 == ActionV::Restore && r.0.changed == m.changed
                && r.0.phase == PhaseV::AreaRestore { insts, next }
        }),
{
    lemma_next_downsizable(m.cfg, m.phase->AreaTrial_insts, m.phase->AreaTrial_next + 1);
}

/// The instances of the labels seen so far are instances of those labels.
proof fn lemma_seen_insts_from_labels(labels: Seq<Seq<char>>, x: Seq<char>)
    requires
        seen_insts(labels).contains(x),
    ensures
        exists|j: int| 0 <= j < labels.len() && inst_of_label(#[trigger] labels[j]) == Some(x),
    decreases labels.len(),
{
    let p = labels.drop_last();
    let sp = seen_insts(p);
    let k = choose|k: int| 0 <= k < seen_insts(labels).len() && seen_insts(labels)[k] == x;
    if k < sp.len() {
        assert(sp[k] == x);
        lemma_seen_insts_from_labels(p, x);
        let j = choose|j: int| 0 <= j < p.len() && inst_of_label(#[trigger] p[j]) == Some(x);
        assert(labels[j] == p[j]);
    } else {
        assert(labels[labels.len() - 1] == labels.last());
    }
}

/// Every instance on the worst path is a candidate when it is met there for the first
/// time, is not `dont_touch`, is in the netlist and its cell has a stronger variant,
/// whatever the other instances of the path are.
pub proof fn lemma_candidates_complete(
    cfg: CfgView,
    labels: Seq<Seq<char>>,
    cells: Seq<(Seq<char>, Seq<char>)>,
    i: int,
    inst: Seq<char>,
    cur: Seq<char>,
    to: Seq<char>,
)
    requires
        0 <= i < labels.len(),
        inst_of_label(labels[i]) == Some(inst),
        forall|j: int| 0 <= j < i ==> inst_of_label(#[trigger] labels[j]) != Some(inst),
        !dont_touched(cfg.dont_touch, inst),
        cell_in(cells, inst) == Some(cur),
        upsize_target(cfg.groups, cur) == Some(to),
    ensures
        upsize_candidates_spec(cfg, labels, cells).contains((inst, cur, to)),
    decreases labels.len(),
{
    let p = labels.drop_last();
    let prev = upsize_candidates_spec(cfg, p, cells);
    let all = upsize_candidates_spec(cfg, labels, cells);
    if i == labels.len() - 1 {
        if seen_insts(p).contains(inst) {
            lemma_seen_insts_from_labels(p, inst);
            let j = choose|j: int| 0 <= j < p.len() && inst_of_label(#[trigger] p[j]) == Some(inst);
            assert(labels[j] == p[j]);
        }
        assert(labels.last() == labels[i]);
        assert(all == prev.push((inst, cur, to)));
        assert(all[all.len() - 1] == (inst, cur, to));
    } else {
        assert forall|j: int| 0 <= j < i implies inst_of_label(#[trigger] p[j]) != Some(inst) by {
            assert(p[j] == labels[j]);
        }
        assert(p[i] == labels[i]);
        lemma_candidates_complete(cfg, p, cells, i, inst, cur, to);
        let k = choose|k: int| 0 <= k < prev.len() && prev[k] == (inst, cur, to);
        assert(all[k] == prev[k]);
    }
}

/// A caller's honest answer to a trial: whether candidate `next` improves, and whether its
/// score (its WNS) is above that of the best so far.
pub open spec fn scored_trial(m: SizerView, improves: Seq<bool>, scores: Seq<int>) -> EventV {
    match m.phase {
        PhaseV::UpsizeTrial { cands, next, best } => EventV::Trial {
            improves: improves[next as int],
            beats_best: match best {
                Some(b) => scores[next as int] > scores[b as int],
                None => true,
            },
        },
        _ => EventV::Applied,
    }
}

/// The run after `k` trials answered honestly.
pub open spec fn after_scored_trials(
    m: SizerView,
    improves: Seq<bool>,
    scores: Seq<int>,
    k: nat,
) -> SizerView
    decreases k,
{
    if k == 0 {
        m
    } else {
        let p = after_scored_trials(m, improves, scores, (k - 1) as nat);
        transition(p, scored_trial(p, improves, scores)).0
    }
}

/// Candidate `b` is the best of the first `k`: it improves, no improving one scores
/// higher, and every improving one before it scores lower.
pub open spec fn best_of(improves: Seq<bool>, scores: Seq<int>, b: int, k: int) -> bool {
    &&& 0 <= b < k
    &&& improves[b]
    &&& forall|j: int| 0 <= j < k && #[trigger] improves[j] ==> scores[j] <= scores[b]
    &&& forall|j: int| 0 <= j < b && #[trigger] improves[j] ==> scores[j] < scores[b]
}

proof fn lemma_scored_prefix(m: SizerView, improves: Seq<bool>, scores: Seq<int>, k: nat)
    requires
        wf(m),
        m.phase is UpsizeTrial,
        m.phase->UpsizeTrial_next == 0,
        m.phase->UpsizeTrial_best is None,
        improves.len() == m.phase->UpsizeTrial_cands.len(),
        scores.len() == m.phase->UpsizeTrial_cands.len(),
        k < m.phase->UpsizeTrial_cands.len(),
    ensures
        ({
            let r = after_scored_trials(m, improves, scores, k);
            &&& r.phase is UpsizeTrial
            &&& r.phase->UpsizeTrial_cands == m.phase->UpsizeTrial_cands
            &&& r.phase->UpsizeTrial_next == k
            &&& r.cfg == m.cfg && r.rounds == m.rounds && r.changed == m.changed
            &&& (r.phase->UpsizeTrial_best is None <==> forall|j: int| 0 <= j < k ==> !improves[j])
            &&& (r.phase->UpsizeTrial_best matches Some(b) ==> best_of(improves, scores, b as int, k as int))
        }),
    decreases k,
{
    if k > 0 {
        lemma_scored_prefix(m, improves, scores, (k - 1) as nat);
        let p = after_scored_trials(m, improves, scores, (k - 1) as nat);
        let kk = (k - 1) as int;
        match p.phase->UpsizeTrial_best {
            Some(b) => {
                if improves[kk] && scores[kk] > scores[b as int] {
                    assert(best_of(improves, scores, kk, k as int));
                } else {
                    assert(best_of(improves, scores, b as int, k as int));
                }
            },
            None => {
                if improves[kk] {
                    assert(best_of(improves, scores, kk, k as int));
                }
            },
        }
    }
}

/// Each upsize round commits the best candidate: answered honestly with each candidate's
/// WNS as its score, a round commits the improving candidate with the highest WNS (the
/// first of equals), and leaves upsizing with nothing recorded when none improves.
pub proof fn lemma_round_commits_the_best(m: SizerView, improves: Seq<bool>, scores: Seq<int>)
    requires
        wf(m),
        m.phase is UpsizeTrial,
        m.phase->UpsizeTrial_next == 0,
        m.phase->UpsizeTrial_best is None,
        improves.len() == m.phase->UpsizeTrial_cands.len(),
        scores.len() == m.phase->UpsizeTrial_cands.len(),
    ensures
        ({
            let cands = m.phase->UpsizeTrial_cands;
            let n = cands.len();
            let r = after_scored_trials(m, improves, scores, n);
            &&& (forall|j: int| 0 <= j < n ==> !improves[j]) ==> r.phase is AreaCheck && r.changed
                == m.changed
            &&& (exists|j: int| 0 <= j < n && improves[j]) ==> exists|b: int|
                best_of(improves, scores, b, n as int) && r.phase is UpsizeCommit && r.changed
                    == m.changed.push(#[trigger] cands[b])
        }),
{
    let cands = m.phase->UpsizeTrial_cands;
    let n = cands.len();
    lemma_scored_prefix(m, improves, scores, (n - 1) as nat);
    let p = after_scored_trials(m, improves, scores, (n - 1) as nat);
    let kk = n - 1;
    assert(after_scored_trials(m, improves, scores, n) == transition(
        p,
        scored_trial(p, improves, scores),
    ).0);
    match p.phase->UpsizeTrial_best {
        Some(b) => {
            if improves[kk] && scores[kk] > scores[b as int] {
                assert(best_of(improves, scores, kk, n as int));
            } else {
                assert(best_of(improves, scores, b as int, n as int));
            }
        },
        None => {
            if improves[kk] {
                assert(best_of(improves, scores, kk, n as int));
            } else {
                assert forall|j: int| 0 <= j < n implies !improves[j] by {
                    if j < kk {
                    }
                }
            }
        },
    }
}

/// Once a run has finished, it stays finished and keeps asking for nothing more.
pub proof fn lemma_finished_stays(m: SizerView, e: EventV)
    requires
        m.phase is Finished,
    ensures
        transition(m, e) == (m, ActionV::Finish),
{
}

} // verus!
