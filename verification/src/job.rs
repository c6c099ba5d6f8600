//! The resize knobs of a `.resize` job file, and the instance-name globs.
//!
//! A `.resize` file is a superset of a timing job. Besides the timing keys it carries:
//!
//! ```text
//! group:      INV INV2 INV4        # interchangeable cells, weakest -> strongest (repeatable)
//! group:      NAND2 NAND2X2
//! objective:  timing               # timing | area  (default: timing)
//! effort:     medium               # low | medium | high  (iteration budget)
//! dont_touch: clk_* *scan*         # instance-name globs to leave alone
//! ```

use vstd::prelude::*;

use crate::text::{
    after, before, chars_of, lemma_split_pieces_then, contains_seq, ends_with, find_char, has_char, lemma_split_fold_step,
    range_eq, same_text, split_fold, split_non_empty, in_class, split_pieces, starts_with, strip, strip_range,
    trim, trimmed_non_empty, words, CharClass,
};

verus! {

/// What to optimize for.
#[derive(Clone, Copy, Debug, PartialEq, Eq, Structural)]
pub enum Objective {
    /// Close setup WNS (upsize critical paths), then recover area where slack allows.
    Timing,
    /// Recover area/leakage (downsize positive-slack cells) while keeping timing met.
    Area,
}

/// The resize-specific configuration (everything beyond the timing setup).
#[derive(Clone, Debug)]
pub struct ResizeCfg {
    /// Interchangeable cell families, each ordered weakest → strongest.
    pub groups: Vec<Vec<String>>,
    pub objective: Objective,
    /// Iteration budget (derived from `effort:`).
    pub effort: usize,
    /// Instance-name globs (supporting a leading/trailing `*`) to never modify.
    pub dont_touch: Vec<String>,
}

/// The mathematical content of a [`ResizeCfg`].
pub struct CfgView {
    pub groups: Seq<Seq<Seq<char>>>,
    pub objective: Objective,
    pub effort: nat,
    pub dont_touch: Seq<Seq<char>>,
}

impl View for ResizeCfg {
    type V = CfgView;

    open spec fn view(&self) -> CfgView {
        CfgView {
            groups: self.groups.deep_view(),
            objective: self.objective,
            effort: self.effort as nat,
            dont_touch: self.dont_touch.deep_view(),
        }
    }
}

// ---------------------------------------------------------------------------------------
// What std computes for us

/// What `str::to_lowercase` returns for a string with these characters.
pub uninterp spec fn lowercase(s: Seq<char>) -> Seq<char>;

/// What `format!("{:?}", s)` returns for a string slice `s` with these characters:
/// the string quoted and escaped.
pub uninterp spec fn debug_quoted(s: Seq<char>) -> Seq<char>;

/// Calls `str::to_lowercase`; its result is named [`lowercase`] of the argument, since the
/// Unicode case mapping is a function of the characters alone.
#[verifier::external_body]
fn to_lower(s: &str) -> (r: String)
    ensures
        r@ == lowercase(s@),
{
    s.to_lowercase()
}

/// Calls `<str as Debug>::fmt` through `format!`; the result is named [`debug_quoted`] of
/// the argument. Nothing more of the escaping is stated.
#[verifier::external_body]
fn quote(s: &str) -> (r: String)
    ensures
        r@ == debug_quoted(s@),
{
    format!("{:?}", s)
}

// ---------------------------------------------------------------------------------------
// Specification of the job-file reading

/// The knobs read so far while going through the lines of a job file.
pub struct CfgAccView {
    pub groups: Seq<Seq<Seq<char>>>,
    pub objective: Objective,
    pub effort_word: Seq<char>,
    pub dont_touch: Seq<Seq<char>>,
}

/// Before the first line: no groups, objective timing, effort `medium`, nothing untouchable.
pub open spec fn initial_acc() -> CfgAccView {
    CfgAccView {
        groups: seq![],
        objective: Objective::Timing,
        effort_word: "medium"@,
        dont_touch: seq![],
    }
}

/// A line's `key: value` entry: the text before the first `#`, trimmed, split at its first
/// `:`, each side trimmed. `None` when there is no `:`.
pub open spec fn line_entry(line: Seq<char>) -> Option<(Seq<char>, Seq<char>)> {
    let content = trim(before(line, '#'));
    if has_char(content, ':') {
        Some((trim(before(content, ':')), trim(after(content, ':'))))
    } else {
        None
    }
}

/// The error for an `objective:` value that is neither `timing` nor `area` (lower-cased).
pub open spec fn objective_error(word: Seq<char>) -> Seq<char> {
    "objective must be timing|area, got "@ + debug_quoted(word)
}

/// The error for an `effort:` value that is not `low`, `medium` or `high` (lower-cased).
pub open spec fn effort_error(word: Seq<char>) -> Seq<char> {
    "effort must be low|medium|high, got "@ + debug_quoted(word)
}

/// The instance-name globs of a `dont_touch:` value: split at `,` and ` `, each piece
/// trimmed, the empty ones dropped.
pub open spec fn dont_touch_globs(value: Seq<char>) -> Seq<Seq<char>> {
    trimmed_non_empty(split_pieces(value, CharClass::CommaOrSpace))
}

/// One entry applied to the knobs read so far. `key` and `value_lower` are lower-cased,
/// `value` is as written.
pub open spec fn apply_entry_spec(
    acc: CfgAccView,
    key: Seq<char>,
    value: Seq<char>,
    value_lower: Seq<char>,
) -> Result<CfgAccView, Seq<char>> {
    if key == "group"@ {
        let g = words(value);
        if g.len() >= 2 {
            Ok(CfgAccView { groups: acc.groups.push(g), ..acc })
        } else {
            Ok(acc)
        }
    } else if key == "objective"@ {
        if value_lower == "area"@ {
            Ok(CfgAccView { objective: Objective::Area, ..acc })
        } else if value_lower == "timing"@ {
            Ok(CfgAccView { objective: Objective::Timing, ..acc })
        } else {
            Err(objective_error(value_lower))
        }
    } else if key == "effort"@ {
        Ok(CfgAccView { effort_word: value_lower, ..acc })
    } else if key == "dont_touch"@ {
        Ok(CfgAccView { dont_touch: acc.dont_touch + dont_touch_globs(value), ..acc })
    } else {
        Ok(acc)
    }
}

/// One line of the job file applied to the knobs read so far.
pub open spec fn apply_line_spec(acc: CfgAccView, line: Seq<char>) -> Result<CfgAccView, Seq<char>> {
    match line_entry(line) {
        None => Ok(acc),
        Some((k, v)) => apply_entry_spec(acc, lowercase(k), v, lowercase(v)),
    }
}

/// The lines applied in order; the first error stops the reading.
pub open spec fn apply_lines(lines: Seq<Seq<char>>) -> Result<CfgAccView, Seq<char>>
    decreases lines.len(),
{
    if lines.len() == 0 {
        Ok(initial_acc())
    } else {
        match apply_lines(lines.drop_last()) {
            Err(e) => Err(e),
            Ok(acc) => apply_line_spec(acc, lines.last()),
        }
    }
}

/// The iteration budget of an effort word: `low` 20, `medium` 100, `high` 500.
pub open spec fn effort_budget(word: Seq<char>) -> Option<nat> {
    if word == "low"@ {
        Some(20)
    } else if word == "medium"@ {
        Some(100)
    } else if word == "high"@ {
        Some(500)
    } else {
        None
    }
}

/// The configuration made of the knobs read, or the effort error.
pub open spec fn finish_spec(acc: CfgAccView) -> Result<CfgView, Seq<char>> {
    match effort_budget(acc.effort_word) {
        None => Err(effort_error(acc.effort_word)),
        Some(e) => Ok(
            CfgView {
                groups: acc.groups,
                objective: acc.objective,
                effort: e,
                dont_touch: acc.dont_touch,
            },
        ),
    }
}

/// What [`parse_cfg`] makes of a job text: its `\n`-separated lines applied in order, then
/// the effort word turned into a budget.
pub open spec fn parse_cfg_spec(text: Seq<char>) -> Result<CfgView, Seq<char>> {
    match apply_lines(split_pieces(text, CharClass::Newline)) {
        Err(e) => Err(e),
        Ok(acc) => finish_spec(acc),
    }
}

// ---------------------------------------------------------------------------------------
// Reading the job file

/// The knobs read so far while going through a job file's lines.
pub struct CfgBuilder {
    groups: Vec<Vec<String>>,
    objective: Objective,
    effort_word: String,
    dont_touch: Vec<String>,
}

impl View for CfgBuilder {
    type V = CfgAccView;

    closed spec fn view(&self) -> CfgAccView {
        CfgAccView {
            groups: self.groups.deep_view(),
            objective: self.objective,
            effort_word: self.effort_word@,
            dont_touch: self.dont_touch.deep_view(),
        }
    }
}

impl CfgBuilder {
    /// The knobs before any line: no groups, objective timing, effort `medium`.
    pub fn new() -> (b: CfgBuilder)
        ensures
            b@ == initial_acc(),
    {
        let b = CfgBuilder {
            groups: Vec::new(),
            objective: Objective::Timing,
            effort_word: String::from_str("medium"),
            dont_touch: Vec::new(),
        };
        assert(b.groups.deep_view() =~= Seq::<Seq<Seq<char>>>::empty());
        assert(b.dont_touch.deep_view() =~= Seq::<Seq<char>>::empty());
        b
    }

    /// Applies one `key: value` entry, given the key and the value lower-cased as well as
    /// the value as written. On `Err` the builder is left as it was.
    pub fn apply_entry(&mut self, key: &str, value: &str, value_lower: &str) -> (r: Result<
        (),
        String,
    >)
        ensures
            match apply_entry_spec(old(self)@, key@, value@, value_lower@) {
                Ok(acc) => r is Ok && final(self)@ == acc,
                Err(e) => r matches Err(m) && m@ == e && final(self)@ == old(self)@,
            },
    {
        if same_text(key, "group") {
            let g = split_non_empty(value, CharClass::Whitespace, false);
            if g.len() >= 2 {
                let ghost old_groups = self.groups.deep_view();
                let ghost gv = g.deep_view();
                self.groups.push(g);
                assert(self.groups.deep_view() =~= old_groups.push(gv));
            }
            Ok(())
        } else if same_text(key, "objective") {
            if same_text(value_lower, "area") {
                self.objective = Objective::Area;
                Ok(())
            } else if same_text(value_lower, "timing") {
                self.objective = Objective::Timing;
                Ok(())
            } else {
                let mut m = String::from_str("objective must be timing|area, got ");
                let q = quote(value_lower);
                m.append(q.as_str());
                Err(m)
            }
        } else if same_text(key, "effort") {
            self.effort_word = String::from_str(value_lower);
            Ok(())
        } else if same_text(key, "dont_touch") {
            let mut globs = split_non_empty(value, CharClass::CommaOrSpace, true);
            let ghost old_dt = self.dont_touch.deep_view();
            let ghost gv = globs.deep_view();
            self.dont_touch.append(&mut globs);
            assert(self.dont_touch.deep_view() =~= old_dt + gv);
            Ok(())
        } else {
            Ok(())
        }
    }

    /// The configuration made of the knobs read: the effort word becomes the budget.
    pub fn finish(self) -> (r: Result<ResizeCfg, String>)
        ensures
            match finish_spec(self@) {
                Ok(c) => r matches Ok(cfg) && cfg@ == c,
                Err(e) => r matches Err(m) && m@ == e,
            },
    {
        let effort: usize = if same_text(self.effort_word.as_str(), "low") {
            20
        } else if same_text(self.effort_word.as_str(), "medium") {
            100
        } else if same_text(self.effort_word.as_str(), "high") {
            500
        } else {
            let mut m = String::from_str("effort must be low|medium|high, got ");
            let q = quote(self.effort_word.as_str());
            m.append(q.as_str());
            return Err(m);
        };
        Ok(
            ResizeCfg {
                groups: self.groups,
                objective: self.objective,
                effort,
                dont_touch: self.dont_touch,
            },
        )
    }
}

/// The bounds of the key and the value of the line `v[lo..hi]`, as [`line_entry`] gives
/// them.
fn line_bounds(v: &Vec<char>, lo: usize, hi: usize) -> (r: Option<(usize, usize, usize, usize)>)
    requires
        lo <= hi <= v.len(),
    ensures
        match line_entry(v@.subrange(lo as int, hi as int)) {
            None => r is None,
            Some((k, val)) => r matches Some((a, b, c, d)) && a <= b <= v.len() && c <= d
                <= v.len() && v@.subrange(a as int, b as int) == k && v@.subrange(
                c as int,
                d as int,
            ) == val,
        },
{
    let ghost line = v@.subrange(lo as int, hi as int);
    let h = find_char(v, lo, hi, '#');
    assert(before(line, '#') =~= v@.subrange(lo as int, h as int));
    let (a, b) = strip_range(v, lo, h, CharClass::Whitespace);
    let ghost content = v@.subrange(a as int, b as int);
    let c = find_char(v, a, b, ':');
    if c == b {
        None
    } else {
        assert(before(content, ':') =~= v@.subrange(a as int, c as int));
        assert(after(content, ':') =~= v@.subrange(c + 1, b as int));
        let (ka, kb) = strip_range(v, a, c, CharClass::Whitespace);
        let (va, vb) = strip_range(v, c + 1, b, CharClass::Whitespace);
        Some((ka, kb, va, vb))
    }
}

/// Applies the line `text[lo..hi]` (characters `v`) to the builder.
fn apply_line(b: &mut CfgBuilder, text: &str, v: &Vec<char>, lo: usize, hi: usize) -> (r: Result<
    (),
    String,
>)
    requires
        v@ == text@,
        lo <= hi <= v.len(),
    ensures
        match apply_line_spec(old(b)@, v@.subrange(lo as int, hi as int)) {
            Ok(acc) => r is Ok && final(b)@ == acc,
            Err(e) => r matches Err(m) && m@ == e,
        },
{
    match line_bounds(v, lo, hi) {
        None => Ok(()),
        Some((ka, kb, va, vb)) => {
            let key = text.substring_char(ka, kb);
            let value = text.substring_char(va, vb);
            let key_lower = to_lower(key);
            let value_lower = to_lower(value);
            b.apply_entry(key_lower.as_str(), value, value_lower.as_str())
        },
    }
}

/// Reading stops at the first error: more lines after an error change nothing.
proof fn lemma_apply_lines_err_sticks(p: Seq<Seq<char>>, q: Seq<Seq<char>>)
    requires
        p.len() <= q.len(),
        q.take(p.len() as int) == p,
        apply_lines(p) is Err,
    ensures
        apply_lines(q) == apply_lines(p),
    decreases q.len(),
{
    if q.len() > p.len() {
        assert(q.drop_last().take(p.len() as int) =~= p);
        lemma_apply_lines_err_sticks(p, q.drop_last());
    } else {
        assert(q =~= p);
    }
}

/// The lines completed after reading `i` characters are the first lines of the text.
proof fn lemma_split_fold_prefix(v: Seq<char>, i: int, j: int, cls: CharClass)
    requires
        0 <= i <= j <= v.len(),
    ensures
        split_fold(v.take(i), cls).0.len() <= split_fold(v.take(j), cls).0.len(),
        split_fold(v.take(j), cls).0.take(split_fold(v.take(i), cls).0.len() as int)
            == split_fold(v.take(i), cls).0,
    decreases j - i,
{
    if j > i {
        lemma_split_fold_prefix(v, i, j - 1, cls);
        lemma_split_fold_step(v, j - 1, cls);
        let a = split_fold(v.take(i), cls).0;
        let b = split_fold(v.take(j - 1), cls).0;
        let c = split_fold(v.take(j), cls).0;
        if c.len() > b.len() {
            assert(c.take(a.len() as int) =~= b.take(a.len() as int));
        }
    }
}

/// Parse the resize-only keys out of the job text.
///
/// Lines are read in order; a line's text after `#` is a comment; a line without `:` is
/// skipped; keys are matched case-insensitively (`group`, `objective`, `effort`,
/// `dont_touch`), others are left to the timing job. A `group:` of fewer than two cells is
/// dropped. The first bad `objective:` ends the reading with its error; the effort word
/// (the last `effort:`, default `medium`) is checked at the end.
pub fn parse_cfg(text: &str) -> (r: Result<ResizeCfg, String>)
    ensures
        match parse_cfg_spec(text@) {
            Ok(c) => r matches Ok(cfg) && cfg@ == c,
            Err(e) => r matches Err(m) && m@ == e,
        },
{
    let v = chars_of(text);
    let n = v.len();
    let mut b = CfgBuilder::new();
    let mut start: usize = 0;
    let ghost mut done: Seq<Seq<char>> = seq![];
    let mut i: usize = 0;
    while i < n
        invariant
            v@ == text@,
            n == v.len(),
            start <= i <= n,
            split_fold(v@.take(i as int), CharClass::Newline) == (done, v@.subrange(
                start as int,
                i as int,
            )),
            apply_lines(done) == Ok::<CfgAccView, Seq<char>>(b@),
        decreases n - i,
    {
        proof {
            lemma_split_fold_step(v@, i as int, CharClass::Newline);
        }
        if v[i] == '\n' {
            let ghost line = v@.subrange(start as int, i as int);
            let rl = apply_line(&mut b, text, &v, start, i);
            proof {
                let old_done = done;
                done = done.push(line);
                assert(done.drop_last() =~= old_done);
            }
            if let Err(m) = rl {
                proof {
                    lemma_split_fold_prefix(v@, i + 1, n as int, CharClass::Newline);
                    assert(v@.take(n as int) =~= text@);
                    let all = split_pieces(text@, CharClass::Newline);
                    let f = split_fold(v@.take(n as int), CharClass::Newline).0;
                    assert(all.take(done.len() as int) =~= f.take(done.len() as int));
                    lemma_apply_lines_err_sticks(done, all);
                }
                return Err(m);
            }
            start = i + 1;
        } else {
            assert(v@.subrange(start as int, i as int).push(v@[i as int]) =~= v@.subrange(
                start as int,
                i + 1,
            ));
        }
        i = i + 1;
    }
    let ghost line = v@.subrange(start as int, n as int);
    let rl = apply_line(&mut b, text, &v, start, n);
    proof {
        assert(v@.take(n as int) =~= text@);
        let old_done = done;
        done = done.push(line);
        assert(done.drop_last() =~= old_done);
    }
    if let Err(m) = rl {
        return Err(m);
    }
    b.finish()
}

// ---------------------------------------------------------------------------------------
// Laws of the job-file reading

/// The keys that are resize knobs; any other key belongs to the timing job.
pub open spec fn is_knob_key(key: Seq<char>) -> bool {
    key == "group"@ || key == "objective"@ || key == "effort"@ || key == "dont_touch"@
}

/// A line whose key, lower-cased, is `objective` and whose value, lower-cased, is neither
/// `timing` nor `area`.
pub open spec fn bad_objective_line(line: Seq<char>) -> bool {
    match line_entry(line) {
        Some((k, v)) => lowercase(k) == "objective"@ && lowercase(v) != "timing"@ && lowercase(v)
            != "area"@,
        None => false,
    }
}

/// Some line has a bad objective value.
pub open spec fn has_bad_objective(lines: Seq<Seq<char>>) -> bool {
    exists|i: int| 0 <= i < lines.len() && bad_objective_line(#[trigger] lines[i])
}

/// The value, lower-cased, of the last `effort:` line; `medium` when there is none.
pub open spec fn last_effort_word(lines: Seq<Seq<char>>) -> Seq<char>
    decreases lines.len(),
{
    if lines.len() == 0 {
        "medium"@
    } else {
        match line_entry(lines.last()) {
            Some((k, v)) => if lowercase(k) == "effort"@ {
                lowercase(v)
            } else {
                last_effort_word(lines.drop_last())
            },
            None => last_effort_word(lines.drop_last()),
        }
    }
}

/// The names of each `group:` line with at least two of them, in line order.
pub open spec fn declared_groups(lines: Seq<Seq<char>>) -> Seq<Seq<Seq<char>>>
    decreases lines.len(),
{
    if lines.len() == 0 {
        seq![]
    } else {
        let prev = declared_groups(lines.drop_last());
        match line_entry(lines.last()) {
            Some((k, v)) => if lowercase(k) == "group"@ && words(v).len() >= 2 {
                prev.push(words(v))
            } else {
                prev
            },
            None => prev,
        }
    }
}

/// The `dont_touch:` globs of the lines, in order: each such value as written (not
/// lower-cased), split at `,` and ` `, each piece trimmed, the empty pieces dropped.
pub open spec fn declared_globs(lines: Seq<Seq<char>>) -> Seq<Seq<char>>
    decreases lines.len(),
{
    if lines.len() == 0 {
        seq![]
    } else {
        let prev = declared_globs(lines.drop_last());
        match line_entry(lines.last()) {
            Some((k, v)) => if lowercase(k) == "dont_touch"@ {
                prev + trimmed_non_empty(split_pieces(v, CharClass::CommaOrSpace))
            } else {
                prev
            },
            None => prev,
        }
    }
}

/// Reading the lines fails exactly on a bad objective value; otherwise the effort word is
/// that of the last `effort:` line and the groups are the declared ones.
proof fn lemma_apply_lines_shape(lines: Seq<Seq<char>>)
    ensures
        apply_lines(lines) is Err <==> has_bad_objective(lines),
        apply_lines(lines) matches Ok(acc) ==> acc.effort_word == last_effort_word(lines)
            && acc.groups == declared_groups(lines) && acc.dont_touch == declared_globs(lines),
    decreases lines.len(),
{
    if lines.len() > 0 {
        let p = lines.drop_last();
        let l = lines.last();
        lemma_apply_lines_shape(p);
        reveal_strlit("group");
        reveal_strlit("objective");
        reveal_strlit("effort");
        reveal_strlit("dont_touch");
        reveal_strlit("timing");
        reveal_strlit("area");
        assert(lines[lines.len() - 1] == l);
        if has_bad_objective(p) {
            let i = choose|i: int| 0 <= i < p.len() && bad_objective_line(#[trigger] p[i]);
            assert(lines[i] == p[i]);
        }
        if !has_bad_objective(p) && !bad_objective_line(l) {
            assert forall|i: int| 0 <= i < lines.len() implies !bad_objective_line(
                #[trigger] lines[i],
            ) by {
                if i < p.len() {
                    assert(p[i] == lines[i]);
                }
            }
        }
        match apply_lines(p) {
            Err(_) => {},
            Ok(acc) => {
                match line_entry(l) {
                    None => {},
                    Some((k, v)) => {
                        let key = lowercase(k);
                        let vl = lowercase(v);
                        assert("group"@.len() == 5);
                        assert("objective"@.len() == 9);
                        assert("effort"@.len() == 6);
                        assert("group"@ != "objective"@);
                        assert("group"@ != "effort"@);
                        assert("objective"@ != "effort"@);
                        assert("timing"@.len() == 6);
                        assert("area"@.len() == 4);
                        assert("timing"@ != "area"@);
                        if key == "group"@ {
                        } else if key == "objective"@ {
                        } else if key == "effort"@ {
                        } else if key == "dont_touch"@ {
                        } else {
                        }
                    },
                }
            },
        }
    }
}

/// Every declared group has at least two names.
proof fn lemma_declared_groups_sizes(lines: Seq<Seq<char>>)
    ensures
        forall|i: int|
            0 <= i < declared_groups(lines).len() ==> (#[trigger] declared_groups(lines)[i]).len()
                >= 2,
    decreases lines.len(),
{
    if lines.len() > 0 {
        let p = lines.drop_last();
        lemma_declared_groups_sizes(p);
        let prev = declared_groups(p);
        let all = declared_groups(lines);
        assert forall|i: int| 0 <= i < all.len() implies (#[trigger] all[i]).len() >= 2 by {
            if i < prev.len() {
                assert(all[i] == prev[i]);
            }
        }
    }
}

/// The last `effort:` line wins, and earlier effort values are never an error: when no
/// objective value is bad, reading succeeds exactly when the last effort word is `low`,
/// `medium` or `high`, with its budget.
pub proof fn lemma_last_effort_wins(text: Seq<char>)
    ensures
        parse_cfg_spec(text) matches Ok(c) ==> effort_budget(
            last_effort_word(split_pieces(text, CharClass::Newline)),
        ) == Some(c.effort),
        !has_bad_objective(split_pieces(text, CharClass::Newline)) ==> match effort_budget(
            last_effort_word(split_pieces(text, CharClass::Newline)),
        ) {
            Some(e) => parse_cfg_spec(text) matches Ok(c) && c.effort == e,
            None => parse_cfg_spec(text) is Err,
        },
{
    lemma_apply_lines_shape(split_pieces(text, CharClass::Newline));
}

/// Reading a job fails exactly when some `objective:` value, lower-cased, is neither
/// `timing` nor `area`, or when the last effort word is not `low`, `medium` or `high`.
pub proof fn lemma_parse_cfg_fails_exactly(text: Seq<char>)
    ensures
        parse_cfg_spec(text) is Err <==> has_bad_objective(split_pieces(text, CharClass::Newline))
            || effort_budget(last_effort_word(split_pieces(text, CharClass::Newline))) is None,
{
    lemma_apply_lines_shape(split_pieces(text, CharClass::Newline));
}

/// The groups read are the `group:` lines with at least two names, in line order, each
/// with its names in the declared weakest-to-strongest order.
pub proof fn lemma_groups_as_declared(text: Seq<char>)
    ensures
        parse_cfg_spec(text) matches Ok(c) ==> c.groups == declared_groups(
            split_pieces(text, CharClass::Newline),
        ) && forall|i: int| 0 <= i < c.groups.len() ==> (#[trigger] c.groups[i]).len() >= 2,
{
    lemma_apply_lines_shape(split_pieces(text, CharClass::Newline));
    lemma_declared_groups_sizes(split_pieces(text, CharClass::Newline));
}

/// A line that is not a resize knob (no `:` before its comment, or another key) changes
/// nothing: a `.resize` file is a superset of a timing job.
pub proof fn lemma_other_lines_ignored(text: Seq<char>, line: Seq<char>)
    requires
        !has_char(line, '\n'),
        line_entry(line) matches Some((k, v)) ==> !is_knob_key(lowercase(k)),
    ensures
        forall|acc: CfgAccView| apply_line_spec(acc, line) == Ok::<CfgAccView, Seq<char>>(acc),
        parse_cfg_spec(text + seq!['\n'] + line) == parse_cfg_spec(text),
{
    assert forall|i: int| 0 <= i < line.len() implies !in_class(
        CharClass::Newline,
        #[trigger] line[i],
    ) by {
        crate::text::lemma_index_of_bounds(line, '\n');
    }
    lemma_split_pieces_then(text, '\n', line, CharClass::Newline);
    let lines = split_pieces(text, CharClass::Newline);
    assert(lines.push(line).drop_last() =~= lines);
}

/// The `dont_touch` globs read are the pieces of the `dont_touch:` values as written, in
/// line order: instance-name matching stays case-sensitive.
pub proof fn lemma_dont_touch_as_written(text: Seq<char>)
    ensures
        parse_cfg_spec(text) matches Ok(c) ==> c.dont_touch == declared_globs(
            split_pieces(text, CharClass::Newline),
        ),
{
    lemma_apply_lines_shape(split_pieces(text, CharClass::Newline));
}

/// What a glob matches, case by case: a pattern with no `*` at either end matches only
/// itself; `*suffix` matches names ending with the suffix; `prefix*` matches names
/// starting with the prefix; `*core*` matches names containing the pattern stripped of its
/// outer stars.
pub proof fn lemma_glob_cases(pat: Seq<char>, s: Seq<char>)
    ensures
        (pat.len() == 0 || (pat[0] != '*' && pat[pat.len() - 1] != '*')) ==> (glob_matches(pat, s)
            <==> s == pat),
        (pat.len() > 0 && pat[0] == '*' && pat[pat.len() - 1] != '*') ==> (glob_matches(pat, s)
            <==> (pat.len() - 1 <= s.len() && s.subrange(s.len() - (pat.len() - 1), s.len() as int)
            == pat.subrange(1, pat.len() as int))),
        (pat.len() > 0 && pat[0] != '*' && pat[pat.len() - 1] == '*') ==> (glob_matches(pat, s)
            <==> (pat.len() - 1 <= s.len() && s.subrange(0, pat.len() - 1) == pat.subrange(
            0,
            pat.len() - 1,
        ))),
        (pat.len() > 0 && pat[0] == '*' && pat[pat.len() - 1] == '*') ==> (glob_matches(pat, s)
            <==> exists|i: int|
            0 <= i <= s.len() - strip(pat, CharClass::Star).len() && #[trigger] s.subrange(
                i,
                i + strip(pat, CharClass::Star).len(),
            ) == strip(pat, CharClass::Star)),
{
    if pat.len() > 0 {
        assert(pat.drop_first() =~= pat.subrange(1, pat.len() as int));
        assert(pat.drop_last() =~= pat.subrange(0, pat.len() - 1));
        if pat.len() - 1 <= s.len() {
            assert(s.skip(s.len() - (pat.len() - 1)) =~= s.subrange(
                s.len() - (pat.len() - 1),
                s.len() as int,
            ));
            assert(s.take(pat.len() - 1) =~= s.subrange(0, pat.len() - 1));
        }
    }
}

// ---------------------------------------------------------------------------------------
// Globs

/// A tiny glob: a single leading and/or trailing `*`; otherwise an exact match. With both,
/// the pattern stripped of all its leading and trailing `*` must occur in `s`.
pub open spec fn glob_matches(pat: Seq<char>, s: Seq<char>) -> bool {
    let lead = pat.len() > 0 && pat[0] == '*';
    let trail = pat.len() > 0 && pat.last() == '*';
    if lead && trail {
        contains_seq(s, strip(pat, CharClass::Star))
    } else if lead {
        ends_with(s, pat.drop_first())
    } else if trail {
        starts_with(s, pat.drop_last())
    } else {
        s == pat
    }
}

/// A tiny glob matcher: supports a single leading and/or trailing `*` (e.g. `clk_*`,
/// `*scan*`, `*_reg`). Exact match otherwise.
pub fn glob_match(pat: &str, s: &str) -> (r: bool)
    ensures
        r == glob_matches(pat@, s@),
{
    let p = chars_of(pat);
    let t = chars_of(s);
    let n = p.len();
    let sn = t.len();
    let lead = n > 0 && p[0] == '*';
    let trail = n > 0 && p[n - 1] == '*';
    if lead && trail {
        let (a, b) = strip_range(&p, 0, n, CharClass::Star);
        assert(p@.subrange(0, n as int) =~= pat@);
        let m = b - a;
        let ghost core = p@.subrange(a as int, b as int);
        assert(core == strip(pat@, CharClass::Star));
        if m > sn {
            return false;
        }
        let last = sn - m;
        let mut i: usize = 0;
        while i < last
            invariant
                t@ == s@,
                sn == t.len(),
                a <= b <= p.len(),
                m == b - a,
                m <= sn,
                last == sn - m,
                i <= last,
                core == p@.subrange(a as int, b as int),
                core == strip(pat@, CharClass::Star),
                glob_matches(pat@, s@) == contains_seq(s@, core),
                forall|j: int| 0 <= j < i ==> #[trigger] t@.subrange(j, j + m) != core,
            decreases last - i,
        {
            if range_eq(&t, i, &p, a, m) {
                assert(s@.subrange(i as int, i + core.len()) == core);
                assert(contains_seq(s@, strip(pat@, CharClass::Star)));
                return true;
            }
            i = i + 1;
        }
        if range_eq(&t, last, &p, a, m) {
            assert(s@.subrange(last as int, last + core.len()) == core);
            assert(contains_seq(s@, strip(pat@, CharClass::Star)));
            return true;
        }
        assert forall|j: int| 0 <= j <= s@.len() - core.len() implies #[trigger] s@.subrange(
            j,
            j + core.len(),
        ) != core by {
            if j < last {
                assert(t@.subrange(j, j + m) != core);
            }
        }
        false
    } else if lead {
        let m = n - 1;
        assert(pat@.drop_first() =~= p@.subrange(1, n as int));
        if m <= sn {
            let r = range_eq(&t, sn - m, &p, 1, m);
            assert(s@.skip(sn - m) =~= t@.subrange(sn - m, sn as int));
            r
        } else {
            false
        }
    } else if trail {
        let m = n - 1;
        assert(pat@.drop_last() =~= p@.subrange(0, m as int));
        if m <= sn {
            let r = range_eq(&t, 0, &p, 0, m);
            assert(s@.take(m as int) =~= t@.subrange(0, m as int));
            r
        } else {
            false
        }
    } else {
        if n == sn {
            let r = range_eq(&t, 0, &p, 0, n);
            assert(s@ =~= t@.subrange(0, n as int));
            assert(pat@ =~= p@.subrange(0, n as int));
            r
        } else {
            assert(s@.len() != pat@.len());
            false
        }
    }
}

} // verus!
