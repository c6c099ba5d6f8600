//! The command line of the `vyges-resize` tool:
//!
//! ```text
//! vyges-resize run   JOB  [-o OUT] [--json] [--fail-on-violation]
//! vyges-resize check JOB
//! vyges-resize demo
//! ```
//!
//! Common flags: `-h/--help`, `-V/--version`, `-q/--quiet`, `-v/--verbose`.

use vstd::prelude::*;

use crate::text::same_text;

verus! {

/// The parsed command line.
pub struct Cli {
    /// The words that are not flags, in order (the command, then its job file).
    pub positionals: Vec<String>,
    /// The file after `-o`.
    pub out: Option<String>,
    pub json: bool,
    pub fail_on_violation: bool,
    pub quiet: bool,
    pub verbose: bool,
    pub help: bool,
    pub version: bool,
    pub bug_report: bool,
    pub feature_request: bool,
    pub sponsor: bool,
    pub star: bool,
}

/// The content of a [`Cli`].
pub struct CliView {
    pub positionals: Seq<Seq<char>>,
    pub out: Option<Seq<char>>,
    pub json: bool,
    pub fail_on_violation: bool,
    pub quiet: bool,
    pub verbose: bool,
    pub help: bool,
    pub version: bool,
    pub bug_report: bool,
    pub feature_request: bool,
    pub sponsor: bool,
    pub star: bool,
}

impl View for Cli {
    type V = CliView;

    open spec fn view(&self) -> CliView {
        CliView {
            positionals: self.positionals.deep_view(),
            out: self.out.deep_view(),
            json: self.json,
            fail_on_violation: self.fail_on_violation,
            quiet: self.quiet,
            verbose: self.verbose,
            help: self.help,
            version: self.version,
            bug_report: self.bug_report,
            feature_request: self.feature_request,
            sponsor: self.sponsor,
            star: self.star,
        }
    }
}

/// No positionals, no output file, every flag off.
pub open spec fn empty_cli() -> CliView {
    CliView {
        positionals: seq![],
        out: None,
        json: false,
        fail_on_violation: false,
        quiet: false,
        verbose: false,
        help: false,
        version: false,
        bug_report: false,
        feature_request: false,
        sponsor: false,
        star: false,
    }
}

/// One argument other than `-o`: a flag sets its switch, anything else is a positional.
pub open spec fn apply_arg(c: CliView, a: Seq<char>) -> CliView {
    if a == "--json"@ {
        CliView { json: true, ..c }
    } else if a == "--fail-on-violation"@ {
        CliView { fail_on_violation: true, ..c }
    } else if a == "-q"@ || a == "--quiet"@ {
        CliView { quiet: true, ..c }
    } else if a == "-v"@ || a == "--verbose"@ {
        CliView { verbose: true, ..c }
    } else if a == "-h"@ || a == "--help"@ {
        CliView { help: true, ..c }
    } else if a == "-V"@ || a == "--version"@ {
        CliView { version: true, ..c }
    } else if a == "--bug-report"@ {
        CliView { bug_report: true, ..c }
    } else if a == "--feature-request"@ {
        CliView { feature_request: true, ..c }
    } else if a == "--sponsor"@ {
        CliView { sponsor: true, ..c }
    } else if a == "--star"@ {
        CliView { star: true, ..c }
    } else {
        CliView { positionals: c.positionals.push(a), ..c }
    }
}

/// The arguments from `i` on read into `c`. `-o` takes the next argument as the output
/// file (none when it is the last argument) and skips it.
pub open spec fn parse_from(args: Seq<Seq<char>>, i: nat, c: CliView) -> CliView
    decreases args.len() - i,
{
    if i >= args.len() {
        c
    } else if args[i as int] == "-o"@ {
        if i + 1 < args.len() {
            parse_from(args, i + 2, CliView { out: Some(args[i + 1 as int]), ..c })
        } else {
            CliView { out: None, ..c }
        }
    } else {
        parse_from(args, i + 1, apply_arg(c, args[i as int]))
    }
}

/// What [`parse_cli`] makes of the arguments.
pub open spec fn cli_spec(args: Seq<Seq<char>>) -> CliView {
    parse_from(args, 0, empty_cli())
}

/// Applies one argument other than `-o` to `c`.
fn apply_arg_to(c: &mut Cli, a: &str)
    ensures
        final(c)@ == apply_arg(old(c)@, a@),
{
    if same_text(a, "--json") {
        c.json = true;
    } else if same_text(a, "--fail-on-violation") {
        c.fail_on_violation = true;
    } else if same_text(a, "-q") || same_text(a, "--quiet") {
        c.quiet = true;
    } else if same_text(a, "-v") || same_text(a, "--verbose") {
        c.verbose = true;
    } else if same_text(a, "-h") || same_text(a, "--help") {
        c.help = true;
    } else if same_text(a, "-V") || same_text(a, "--version") {
        c.version = true;
    } else if same_text(a, "--bug-report") {
        c.bug_report = true;
    } else if same_text(a, "--feature-request") {
        c.feature_request = true;
    } else if same_text(a, "--sponsor") {
        c.sponsor = true;
    } else if same_text(a, "--star") {
        c.star = true;
    } else {
        let ghost old_pos = c@.positionals;
        c.positionals.push(String::from_str(a));
        assert(c@.positionals =~= old_pos.push(a@));
    }
}

/// Reads the command-line arguments (without the program name).
pub fn parse_cli(args: &[String]) -> (c: Cli)
    ensures
        c@ == cli_spec(args.deep_view()),
{
    let ghost av = args.deep_view();
    let mut c = Cli {
        positionals: Vec::new(),
        out: None,
        json: false,
        fail_on_violation: false,
        quiet: false,
        verbose: false,
        help: false,
        version: false,
        bug_report: false,
        feature_request: false,
        sponsor: false,
        star: false,
    };
    assert(c@.positionals =~= Seq::<Seq<char>>::empty());
    let n = args.len();
    let mut i: usize = 0;
    while i < n
        invariant
            av == args.deep_view(),
            n == args.len(),
            av.len() == n,
            i <= n,
            cli_spec(av) == parse_from(av, i as nat, c@),
        decreases n - i,
    {
        let a = args[i].as_str();
        assert(av[i as int] == a@);
        if same_text(a, "-o") {
            if i + 1 < n {
                c.out = Some(args[i + 1].clone());
                i = i + 2;
            } else {
                c.out = None;
                i = n;
            }
        } else {
            apply_arg_to(&mut c, a);
            i = i + 1;
        }
    }
    c
}

} // verus!
