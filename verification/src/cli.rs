//! The command line: what the arguments of `redo-msh`, and of the commands that
//! ship beside it, ask for.

use crate::building::{quoted, quoted_text};
use crate::num::{fault_of, parse_usize, unsigned_value, usize_fault, NumberFault};
use crate::text::{cat, cat3, copy_texts, lists, same, starts, strip_prefix, texts};
use vstd::prelude::*;

verus! {

/// Why a command line is not understood.
#[derive(Debug, PartialEq, Eq)]
pub enum CliError {
    /// An option that takes a number has none.
    MissingNumber { option: String },
    /// A number of jobs is not one.
    BadNumber { text: String, fault: NumberFault },
    /// A command that does not exist.
    UnknownVerb { verb: String },
}

/// An error, as a mathematical value.
pub enum CliErrorView {
    MissingNumber { option: Seq<char> },
    BadNumber { text: Seq<char>, fault: NumberFault },
    UnknownVerb { verb: Seq<char> },
}

impl View for CliError {
    type V = CliErrorView;

    open spec fn view(&self) -> CliErrorView {
        match self {
            CliError::MissingNumber { option } => CliErrorView::MissingNumber { option: option@ },
            CliError::BadNumber { text, fault } => CliErrorView::BadNumber {
                text: text@,
                fault: *fault,
            },
            CliError::UnknownVerb { verb } => CliErrorView::UnknownVerb { verb: verb@ },
        }
    }
}

/// Why a text is no number, in words.
pub open spec fn fault_text(f: NumberFault) -> Seq<char> {
    match f {
        NumberFault::Empty => "cannot parse integer from empty string"@,
        NumberFault::InvalidDigit => "invalid digit found in string"@,
        NumberFault::TooLarge => "number too large to fit in target type"@,
    }
}

/// The word that an error quotes.
pub open spec fn quoted_word(e: CliErrorView) -> Seq<char> {
    match e {
        CliErrorView::BadNumber { text, .. } => text,
        CliErrorView::UnknownVerb { verb } => verb,
        _ => Seq::empty(),
    }
}

/// An error in words, given the word that it quotes in quotes.
pub open spec fn cli_error_text(e: CliErrorView, word: Seq<char>) -> Seq<char> {
    match e {
        CliErrorView::MissingNumber { option } => option + " requires a number"@,
        CliErrorView::BadNumber { fault, .. } => "invalid job count "@ + word + (": "@
            + fault_text(fault)),
        CliErrorView::UnknownVerb { .. } => "internal: unknown forwarder verb "@ + word,
    }
}

impl CliError {
    /// The error in words.
    pub fn message(&self) -> (s: String)
        ensures
            s@ == cli_error_text(self@, quoted(quoted_word(self@))),
    {
        let word = match self {
            CliError::BadNumber { text, .. } => quoted_text(text.as_str()),
            CliError::UnknownVerb { verb } => quoted_text(verb.as_str()),
            _ => String::new(),
        };
        self.message_with(word.as_str())
    }

    /// The error in words, given the word that it quotes in quotes.
    pub fn message_with(&self, word: &str) -> (s: String)
        ensures
            s@ == cli_error_text(self@, word@),
    {
        match self {
            CliError::MissingNumber { option } => cat(option.as_str(), " requires a number"),
            CliError::BadNumber { fault, .. } => {
                let why = match fault {
                    NumberFault::Empty => "cannot parse integer from empty string",
                    NumberFault::InvalidDigit => "invalid digit found in string",
                    NumberFault::TooLarge => "number too large to fit in target type",
                };
                cat3("invalid job count ", word, cat(": ", why).as_str())
            },
            CliError::UnknownVerb { .. } => cat("internal: unknown forwarder verb ", word),
        }
    }
}

/// The options that hold for a process and for those below it.
#[derive(Debug, Clone, Copy, PartialEq, Eq, Structural)]
pub struct Flags {
    /// Whether to overwrite without asking.
    pub yes: bool,
    /// Whether to trace the decisions.
    pub verbose: bool,
    /// Whether to trace the jobs.
    pub debug_jobs: bool,
}

/// No option at all.
pub open spec fn no_flags() -> Flags {
    Flags { yes: false, verbose: false, debug_jobs: false }
}

/// Arguments with the options taken out.
#[derive(Debug, PartialEq, Eq)]
pub struct Parsed {
    /// How many targets to build in parallel, at least one.
    pub jobs: usize,
    /// The arguments that are no options.
    pub rest: Vec<String>,
    /// The options that hold for the processes below too.
    pub flags: Flags,
}

/// Arguments with the options taken out, as a mathematical value.
#[verifier::ext_equal]
pub struct ParsedView {
    pub jobs: int,
    pub rest: Seq<Seq<char>>,
    pub flags: Flags,
}

impl View for Parsed {
    type V = ParsedView;

    open spec fn view(&self) -> ParsedView {
        ParsedView { jobs: self.jobs as int, rest: texts(self.rest@), flags: self.flags }
    }
}

/// The number of jobs that an option names.
pub open spec fn jobs_option(st: ParsedView, text: Seq<char>) -> Result<ParsedView, CliErrorView> {
    match unsigned_value(text, usize::MAX as int) {
        Some(n) => Ok(ParsedView { jobs: n, ..st }),
        None => Err(
            CliErrorView::BadNumber { text, fault: fault_of(text, usize::MAX as int) },
        ),
    }
}

/// Take the options out of arguments, from left to right; of several numbers of
/// jobs the last counts.
pub open spec fn take_options(args: Seq<Seq<char>>, st: ParsedView) -> Result<
    ParsedView,
    CliErrorView,
>
    decreases args.len(),
{
    if args.len() == 0 {
        Ok(st)
    } else {
        let a = args[0];
        if a == "-j"@ || a == "--jobs"@ {
            if args.len() < 2 {
                Err(CliErrorView::MissingNumber { option: a })
            } else {
                match jobs_option(st, args[1]) {
                    Ok(next) => take_options(args.skip(2), next),
                    Err(e) => Err(e),
                }
            }
        } else if starts(a, "--jobs="@) {
            match jobs_option(st, a.skip(7)) {
                Ok(next) => take_options(args.skip(1), next),
                Err(e) => Err(e),
            }
        } else if starts(a, "-j"@) {
            match jobs_option(st, a.skip(2)) {
                Ok(next) => take_options(args.skip(1), next),
                Err(e) => Err(e),
            }
        } else if a == "--yes"@ || a == "-y"@ {
            take_options(args.skip(1), ParsedView { flags: Flags { yes: true, ..st.flags }, ..st })
        } else if a == "--verbose"@ {
            take_options(
                args.skip(1),
                ParsedView { flags: Flags { verbose: true, ..st.flags }, ..st },
            )
        } else if a == "--debug-jobs"@ {
            take_options(
                args.skip(1),
                ParsedView { flags: Flags { debug_jobs: true, ..st.flags }, ..st },
            )
        } else {
            take_options(args.skip(1), ParsedView { rest: st.rest.push(a), ..st })
        }
    }
}

/// The options and the rest of a command line; at least one job.
pub open spec fn options_of(args: Seq<Seq<char>>) -> Result<ParsedView, CliErrorView> {
    match take_options(args, ParsedView { jobs: 1, rest: Seq::empty(), flags: no_flags() }) {
        Ok(p) => Ok(
            ParsedView {
                jobs: if p.jobs < 1 {
                    1
                } else {
                    p.jobs
                },
                ..p
            },
        ),
        Err(e) => Err(e),
    }
}

/// Take `-j N`, `-jN`, `--jobs N`, `--jobs=N`, `-y`, `--yes`, `--verbose` and
/// `--debug-jobs` out of arguments.
pub fn extract_jobs(args: &[String]) -> (r: Result<Parsed, CliError>)
    ensures
        match r {
            Ok(p) => options_of(texts(args@)) == Ok::<ParsedView, CliErrorView>(p@),
            Err(e) => options_of(texts(args@)) == Err::<ParsedView, CliErrorView>(e@),
        },
{
    let ghost all = texts(args@);
    let none = Flags { yes: false, verbose: false, debug_jobs: false };
    let mut st = Parsed { jobs: 1, rest: Vec::new(), flags: none };
    let mut i: usize = 0;
    proof {
        reveal_strlit("--jobs=");
        reveal_strlit("-j");
        assert(all.skip(0) =~= all);
        assert(texts(st.rest@) =~= Seq::<Seq<char>>::empty());
    }
    let ghost start = st@;
    while i < args.len()
        invariant
            i <= args.len(),
            all == texts(args@),
            start == (ParsedView { jobs: 1, rest: Seq::empty(), flags: no_flags() }),
            take_options(all, start) == take_options(all.skip(i as int), st@),
            "--jobs="@.len() == 7,
            "-j"@.len() == 2,
        decreases args.len() - i,
    {
        let a = args[i].as_str();
        let ghost rest = all.skip(i as int);
        assert(rest[0] == a@);
        assert(rest.skip(1) =~= all.skip(i + 1));
        let mut number: Option<String> = None;
        let mut next: usize = i + 1;
        if same(a, "-j") || same(a, "--jobs") {
            if args.len() - i < 2 {
                return Err(CliError::MissingNumber { option: a.to_owned() });
            }
            assert(rest[1] == args@[i + 1]@);
            assert(rest.skip(2) =~= all.skip(i + 2));
            number = Some(args[i + 1].clone());
            next = i + 2;
        } else if let Some(v) = strip_prefix(a, "--jobs=") {
            number = Some(v);
        } else if let Some(v) = strip_prefix(a, "-j") {
            number = Some(v);
        } else if same(a, "--yes") || same(a, "-y") {
            st.flags.yes = true;
        } else if same(a, "--verbose") {
            st.flags.verbose = true;
        } else if same(a, "--debug-jobs") {
            st.flags.debug_jobs = true;
        } else {
            let ghost before = texts(st.rest@);
            st.rest.push(a.to_owned());
            assert(texts(st.rest@) =~= before.push(a@));
        }
        if let Some(v) = number {
            match parse_usize(v.as_str()) {
                Some(n) => {
                    st.jobs = n;
                },
                None => {
                    let fault = usize_fault(v.as_str());
                    return Err(CliError::BadNumber { text: v, fault });
                },
            }
        }
        i = next;
    }
    assert(all.skip(i as int) =~= Seq::<Seq<char>>::empty());
    if st.jobs < 1 {
        st.jobs = 1;
    }
    Ok(st)
}

/// What a command line asks for.
#[derive(Debug, PartialEq, Eq)]
pub enum Command {
    /// Print the help.
    Help,
    /// Print the version.
    Version,
    /// Initialize a project root.
    Root(Vec<String>),
    /// Bring dependencies up to date and record them.
    IfChange(Vec<String>),
    /// Record that paths must not exist.
    IfCreate(Vec<String>),
    /// Mark the current target as always out of date.
    Always,
    /// Drain standard input.
    Stamp,
    /// List the sources.
    Sources,
    /// List the targets.
    Targets,
    /// List the targets that are out of date.
    Ood,
    /// Print the tree of dependencies.
    Tree(Vec<String>),
    /// Build targets.
    Build { targets: Vec<String>, jobs: usize },
}

/// What a command line asks for, as a mathematical value.
pub enum CommandView {
    Help,
    Version,
    Root(Seq<Seq<char>>),
    IfChange(Seq<Seq<char>>),
    IfCreate(Seq<Seq<char>>),
    Always,
    Stamp,
    Sources,
    Targets,
    Ood,
    Tree(Seq<Seq<char>>),
    Build { targets: Seq<Seq<char>>, jobs: int },
}

impl View for Command {
    type V = CommandView;

    open spec fn view(&self) -> CommandView {
        match self {
            Command::Help => CommandView::Help,
            Command::Version => CommandView::Version,
            Command::Root(v) => CommandView::Root(texts(v@)),
            Command::IfChange(v) => CommandView::IfChange(texts(v@)),
            Command::IfCreate(v) => CommandView::IfCreate(texts(v@)),
            Command::Always => CommandView::Always,
            Command::Stamp => CommandView::Stamp,
            Command::Sources => CommandView::Sources,
            Command::Targets => CommandView::Targets,
            Command::Ood => CommandView::Ood,
            Command::Tree(v) => CommandView::Tree(texts(v@)),
            Command::Build { targets, jobs } => CommandView::Build {
                targets: texts(targets@),
                jobs: *jobs as int,
            },
        }
    }
}

/// A command and the options that come with it.
#[derive(Debug, PartialEq, Eq)]
pub struct Request {
    pub command: Command,
    pub flags: Flags,
}

/// Whether the arguments ask for help.
pub open spec fn asks_help(args: Seq<Seq<char>>) -> bool {
    args.contains("-h"@) || args.contains("--help"@)
}

/// The targets to build: `all` if none are named.
pub open spec fn or_all(targets: Seq<Seq<char>>) -> Seq<Seq<char>> {
    if targets.len() == 0 {
        seq!["all"@]
    } else {
        targets
    }
}

/// What arguments without options ask for: the first is a command, or all are
/// targets.
pub open spec fn verb_command(p: ParsedView) -> CommandView {
    if p.rest.len() == 0 {
        CommandView::Build { targets: or_all(p.rest), jobs: p.jobs }
    } else {
        let verb = p.rest[0];
        let rest = p.rest.skip(1);
        if verb == "root"@ {
            CommandView::Root(rest)
        } else if verb == "ifchange"@ {
            CommandView::IfChange(rest)
        } else if verb == "ifcreate"@ {
            CommandView::IfCreate(rest)
        } else if verb == "always"@ {
            CommandView::Always
        } else if verb == "stamp"@ {
            CommandView::Stamp
        } else if verb == "sources"@ {
            CommandView::Sources
        } else if verb == "targets"@ {
            CommandView::Targets
        } else if verb == "ood"@ {
            CommandView::Ood
        } else if verb == "tree"@ {
            CommandView::Tree(rest)
        } else if verb == "help"@ {
            CommandView::Help
        } else {
            CommandView::Build { targets: p.rest, jobs: p.jobs }
        }
    }
}

fn without_first(v: &Vec<String>) -> (out: Vec<String>)
    requires
        v.len() > 0,
    ensures
        texts(out@) == texts(v@).skip(1),
{
    let mut out: Vec<String> = Vec::new();
    for i in 1..v.len()
        invariant
            v.len() > 0,
            texts(out@) == texts(v@).subrange(1, i as int),
    {
        let ghost before = texts(out@);
        out.push(v[i].clone());
        assert(texts(out@) =~= before.push(texts(v@)[i as int]));
        assert(texts(out@) =~= texts(v@).subrange(1, i + 1));
    }
    assert(texts(v@).subrange(1, v.len() as int) =~= texts(v@).skip(1));
    out
}

fn just_all() -> (out: Vec<String>)
    ensures
        texts(out@) == seq!["all"@],
{
    let mut out: Vec<String> = Vec::new();
    out.push("all".to_owned());
    assert(texts(out@) =~= seq!["all"@]);
    out
}

fn plain(command: Command) -> (r: Result<Request, CliError>)
    ensures
        r matches Ok(c) && c.command == command && c.flags == no_flags(),
{
    Ok(Request { command, flags: Flags { yes: false, verbose: false, debug_jobs: false } })
}

/// What the command line of `redo-msh` asks for. Help and version are recognized
/// in any position; a target that is called like an option must be given as a
/// path.
pub fn run(args: &[String]) -> (r: Result<Request, CliError>)
    ensures
        ({
            let all = texts(args@);
            if asks_help(all) {
                r matches Ok(c) && c.command@ is Help && c.flags == no_flags()
            } else if all.contains("--version"@) {
                r matches Ok(c) && c.command@ is Version && c.flags == no_flags()
            } else {
                match options_of(all) {
                    Ok(p) => r matches Ok(c) && c.command@ == verb_command(p) && c.flags == p.flags,
                    Err(e) => r matches Err(x) && x@ == e,
                }
            }
        }),
{
    if lists(args, "-h") || lists(args, "--help") {
        return plain(Command::Help);
    }
    if lists(args, "--version") {
        return plain(Command::Version);
    }
    let p = match extract_jobs(args) {
        Ok(p) => p,
        Err(e) => return Err(e),
    };
    let Parsed { jobs, rest: words, flags } = p;
    assert(texts(words@).len() == words.len());
    if words.len() == 0 {
        return Ok(Request { command: Command::Build { targets: just_all(), jobs }, flags });
    }
    let verb = words[0].as_str();
    assert(texts(words@)[0] == verb@);
    if same(verb, "root") {
        return Ok(Request { command: Command::Root(without_first(&words)), flags });
    }
    if same(verb, "ifchange") {
        return Ok(Request { command: Command::IfChange(without_first(&words)), flags });
    }
    if same(verb, "ifcreate") {
        return Ok(Request { command: Command::IfCreate(without_first(&words)), flags });
    }
    if same(verb, "always") {
        return Ok(Request { command: Command::Always, flags });
    }
    if same(verb, "stamp") {
        return Ok(Request { command: Command::Stamp, flags });
    }
    if same(verb, "sources") {
        return Ok(Request { command: Command::Sources, flags });
    }
    if same(verb, "targets") {
        return Ok(Request { command: Command::Targets, flags });
    }
    if same(verb, "ood") {
        return Ok(Request { command: Command::Ood, flags });
    }
    if same(verb, "tree") {
        return Ok(Request { command: Command::Tree(without_first(&words)), flags });
    }
    if same(verb, "help") {
        return Ok(Request { command: Command::Help, flags });
    }
    Ok(Request { command: Command::Build { targets: words, jobs }, flags })
}

/// What the command line of a command of its own asks for; without a verb, it is
/// `redo`, which builds targets.
pub fn run_forward(verb: Option<&str>, args: &[String]) -> (r: Result<Request, CliError>)
    ensures
        ({
            let all = texts(args@);
            if asks_help(all) {
                r matches Ok(c) && c.command@ is Help && c.flags == no_flags()
            } else if all.contains("--version"@) {
                r matches Ok(c) && c.command@ is Version && c.flags == no_flags()
            } else {
                match verb {
                    None => match options_of(all) {
                        Ok(p) => r matches Ok(c) && c.command@ == (CommandView::Build {
                            targets: or_all(p.rest),
                            jobs: p.jobs,
                        }) && c.flags == p.flags,
                        Err(e) => r matches Err(x) && x@ == e,
                    },
                    Some(v) => if v@ == "ifchange"@ {
                        r matches Ok(c) && c.command@ == CommandView::IfChange(all) && c.flags == no_flags()
                    } else if v@ == "ifcreate"@ {
                        r matches Ok(c) && c.command@ == CommandView::IfCreate(all) && c.flags == no_flags()
                    } else if v@ == "always"@ {
                        r matches Ok(c) && c.command@ is Always && c.flags == no_flags()
                    } else if v@ == "stamp"@ {
                        r matches Ok(c) && c.command@ is Stamp && c.flags == no_flags()
                    } else {
                        r matches Err(x) && x@ == (CliErrorView::UnknownVerb { verb: v@ })
                    },
                }
            }
        }),
{
    if lists(args, "-h") || lists(args, "--help") {
        return plain(Command::Help);
    }
    if lists(args, "--version") {
        return plain(Command::Version);
    }
    let v = match verb {
        None => {
            let p = match extract_jobs(args) {
                Ok(p) => p,
                Err(e) => return Err(e),
            };
            let Parsed { jobs, rest: words, flags } = p;
            assert(texts(words@).len() == words.len());
            let targets = if words.len() == 0 {
                just_all()
            } else {
                words
            };
            return Ok(Request { command: Command::Build { targets, jobs }, flags });
        },
        Some(v) => v,
    };
    if same(v, "ifchange") {
        return plain(Command::IfChange(copy_texts(args)));
    }
    if same(v, "ifcreate") {
        return plain(Command::IfCreate(copy_texts(args)));
    }
    if same(v, "always") {
        return plain(Command::Always);
    }
    if same(v, "stamp") {
        return plain(Command::Stamp);
    }
    Err(CliError::UnknownVerb { verb: v.to_owned() })
}

/// The name of a command, for diagnostics.
pub fn prog_name(verb: Option<&str>) -> (s: String)
    ensures
        s@ == match verb {
            Some(v) => "redo-"@ + v@,
            None => "redo"@,
        },
{
    match verb {
        Some(v) => cat("redo-", v),
        None => "redo".to_owned(),
    }
}

/// However a command line reads, at least one job runs.
pub proof fn law_one_job_at_least(args: Seq<Seq<char>>)
    ensures
        options_of(args) matches Ok(p) ==> p.jobs >= 1,
{
}

/// The help of `redo-msh`, after its name and version.
pub const USAGE: &'static str = " — DJB redo, cross-platform, mshell do-files

USAGE:
    redo-msh [options] <targets...>   (re)build the given targets
                                      (no targets builds `all`)

COMMANDS:
    redo-msh <targets...>         build targets (forced)
    redo-msh ifchange <deps...>   build deps if out of date; record them as
                                  dependencies of the current target (do-files)
    redo-msh ifcreate <paths...>  record that the current target depends on
                                  these paths NOT existing
    redo-msh always               mark the current target as always out of date
    redo-msh stamp                drain stdin (compat no-op; outputs are hashed)
    redo-msh root [dir]           initialize a project root (.redom/) here or at dir
    redo-msh sources              list known source files
    redo-msh targets              list known generated targets
    redo-msh ood                  list out-of-date targets (without building)
    redo-msh tree [targets...]    print the dependency tree of the last run

These are also available as the standalone commands `redo`, `redo-ifchange`,
`redo-ifcreate`, `redo-always`, and `redo-stamp` (shipped alongside redo-msh),
which existing do-files call directly.

OPTIONS:
    -j N, --jobs N                build up to N targets in parallel (default 1)
    -y, --yes                     overwrite hand-edited targets without asking
    --version                     print version
    -h, --help                    show this help

Do-files are run with `msh <dofile> $1 $2 $3` by default; a project may commit
a `redo.toml` to run some or all do-files with another interpreter (e.g.
`sh -e`). $1 = target, $2 = target without extension, $3 = temp output path.

To name a target beginning with '-', give it a path, e.g. `./--my-file`.";

/// The help of `redo`, after its name and version.
pub const USAGE_REDO: &'static str = " — build targets (forced); with no targets, builds `all`.

USAGE:
    redo [options] [targets...]

OPTIONS:
    -j N, --jobs N   build up to N targets in parallel (default 1)
    -y, --yes        overwrite hand-edited targets without asking
    -h, --help       show this help
    --version        print version

To name a target/dependency beginning with '-', give it a path,
e.g. `./--my-file`.
";

/// The help of `redo-ifchange`, after its name and version.
pub const USAGE_IFCHANGE: &'static str = " — build dependencies if out of date and record them as
dependencies of the current target. Call from within a do-file.

USAGE:
    redo-ifchange <deps...>

OPTIONS:
    -h, --help   show this help
    --version    print version

To name a target/dependency beginning with '-', give it a path,
e.g. `./--my-file`.
";

/// The help of `redo-ifcreate`, after its name and version.
pub const USAGE_IFCREATE: &'static str = " — record that the current target depends on the given
paths NOT existing. Call from within a do-file.

USAGE:
    redo-ifcreate <paths...>

OPTIONS:
    -h, --help   show this help
    --version    print version

To name a target/dependency beginning with '-', give it a path,
e.g. `./--my-file`.
";

/// The help of `redo-always`, after its name and version.
pub const USAGE_ALWAYS: &'static str = " — mark the current target as always out of date. Call from
within a do-file.

USAGE:
    redo-always

OPTIONS:
    -h, --help   show this help
    --version    print version
";

/// The help of `redo-stamp`, after its name and version.
pub const USAGE_STAMP: &'static str = " — drain standard input and exit. Compatibility no-op:
redo-msh content-hashes every committed output by default, so an explicit
stamp is unnecessary.

USAGE:
    <command> | redo-stamp

OPTIONS:
    -h, --help   show this help
    --version    print version
";

/// The help of `redo-msh`.
pub fn usage(version: &str) -> (s: String)
    ensures
        s@ == "redo-msh "@ + version@ + USAGE@,
{
    cat3("redo-msh ", version, USAGE)
}

/// The help of a command of its own.
pub open spec fn forward_help(verb: Option<&str>, version: Seq<char>) -> Seq<char> {
    match verb {
        None => "redo "@ + version + USAGE_REDO@,
        Some(v) => if v@ == "ifchange"@ {
            "redo-ifchange "@ + version + USAGE_IFCHANGE@
        } else if v@ == "ifcreate"@ {
            "redo-ifcreate "@ + version + USAGE_IFCREATE@
        } else if v@ == "always"@ {
            "redo-always "@ + version + USAGE_ALWAYS@
        } else if v@ == "stamp"@ {
            "redo-stamp "@ + version + USAGE_STAMP@
        } else {
            "redo-"@ + v@ + ": no help available\n"@
        },
    }
}

/// The help of a command of its own.
pub fn forward_usage(verb: Option<&str>, version: &str) -> (s: String)
    ensures
        s@ == forward_help(verb, version@),
{
    let v = match verb {
        None => return cat3("redo ", version, USAGE_REDO),
        Some(v) => v,
    };
    if same(v, "ifchange") {
        cat3("redo-ifchange ", version, USAGE_IFCHANGE)
    } else if same(v, "ifcreate") {
        cat3("redo-ifcreate ", version, USAGE_IFCREATE)
    } else if same(v, "always") {
        cat3("redo-always ", version, USAGE_ALWAYS)
    } else if same(v, "stamp") {
        cat3("redo-stamp ", version, USAGE_STAMP)
    } else {
        cat3("redo-", v, ": no help available\n")
    }
}

/// Whether an argument is no option.
pub open spec fn is_word(a: Seq<char>) -> bool {
    a != "-j"@ && a != "--jobs"@ && !starts(a, "--jobs="@) && !starts(a, "-j"@) && a != "--yes"@
        && a != "-y"@ && a != "--verbose"@ && a != "--debug-jobs"@
}

/// Arguments that are no options are left as they are, in their order.
pub proof fn law_words_are_kept(args: Seq<Seq<char>>, st: ParsedView)
    requires
        forall|i: int| 0 <= i < args.len() ==> is_word(#[trigger] args[i]),
    ensures
        take_options(args, st) == Ok::<ParsedView, CliErrorView>(
            ParsedView { rest: st.rest + args, ..st },
        ),
    decreases args.len(),
{
    if args.len() == 0 {
        assert(st.rest + args =~= st.rest);
    } else {
        assert(is_word(args[0]));
        let rest = args.skip(1);
        assert forall|i: int| 0 <= i < rest.len() implies is_word(#[trigger] rest[i]) by {
            assert(rest[i] == args[i + 1]);
        }
        let next = ParsedView { rest: st.rest.push(args[0]), ..st };
        law_words_are_kept(rest, next);
        assert(next.rest + rest =~= st.rest + args);
    }
}

/// A command line is read from left to right: what comes first is settled before what follows is
/// looked at, be it understood or refused. (Only a number that is missing at the end may follow.)
pub proof fn law_arguments_add_up(a: Seq<Seq<char>>, b: Seq<Seq<char>>, st: ParsedView)
    ensures
        take_options(a, st) matches Ok(mid) ==> take_options(a + b, st) == take_options(b, mid),
        take_options(a, st) matches Err(e) ==> e is BadNumber ==> take_options(a + b, st) == Err::<
            ParsedView,
            CliErrorView,
        >(e),
    decreases a.len(),
{
    if a.len() == 0 {
        assert(a + b =~= b);
    } else {
        let all = a + b;
        assert(all[0] == a[0]);
        assert(all.skip(1) =~= a.skip(1) + b);
        let w = a[0];
        if w == "-j"@ || w == "--jobs"@ {
            if a.len() >= 2 {
                assert(all[1] == a[1]);
                assert(all.skip(2) =~= a.skip(2) + b);
                if let Ok(next) = jobs_option(st, a[1]) {
                    law_arguments_add_up(a.skip(2), b, next);
                }
            }
        } else if starts(w, "--jobs="@) {
            if let Ok(next) = jobs_option(st, w.skip(7)) {
                law_arguments_add_up(a.skip(1), b, next);
            }
        } else if starts(w, "-j"@) {
            if let Ok(next) = jobs_option(st, w.skip(2)) {
                law_arguments_add_up(a.skip(1), b, next);
            }
        } else if w == "--yes"@ || w == "-y"@ {
            law_arguments_add_up(
                a.skip(1),
                b,
                ParsedView { flags: Flags { yes: true, ..st.flags }, ..st },
            );
        } else if w == "--verbose"@ {
            law_arguments_add_up(
                a.skip(1),
                b,
                ParsedView { flags: Flags { verbose: true, ..st.flags }, ..st },
            );
        } else if w == "--debug-jobs"@ {
            law_arguments_add_up(
                a.skip(1),
                b,
                ParsedView { flags: Flags { debug_jobs: true, ..st.flags }, ..st },
            );
        } else {
            law_arguments_add_up(a.skip(1), b, ParsedView { rest: st.rest.push(w), ..st });
        }
    }
}

proof fn lemma_option_words()
    ensures
        "-j"@ =~= seq!['-', 'j'],
        "--jobs"@ =~= seq!['-', '-', 'j', 'o', 'b', 's'],
        "--jobs="@ =~= seq!['-', '-', 'j', 'o', 'b', 's', '='],
        "--yes"@ =~= seq!['-', '-', 'y', 'e', 's'],
        "-y"@ =~= seq!['-', 'y'],
        "--verbose"@ =~= seq!['-', '-', 'v', 'e', 'r', 'b', 'o', 's', 'e'],
        "--debug-jobs"@ =~= seq!['-', '-', 'd', 'e', 'b', 'u', 'g', '-', 'j', 'o', 'b', 's'],
{
    reveal_strlit("-j");
    reveal_strlit("--jobs");
    reveal_strlit("--jobs=");
    reveal_strlit("--yes");
    reveal_strlit("-y");
    reveal_strlit("--verbose");
    reveal_strlit("--debug-jobs");
}

/// A number of jobs can be given in four ways, which mean the same.
pub proof fn law_four_ways_to_say_jobs(n: Seq<char>, st: ParsedView)
    requires
        n.len() > 0,
    ensures
        take_options(seq!["-j"@, n], st) == jobs_option(st, n),
        take_options(seq!["--jobs"@, n], st) == jobs_option(st, n),
        take_options(seq!["--jobs="@ + n], st) == jobs_option(st, n),
        take_options(seq!["-j"@ + n], st) == jobs_option(st, n),
{
    lemma_option_words();
    reveal_with_fuel(take_options, 2);
    let a = seq!["-j"@, n];
    let b = seq!["--jobs"@, n];
    assert(a.skip(2) =~= Seq::<Seq<char>>::empty());
    assert(b.skip(2) =~= Seq::<Seq<char>>::empty());
    let long = "--jobs="@ + n;
    let c = seq![long];
    assert(c.skip(1) =~= Seq::<Seq<char>>::empty());
    assert(long.take(7) =~= "--jobs="@);
    assert(long.skip(7) =~= n);
    assert(long.len() > 7);
    let short = "-j"@ + n;
    let d = seq![short];
    assert(d.skip(1) =~= Seq::<Seq<char>>::empty());
    assert(short.take(2) =~= "-j"@);
    assert(short.skip(2) =~= n);
    assert(short.len() > 2);
    assert(short[1] == 'j');
    assert("--jobs"@[1] == '-');
    assert(short != "--jobs"@);
    assert(short.take(7)[1] == 'j' || short.len() < 7);
    assert("--jobs="@[1] == '-');
    assert(!starts(short, "--jobs="@));
}

/// Of several numbers of jobs the last counts, whatever was said before, and zero jobs are one;
/// the rest of the command line stays as it was said.
pub proof fn law_last_number_of_jobs_counts(
    before: Seq<Seq<char>>,
    option: Seq<Seq<char>>,
    n: Seq<char>,
    after: Seq<Seq<char>>,
    p: ParsedView,
)
    requires
        n.len() > 0,
        option == seq!["-j"@, n] || option == seq!["--jobs"@, n] || option == seq!["--jobs="@ + n]
            || option == seq!["-j"@ + n],
        options_of(before) == Ok::<ParsedView, CliErrorView>(p),
        forall|i: int| 0 <= i < after.len() ==> is_word(#[trigger] after[i]),
    ensures
        unsigned_value(n, usize::MAX as int) matches Some(v) ==> options_of(before + option + after)
            == Ok::<ParsedView, CliErrorView>(
            ParsedView {
                jobs: if v == 0 {
                    1
                } else {
                    v
                },
                rest: p.rest + after,
                flags: p.flags,
            },
        ),
        unsigned_value(n, usize::MAX as int) is None ==> options_of(before + option + after)
            == Err::<ParsedView, CliErrorView>(
            CliErrorView::BadNumber { text: n, fault: fault_of(n, usize::MAX as int) },
        ),
{
    let start = ParsedView { jobs: 1, rest: Seq::empty(), flags: no_flags() };
    law_arguments_add_up(before, option + after, start);
    assert(before + option + after =~= before + (option + after));
    let mid = take_options(before, start)->Ok_0;
    law_four_ways_to_say_jobs(n, mid);
    law_arguments_add_up(option, after, mid);
    crate::num::lemma_signed_range(n, usize::MAX as int);
    if let Ok(next) = jobs_option(mid, n) {
        law_words_are_kept(after, next);
    }
}

/// An option that is given is noticed, wherever it stands, and one that is not given is not; an
/// option is no argument.
pub proof fn law_flags_are_noticed(args: Seq<Seq<char>>)
    ensures
        options_of(args) matches Ok(p) ==> {
            &&& p.flags.yes == (args.contains("--yes"@) || args.contains("-y"@))
            &&& p.flags.verbose == args.contains("--verbose"@)
            &&& p.flags.debug_jobs == args.contains("--debug-jobs"@)
            &&& forall|i: int| 0 <= i < p.rest.len() ==> is_word(#[trigger] p.rest[i])
            &&& forall|i: int|
                0 <= i < p.rest.len() ==> args.contains(#[trigger] p.rest[i])
            &&& forall|i: int| #![trigger args[i]]
                0 <= i < args.len() && is_word(args[i]) && (i == 0 || (args[i - 1] != "-j"@
                    && args[i - 1] != "--jobs"@)) ==> p.rest.contains(args[i])
        },
{
    let start = ParsedView { jobs: 1, rest: Seq::empty(), flags: no_flags() };
    lemma_flags_noticed(args, start);
}

proof fn lemma_flags_noticed(args: Seq<Seq<char>>, st: ParsedView)
    requires
        forall|i: int| 0 <= i < st.rest.len() ==> is_word(#[trigger] st.rest[i]),
    ensures
        take_options(args, st) matches Ok(p) ==> {
            &&& p.flags.yes == (st.flags.yes || args.contains("--yes"@) || args.contains("-y"@))
            &&& p.flags.verbose == (st.flags.verbose || args.contains("--verbose"@))
            &&& p.flags.debug_jobs == (st.flags.debug_jobs || args.contains("--debug-jobs"@))
            &&& forall|i: int| 0 <= i < p.rest.len() ==> is_word(#[trigger] p.rest[i])
            &&& forall|i: int|
                0 <= i < p.rest.len() ==> st.rest.contains(#[trigger] p.rest[i]) || args.contains(
                    p.rest[i],
                )
            &&& forall|i: int|
                0 <= i < st.rest.len() ==> p.rest.contains(#[trigger] st.rest[i])
            &&& forall|i: int| #![trigger args[i]]
                0 <= i < args.len() && is_word(args[i]) && (i == 0 || (args[i - 1] != "-j"@
                    && args[i - 1] != "--jobs"@)) ==> p.rest.contains(args[i])
        },
    decreases args.len(),
{
    if args.len() > 0 {
        lemma_option_words();
        let a = args[0];
        let rest = args.skip(1);
        let next = if a == "-j"@ || a == "--jobs"@ {
            if args.len() < 2 {
                st
            } else {
                match jobs_option(st, args[1]) {
                    Ok(s) => s,
                    Err(_) => st,
                }
            }
        } else if starts(a, "--jobs="@) {
            match jobs_option(st, a.skip(7)) {
                Ok(s) => s,
                Err(_) => st,
            }
        } else if starts(a, "-j"@) {
            match jobs_option(st, a.skip(2)) {
                Ok(s) => s,
                Err(_) => st,
            }
        } else if a == "--yes"@ || a == "-y"@ {
            ParsedView { flags: Flags { yes: true, ..st.flags }, ..st }
        } else if a == "--verbose"@ {
            ParsedView { flags: Flags { verbose: true, ..st.flags }, ..st }
        } else if a == "--debug-jobs"@ {
            ParsedView { flags: Flags { debug_jobs: true, ..st.flags }, ..st }
        } else {
            ParsedView { rest: st.rest.push(a), ..st }
        };
        let m: int = if (a == "-j"@ || a == "--jobs"@) && args.len() >= 2 {
            2
        } else {
            1
        };
        let tail = args.skip(m);
        if take_options(args, st) is Ok {
            lemma_flags_noticed(tail, next);
            let p = take_options(args, st)->Ok_0;
            lemma_begins_with(a);
            assert forall|x: Seq<char>|
                #![trigger args.contains(x)]
                args.contains(x) <==> x == a || (m == 2 && x == args[1]) || tail.contains(x) by {
                if args.contains(x) {
                    let k = choose|k: int| 0 <= k < args.len() && args[k] == x;
                    if k >= m {
                        assert(tail[k - m] == x);
                    }
                }
                if tail.contains(x) {
                    let k = choose|k: int| 0 <= k < tail.len() && tail[k] == x;
                    assert(args[k + m] == x);
                }
            }
            if m == 2 {
                assert(unsigned_value(args[1], usize::MAX as int) is Some);
                assert(args[1] != "--yes"@ && args[1] != "-y"@ && args[1] != "--verbose"@ && args[1]
                    != "--debug-jobs"@) by {
                    if args[1].len() > 0 && args[1][0] == '-' {
                        assert(!crate::num::is_digit(args[1][0]));
                    }
                }
            }
            assert forall|i: int| 0 <= i < p.rest.len() implies st.rest.contains(
                #[trigger] p.rest[i],
            ) || args.contains(p.rest[i]) by {
                if next.rest.contains(p.rest[i]) {
                    let k = choose|k: int| 0 <= k < next.rest.len() && next.rest[k] == p.rest[i];
                    if k < st.rest.len() {
                        assert(st.rest[k] == p.rest[i]);
                    }
                }
            }
            assert forall|i: int| 0 <= i < st.rest.len() implies p.rest.contains(
                #[trigger] st.rest[i],
            ) by {
                assert(next.rest[i] == st.rest[i]);
            }
            assert forall|i: int| #![trigger args[i]]
                0 <= i < args.len() && is_word(args[i]) && (i == 0 || (args[i - 1] != "-j"@
                    && args[i - 1] != "--jobs"@)) implies p.rest.contains(args[i]) by {
                if i == 0 {
                    assert(next.rest[st.rest.len() as int] == a);
                } else if i >= m {
                    assert(tail[i - m] == args[i]);
                    if i > m {
                        assert(tail[i - m - 1] == args[i - 1]);
                    }
                }
            }
        }
    }
}

/// An argument that begins like a number of jobs is none of the other options.
proof fn lemma_begins_with(a: Seq<char>)
    ensures
        starts(a, "-j"@) || starts(a, "--jobs="@) || a == "--jobs"@ ==> a != "--yes"@ && a != "-y"@
            && a != "--verbose"@ && a != "--debug-jobs"@,
        "--verbose"@ != "--yes"@ && "--verbose"@ != "-y"@ && "--debug-jobs"@ != "--yes"@
            && "--debug-jobs"@ != "-y"@ && "--debug-jobs"@ != "--verbose"@,
{
    lemma_option_words();
    if starts(a, "-j"@) {
        assert(a.take(2)[1] == 'j');
        assert(a[1] == 'j');
        assert("--yes"@[1] == '-' && "-y"@[1] == 'y' && "--verbose"@[1] == '-' && "--debug-jobs"@[1]
            == '-');
    }
    if starts(a, "--jobs="@) {
        assert(a.take(7)[2] == 'j');
        assert(a[2] == 'j');
    }
    assert("--jobs"@[2] == 'j');
    assert("--yes"@[2] == 'y' && "--verbose"@[2] == 'v' && "--debug-jobs"@[2] == 'd');
    assert("-y"@.len() == 2);
}

/// The first argument is a command if it is the name of one; the rest is then what the command is
/// about. If it is not, all arguments are targets; and if there is none, the target is `all`.
pub proof fn law_verbs(tail: Seq<Seq<char>>, jobs: int, flags: Flags, word: Seq<char>)
    ensures
        ({
            let of = |verb: Seq<char>|
                verb_command(ParsedView { jobs, rest: seq![verb] + tail, flags });
            &&& of("root"@) == CommandView::Root(tail)
            &&& of("ifchange"@) == CommandView::IfChange(tail)
            &&& of("ifcreate"@) == CommandView::IfCreate(tail)
            &&& of("tree"@) == CommandView::Tree(tail)
            &&& of("always"@) is Always
            &&& of("stamp"@) is Stamp
            &&& of("sources"@) is Sources
            &&& of("targets"@) is Targets
            &&& of("ood"@) is Ood
            &&& of("help"@) is Help
            &&& !seq![
                "root"@,
                "ifchange"@,
                "ifcreate"@,
                "tree"@,
                "always"@,
                "stamp"@,
                "sources"@,
                "targets"@,
                "ood"@,
                "help"@,
            ].contains(word) ==> of(word) == (CommandView::Build {
                targets: seq![word] + tail,
                jobs,
            })
            &&& verb_command(ParsedView { jobs, rest: Seq::empty(), flags }) == (
            CommandView::Build { targets: seq!["all"@], jobs })
        }),
{
    lemma_verbs();
    let of = |verb: Seq<char>| verb_command(ParsedView { jobs, rest: seq![verb] + tail, flags });
    assert forall|verb: Seq<char>| #[trigger] (seq![verb] + tail).skip(1) == tail && (seq![verb]
        + tail)[0] == verb by {
        assert((seq![verb] + tail).skip(1) =~= tail);
    }
    let all = seq![
        "root"@,
        "ifchange"@,
        "ifcreate"@,
        "tree"@,
        "always"@,
        "stamp"@,
        "sources"@,
        "targets"@,
        "ood"@,
        "help"@,
    ];
    if !all.contains(word) {
        assert(all[0] != word && all[1] != word && all[2] != word && all[3] != word && all[4]
            != word && all[5] != word && all[6] != word && all[7] != word && all[8] != word
            && all[9] != word);
        assert(all[0] == "root"@ && all[1] == "ifchange"@ && all[2] == "ifcreate"@ && all[3]
            == "tree"@ && all[4] == "always"@ && all[5] == "stamp"@ && all[6] == "sources"@
            && all[7] == "targets"@ && all[8] == "ood"@ && all[9] == "help"@);
    }
}

/// The names of the commands differ.
proof fn lemma_verbs()
    ensures
        "root"@ =~= seq!['r', 'o', 'o', 't'],
        "ifchange"@ =~= seq!['i', 'f', 'c', 'h', 'a', 'n', 'g', 'e'],
        "ifcreate"@ =~= seq!['i', 'f', 'c', 'r', 'e', 'a', 't', 'e'],
        "ifchange"@ != "ifcreate"@,
        "tree"@ != "root"@ && "tree"@ != "help"@ && "root"@ != "help"@,
        "sources"@ != "targets"@,
        "stamp"@.len() == 5,
        "always"@.len() == 6,
        "ood"@.len() == 3,
        "sources"@.len() == 7,
        "targets"@.len() == 7,
        "tree"@.len() == 4,
        "help"@.len() == 4,
{
    reveal_strlit("root");
    reveal_strlit("ifchange");
    reveal_strlit("ifcreate");
    reveal_strlit("tree");
    reveal_strlit("always");
    reveal_strlit("stamp");
    reveal_strlit("sources");
    reveal_strlit("targets");
    reveal_strlit("ood");
    reveal_strlit("help");
    assert("ifchange"@[3] == 'h' && "ifcreate"@[3] == 'r');
    assert("tree"@[0] == 't' && "root"@[0] == 'r' && "help"@[0] == 'h');
    assert("sources"@[0] == 's' && "targets"@[0] == 't');
}

}
