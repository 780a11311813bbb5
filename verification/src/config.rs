//! Per-project interpreter configuration: `redo.toml` at the project root.
//!
//! The only built-in do-file interpreter is `msh`. A project whose do-files are
//! written for another one maps them to the command that runs them; shebangs
//! are not parsed.
//!
//! Resolution for a do-file, first match wins:
//!   1. a matching `rule` in the section of the current platform,
//!   2. that section's `default`,
//!   3. a matching `rule` in the shared section,
//!   4. the shared `default`,
//!   5. the built-in `["msh"]`.
//!
//! WSL has a section of its own, and falls back on the one for Linux.
//!
//! A `match` pattern without `/` is tested against the do-file's basename, one
//! with `/` against its root-relative path. `*` matches any run of characters
//! other than `/`, and `?` matches one; neither crosses a directory separator.

use crate::text::{
    copy_texts, cut_once, holds, lower, occurs, split, split_on, split_once, texts, to_chars,
    to_lower,
};
use vstd::prelude::*;

verus! {

/// The interpreter used when nothing in the configuration matches.
pub const DEFAULT_INTERPRETER: &'static str = "msh";

/// A command for the do-files that a pattern matches.
#[derive(Debug, Clone, PartialEq, Eq)]
pub struct Rule {
    pub pattern: String,
    pub command: Vec<String>,
}

/// Rules and a default.
#[derive(Debug, Clone, PartialEq, Eq)]
pub struct Section {
    pub default: Option<Vec<String>>,
    pub rules: Vec<Rule>,
}

/// The sections of the platforms.
#[derive(Debug, Clone, PartialEq, Eq)]
pub struct Platforms {
    pub linux: Option<Section>,
    pub wsl: Option<Section>,
    pub windows: Option<Section>,
    pub macos: Option<Section>,
}

/// The configuration of a project.
#[derive(Debug, Clone, PartialEq, Eq)]
pub struct Config {
    pub interpreter: Section,
    pub platform: Platforms,
}

/// Where the tool runs.
#[derive(Clone, Copy, PartialEq, Eq, Debug, Structural)]
pub enum Platform {
    Linux,
    Wsl,
    Windows,
    Macos,
    Other,
}

/// A command, as a mathematical value.
pub type Command = Seq<Seq<char>>;

/// Whether a pattern matches the whole of a text.
pub open spec fn glob(p: Seq<char>, t: Seq<char>) -> bool
    decreases p.len(), t.len(),
{
    if p.len() == 0 {
        t.len() == 0
    } else if p[0] == '*' {
        glob(p.skip(1), t) || (t.len() > 0 && t[0] != '/' && glob(p, t.skip(1)))
    } else if p[0] == '?' {
        t.len() > 0 && t[0] != '/' && glob(p.skip(1), t.skip(1))
    } else {
        t.len() > 0 && t[0] == p[0] && glob(p.skip(1), t.skip(1))
    }
}

/// What follows the last slash.
pub open spec fn basename(path: Seq<char>) -> Seq<char> {
    split(path, '/').last()
}

/// Whether a rule applies to a do-file.
pub open spec fn rule_applies(r: Rule, path: Seq<char>) -> bool {
    glob(
        r.pattern@,
        if occurs(r.pattern@, '/') {
            path
        } else {
            basename(path)
        },
    )
}

/// The command of the first rule that applies.
pub open spec fn first_rule(rules: Seq<Rule>, path: Seq<char>) -> Option<Command>
    decreases rules.len(),
{
    if rules.len() == 0 {
        None
    } else if rule_applies(rules[0], path) {
        Some(texts(rules[0].command@))
    } else {
        first_rule(rules.skip(1), path)
    }
}

/// What a section says about a do-file: a rule, else the default.
pub open spec fn section_command(s: Section, path: Seq<char>) -> Option<Command> {
    match first_rule(s.rules@, path) {
        Some(c) => Some(c),
        None => match s.default {
            Some(d) => Some(texts(d@)),
            None => None,
        },
    }
}

/// A command that can be run: an empty one gives way to the built-in.
pub open spec fn runnable(c: Command) -> Command {
    if c.len() == 0 {
        seq![DEFAULT_INTERPRETER@]
    } else {
        c
    }
}

/// The section to consult first.
pub open spec fn primary(c: Config, plat: Platform) -> Option<Section> {
    match plat {
        Platform::Wsl => if c.platform.wsl is Some {
            c.platform.wsl
        } else {
            c.platform.linux
        },
        Platform::Linux => c.platform.linux,
        Platform::Windows => c.platform.windows,
        Platform::Macos => c.platform.macos,
        Platform::Other => None,
    }
}

/// The command for a do-file.
pub open spec fn command_for(c: Config, plat: Platform, path: Seq<char>) -> Command {
    let first = match primary(c, plat) {
        Some(s) => section_command(s, path),
        None => None,
    };
    runnable(
        match first {
            Some(cmd) => cmd,
            None => match section_command(c.interpreter, path) {
                Some(cmd) => cmd,
                None => seq![DEFAULT_INTERPRETER@],
            },
        },
    )
}

fn glob_at(p: &[char], i: usize, t: &[char], j: usize) -> (r: bool)
    requires
        i <= p.len(),
        j <= t.len(),
    ensures
        r == glob(p@.skip(i as int), t@.skip(j as int)),
    decreases p.len() - i, t.len() - j,
{
    let ghost ps = p@.skip(i as int);
    let ghost ts = t@.skip(j as int);
    if i == p.len() {
        return j == t.len();
    }
    assert(ps[0] == p@[i as int]);
    assert(ps.skip(1) =~= p@.skip(i + 1));
    if j < t.len() {
        assert(ts[0] == t@[j as int]);
        assert(ts.skip(1) =~= t@.skip(j + 1));
    }
    let c = p[i];
    if c == '*' {
        if glob_at(p, i + 1, t, j) {
            return true;
        }
        j < t.len() && t[j] != '/' && glob_at(p, i, t, j + 1)
    } else if c == '?' {
        j < t.len() && t[j] != '/' && glob_at(p, i + 1, t, j + 1)
    } else {
        j < t.len() && t[j] == c && glob_at(p, i + 1, t, j + 1)
    }
}

/// Glob match: `*` matches any run of non-`/`, `?` matches one non-`/`, every
/// other character is literal. Anchored at both ends.
pub fn glob_match(pattern: &str, text: &str) -> (r: bool)
    ensures
        r == glob(pattern@, text@),
{
    let p = to_chars(pattern);
    let t = to_chars(text);
    assert(p@.skip(0) =~= pattern@);
    assert(t@.skip(0) =~= text@);
    glob_at(p.as_slice(), 0, t.as_slice(), 0)
}

/// Guard against an empty command, which could not be run.
fn non_empty(cmd: Vec<String>) -> (r: Vec<String>)
    ensures
        texts(r@) == runnable(texts(cmd@)),
{
    if cmd.len() == 0 {
        let mut r: Vec<String> = Vec::new();
        r.push(DEFAULT_INTERPRETER.to_owned());
        assert(texts(r@) =~= seq![DEFAULT_INTERPRETER@]);
        r
    } else {
        cmd
    }
}

impl Section {
    /// A section that says nothing.
    pub fn empty() -> (s: Section)
        ensures
            s.default is None,
            s.rules@ == Seq::<Rule>::empty(),
    {
        Section { default: None, rules: Vec::new() }
    }

    /// The command of the first rule that matches a do-file.
    pub fn match_rule(&self, dofile_rel: &str, base: &str) -> (r: Option<Vec<String>>)
        requires
            base@ == basename(dofile_rel@),
        ensures
            match r {
                Some(c) => first_rule(self.rules@, dofile_rel@) == Some(texts(c@)),
                None => first_rule(self.rules@, dofile_rel@) is None,
            },
    {
        assert(self.rules@.skip(0) =~= self.rules@);
        for i in 0..self.rules.len()
            invariant
                base@ == basename(dofile_rel@),
                first_rule(self.rules@, dofile_rel@) == first_rule(
                    self.rules@.skip(i as int),
                    dofile_rel@,
                ),
        {
            let r = &self.rules[i];
            let ghost rest = self.rules@.skip(i as int);
            assert(rest[0] == r);
            assert(rest.skip(1) =~= self.rules@.skip(i + 1));
            let text = if holds(r.pattern.as_str(), '/') {
                dofile_rel
            } else {
                base
            };
            if glob_match(r.pattern.as_str(), text) {
                return Some(copy_texts(r.command.as_slice()));
            }
        }
        None
    }

    /// What the section says about a do-file.
    fn command(&self, dofile_rel: &str, base: &str) -> (r: Option<Vec<String>>)
        requires
            base@ == basename(dofile_rel@),
        ensures
            match r {
                Some(c) => section_command(*self, dofile_rel@) == Some(texts(c@)),
                None => section_command(*self, dofile_rel@) is None,
            },
    {
        match self.match_rule(dofile_rel, base) {
            Some(c) => Some(c),
            None => match &self.default {
                Some(d) => Some(copy_texts(d.as_slice())),
                None => None,
            },
        }
    }
}

impl Default for Config {
    /// The configuration of a project that has none.
    fn default() -> (c: Config)
        ensures
            c.interpreter.default is None,
            c.interpreter.rules@ == Seq::<Rule>::empty(),
            c.platform.linux is None && c.platform.wsl is None && c.platform.windows is None
                && c.platform.macos is None,
    {
        Config {
            interpreter: Section::empty(),
            platform: Platforms { linux: None, wsl: None, windows: None, macos: None },
        }
    }
}

impl Config {
    /// The section to consult first: that of the platform, or that of Linux for
    /// WSL when it has none of its own.
    pub fn primary_section(&self, plat: Platform) -> (r: Option<&Section>)
        ensures
            match r {
                Some(s) => primary(*self, plat) == Some(*s),
                None => primary(*self, plat) is None,
            },
    {
        match plat {
            Platform::Wsl => match &self.platform.wsl {
                Some(s) => Some(s),
                None => self.platform.linux.as_ref(),
            },
            Platform::Linux => self.platform.linux.as_ref(),
            Platform::Windows => self.platform.windows.as_ref(),
            Platform::Macos => self.platform.macos.as_ref(),
            Platform::Other => None,
        }
    }

    /// Resolve the command that runs a do-file; it is never empty.
    pub fn interpreter(&self, plat: Platform, dofile_rel: &str) -> (r: Vec<String>)
        ensures
            texts(r@) == command_for(*self, plat, dofile_rel@),
            r.len() > 0,
    {
        let pieces = split_on(dofile_rel, '/');
        let base = pieces[pieces.len() - 1].as_str();
        assert(texts(pieces@).last() == base@);
        if let Some(sec) = self.primary_section(plat) {
            if let Some(cmd) = sec.command(dofile_rel, base) {
                let out = non_empty(cmd);
                assert(texts(out@).len() == out.len());
                return out;
            }
        }
        if let Some(cmd) = self.interpreter.command(dofile_rel, base) {
            let out = non_empty(cmd);
            assert(texts(out@).len() == out.len());
            return out;
        }
        let out = non_empty(Vec::new());
        assert(texts(out@).len() == out.len());
        out
    }
}

/// What is known of the system the tool runs on.
#[derive(Clone, Copy, PartialEq, Eq, Debug, Structural)]
pub enum Os {
    Windows,
    Macos,
    Linux,
    Other,
}

/// The current platform.
pub fn current_platform(os: Os, wsl: bool) -> (p: Platform)
    ensures
        p == match os {
            Os::Windows => Platform::Windows,
            Os::Macos => Platform::Macos,
            Os::Linux => if wsl {
                Platform::Wsl
            } else {
                Platform::Linux
            },
            Os::Other => Platform::Other,
        },
{
    match os {
        Os::Windows => Platform::Windows,
        Os::Macos => Platform::Macos,
        Os::Linux => if wsl {
            Platform::Wsl
        } else {
            Platform::Linux
        },
        Os::Other => Platform::Other,
    }
}

/// Whether Linux runs under Windows: by the variables that are set there, or a
/// marker in the kernel release.
pub fn is_wsl(distro_set: bool, interop_set: bool, osrelease: Option<&str>) -> (r: bool)
    ensures
        r == (distro_set || interop_set || (osrelease is Some && (cut_once(
            lower(osrelease->0@),
            "microsoft"@,
        ) is Some || cut_once(lower(osrelease->0@), "wsl"@) is Some))),
{
    if distro_set || interop_set {
        return true;
    }
    match osrelease {
        Some(s) => {
            let folded = to_lower(s);
            split_once(folded.as_str(), "microsoft").is_some() || split_once(
                folded.as_str(),
                "wsl",
            ).is_some()
        },
        None => false,
    }
}

/// How many slashes a text holds.
pub open spec fn slashes(s: Seq<char>) -> nat
    decreases s.len(),
{
    if s.len() == 0 {
        0
    } else if s[0] == '/' {
        1 + slashes(s.skip(1))
    } else {
        slashes(s.skip(1))
    }
}

/// Wildcards do not cross a directory separator: what a pattern matches lies as
/// many directories deep as the pattern.
pub proof fn law_glob_keeps_depth(p: Seq<char>, t: Seq<char>)
    requires
        glob(p, t),
    ensures
        slashes(t) == slashes(p),
    decreases p.len(), t.len(),
{
    if p.len() > 0 {
        if p[0] == '*' {
            if glob(p.skip(1), t) {
                law_glob_keeps_depth(p.skip(1), t);
            } else {
                law_glob_keeps_depth(p, t.skip(1));
            }
        } else {
            law_glob_keeps_depth(p.skip(1), t.skip(1));
        }
    }
}

/// A pattern without wildcards matches itself and nothing else.
pub proof fn law_glob_literal(p: Seq<char>, t: Seq<char>)
    requires
        !occurs(p, '*'),
        !occurs(p, '?'),
    ensures
        glob(p, t) <==> p == t,
    decreases p.len(),
{
    if p.len() == 0 {
        if t.len() == 0 {
            assert(p =~= t);
        }
    } else {
        assert(p[0] != '*' && p[0] != '?');
        let q = p.skip(1);
        assert forall|i: int| 0 <= i < q.len() implies q[i] != '*' && q[i] != '?' by {
            assert(q[i] == p[i + 1]);
        }
        if t.len() > 0 && t[0] == p[0] {
            law_glob_literal(q, t.skip(1));
            if q == t.skip(1) {
                assert(p =~= seq![p[0]] + q);
                assert(t =~= seq![t[0]] + t.skip(1));
            }
        }
    }
}

/// A platform without a section of its own is configured by the shared one, and
/// a project without a configuration by the built-in command.
pub proof fn law_fallbacks(c: Config, plat: Platform, path: Seq<char>)
    ensures
        primary(c, plat) is None && section_command(c.interpreter, path) is None ==> command_for(
            c,
            plat,
            path,
        ) == seq![DEFAULT_INTERPRETER@],
        primary(c, plat) is None && section_command(c.interpreter, path) is Some ==> command_for(
            c,
            plat,
            path,
        ) == runnable(section_command(c.interpreter, path)->0),
        command_for(c, plat, path).len() > 0,
{
}

proof fn lemma_glob_apart(p: Seq<char>, q: Seq<char>, t: Seq<char>) -> (i: int)
    requires
        glob(p + q, t),
    ensures
        0 <= i <= t.len(),
        glob(p, t.take(i)),
        glob(q, t.skip(i)),
    decreases p.len(), t.len(),
{
    if p.len() == 0 {
        assert(p + q =~= q);
        assert(t.skip(0) =~= t);
        0
    } else {
        let rest = p.skip(1);
        assert((p + q).skip(1) =~= rest + q);
        if p[0] == '*' && glob(rest + q, t) {
            lemma_glob_apart(rest, q, t)
        } else if p[0] == '*' {
            let i = lemma_glob_apart(p, q, t.skip(1));
            assert(t.take(i + 1).skip(1) =~= t.skip(1).take(i));
            assert(t.skip(i + 1) =~= t.skip(1).skip(i));
            i + 1
        } else {
            let i = lemma_glob_apart(rest, q, t.skip(1));
            assert(t.take(i + 1).skip(1) =~= t.skip(1).take(i));
            assert(t.skip(i + 1) =~= t.skip(1).skip(i));
            i + 1
        }
    }
}

proof fn lemma_glob_together(p: Seq<char>, q: Seq<char>, t: Seq<char>, i: int)
    requires
        0 <= i <= t.len(),
        glob(p, t.take(i)),
        glob(q, t.skip(i)),
    ensures
        glob(p + q, t),
    decreases p.len(), i,
{
    let a = t.take(i);
    if p.len() == 0 {
        assert(p + q =~= q);
        assert(t.skip(0) =~= t);
    } else {
        let rest = p.skip(1);
        assert((p + q).skip(1) =~= rest + q);
        if p[0] == '*' && glob(rest, a) {
            lemma_glob_together(rest, q, t, i);
        } else {
            assert(a.skip(1) =~= t.skip(1).take(i - 1));
            assert(t.skip(1).skip(i - 1) =~= t.skip(i));
            if p[0] == '*' {
                lemma_glob_together(p, q, t.skip(1), i - 1);
            } else {
                lemma_glob_together(rest, q, t.skip(1), i - 1);
            }
        }
    }
}

proof fn lemma_glob_star(t: Seq<char>)
    ensures
        glob(seq!['*'], t) <==> !t.contains('/'),
    decreases t.len(),
{
    let p = seq!['*'];
    assert(p.skip(1) =~= Seq::<char>::empty());
    assert(glob(p.skip(1), t) <==> t.len() == 0);
    if t.len() > 0 {
        lemma_glob_star(t.skip(1));
        assert(t[0] == '/' ==> t.contains('/'));
        if t.contains('/') && t[0] != '/' {
            let k = choose|k: int| 0 <= k < t.len() && t[k] == '/';
            assert(t.skip(1)[k - 1] == '/');
        }
        if t.skip(1).contains('/') {
            let k = choose|k: int| 0 <= k < t.skip(1).len() && t.skip(1)[k] == '/';
            assert(t[k + 1] == '/');
        }
    }
}

/// What a pattern means: `*` matches what holds no slash, `?` one character that is none, any
/// other character itself, and a pattern made of two what is made of two such texts. So a
/// pattern always matches the whole of a text.
pub proof fn law_glob_means(p: Seq<char>, q: Seq<char>, t: Seq<char>, c: char)
    ensures
        glob(p + q, t) <==> exists|i: int|
            0 <= i <= t.len() && glob(p, #[trigger] t.take(i)) && glob(q, t.skip(i)),
        glob(Seq::empty(), t) <==> t.len() == 0,
        glob(seq!['*'], t) <==> !t.contains('/'),
        glob(seq!['?'], t) <==> t.len() == 1 && t[0] != '/',
        c != '*' && c != '?' ==> (glob(seq![c], t) <==> t.len() == 1 && t[0] == c),
{
    if glob(p + q, t) {
        let i = lemma_glob_apart(p, q, t);
        assert(glob(p, t.take(i)));
    }
    if exists|i: int| 0 <= i <= t.len() && glob(p, #[trigger] t.take(i)) && glob(q, t.skip(i)) {
        let i = choose|i: int|
            0 <= i <= t.len() && glob(p, #[trigger] t.take(i)) && glob(q, t.skip(i));
        lemma_glob_together(p, q, t, i);
    }
    lemma_glob_star(t);
    assert(seq!['?'].skip(1) =~= Seq::<char>::empty());
    assert(seq![c].skip(1) =~= Seq::<char>::empty());
    reveal_with_fuel(glob, 2);
}

/// A rule without a slash is about names: it applies to a do-file in every directory alike. One
/// with a slash is about the whole path.
pub proof fn law_rules_without_slash_are_about_names(
    r: Rule,
    dir: Seq<char>,
    name: Seq<char>,
    path: Seq<char>,
)
    requires
        !name.contains('/'),
    ensures
        !r.pattern@.contains('/') ==> (rule_applies(r, dir + seq!['/'] + name) <==> glob(
            r.pattern@,
            name,
        )),
        !r.pattern@.contains('/') ==> (rule_applies(r, name) <==> glob(r.pattern@, name)),
        r.pattern@.contains('/') ==> (rule_applies(r, path) <==> glob(r.pattern@, path)),
{
    crate::text::lemma_split_append(dir, name, '/');
    crate::text::lemma_split_free(name, '/');
}

/// Whether a section names a command for a do-file: that of the first rule that applies, or,
/// where none does, the default.
pub open spec fn names_command(s: Section, path: Seq<char>, command: Seq<String>) -> bool {
    ||| exists|i: int|
        0 <= i < s.rules.len() && rule_applies(#[trigger] s.rules@[i], path) && (forall|j: int|
            0 <= j < i ==> !rule_applies(#[trigger] s.rules@[j], path)) && s.rules@[i].command@
            == command
    ||| (forall|j: int| 0 <= j < s.rules.len() ==> !rule_applies(#[trigger] s.rules@[j], path))
        && s.default is Some && s.default->0@ == command
}

/// Whether a section says nothing about a do-file: no rule applies, and there is no default.
pub open spec fn is_silent(s: Section, path: Seq<char>) -> bool {
    s.default is None && forall|j: int|
        0 <= j < s.rules.len() ==> !rule_applies(#[trigger] s.rules@[j], path)
}

/// The section of a platform: its own, or for WSL, which may have none, that of Linux.
pub open spec fn own_section(c: Config, plat: Platform) -> Option<Section> {
    match (plat, c.platform.wsl) {
        (Platform::Wsl, Some(s)) => Some(s),
        (Platform::Wsl, None) => c.platform.linux,
        (Platform::Linux, _) => c.platform.linux,
        (Platform::Windows, _) => c.platform.windows,
        (Platform::Macos, _) => c.platform.macos,
        (Platform::Other, _) => None,
    }
}

proof fn lemma_first_rule(rules: Seq<Rule>, path: Seq<char>, i: int)
    requires
        0 <= i <= rules.len(),
        forall|j: int| 0 <= j < i ==> !rule_applies(#[trigger] rules[j], path),
        i < rules.len() ==> rule_applies(rules[i], path),
    ensures
        first_rule(rules, path) == if i < rules.len() {
            Some(texts(rules[i].command@))
        } else {
            None
        },
    decreases i,
{
    if i > 0 {
        let rest = rules.skip(1);
        assert(!rule_applies(rules[0], path));
        assert forall|j: int| 0 <= j < i - 1 implies !rule_applies(#[trigger] rest[j], path) by {
            assert(!rule_applies(rules[j + 1], path));
        }
        lemma_first_rule(rest, path, i - 1);
    }
}

proof fn lemma_section(s: Section, path: Seq<char>, command: Seq<String>)
    ensures
        names_command(s, path, command) ==> section_command(s, path) == Some(texts(command)),
        is_silent(s, path) ==> section_command(s, path) is None,
{
    if names_command(s, path, command) {
        if exists|i: int|
            0 <= i < s.rules.len() && rule_applies(#[trigger] s.rules@[i], path) && (forall|j: int|
                0 <= j < i ==> !rule_applies(#[trigger] s.rules@[j], path)) && s.rules@[i].command@
                == command {
            let i = choose|i: int|
                0 <= i < s.rules.len() && rule_applies(#[trigger] s.rules@[i], path) && (forall|
                    j: int,
                |
                    0 <= j < i ==> !rule_applies(#[trigger] s.rules@[j], path))
                    && s.rules@[i].command@ == command;
            lemma_first_rule(s.rules@, path, i);
        } else {
            lemma_first_rule(s.rules@, path, s.rules.len() as int);
        }
    }
    if is_silent(s, path) {
        lemma_first_rule(s.rules@, path, s.rules.len() as int);
    }
}

/// The first section that speaks decides: the platform's own if it names a command, else the
/// shared one, whether or not the platform has a section; if both are silent it is `msh`. An
/// empty command is no command, and is `msh` too.
pub proof fn law_first_section_that_speaks(
    c: Config,
    plat: Platform,
    path: Seq<char>,
    command: Seq<String>,
)
    ensures
        own_section(c, plat) is Some && names_command(own_section(c, plat)->0, path, command)
            ==> command_for(c, plat, path) == if command.len() == 0 {
            seq!["msh"@]
        } else {
            texts(command)
        },
        (own_section(c, plat) is None || is_silent(own_section(c, plat)->0, path))
            && names_command(c.interpreter, path, command) ==> command_for(c, plat, path)
            == if command.len() == 0 {
            seq!["msh"@]
        } else {
            texts(command)
        },
        (own_section(c, plat) is None || is_silent(own_section(c, plat)->0, path)) && is_silent(
            c.interpreter,
            path,
        ) ==> command_for(c, plat, path) == seq!["msh"@],
{
    assert(primary(c, plat) == own_section(c, plat));
    if let Some(s) = own_section(c, plat) {
        lemma_section(s, path, command);
    }
    lemma_section(c.interpreter, path, command);
    assert(texts(command).len() == command.len());
}

/// Every section speaks or is silent, so for every do-file one of the sections decides.
pub proof fn law_sections_speak_or_not(s: Section, path: Seq<char>)
    ensures
        !is_silent(s, path) ==> exists|command: Seq<String>| names_command(s, path, command),
{
    if exists|j: int| 0 <= j < s.rules.len() && rule_applies(#[trigger] s.rules@[j], path) {
        let j = choose|j: int| 0 <= j < s.rules.len() && rule_applies(#[trigger] s.rules@[j], path);
        let i = lemma_least(s.rules@, path, j);
        assert(names_command(s, path, s.rules@[i].command@));
    } else if s.default is Some {
        assert(names_command(s, path, s.default->0@));
    }
}

proof fn lemma_least(rules: Seq<Rule>, path: Seq<char>, j: int) -> (i: int)
    requires
        0 <= j < rules.len(),
        rule_applies(rules[j], path),
    ensures
        0 <= i <= j,
        rule_applies(rules[i], path),
        forall|k: int| 0 <= k < i ==> !rule_applies(#[trigger] rules[k], path),
    decreases j,
{
    if exists|k: int| 0 <= k < j && rule_applies(#[trigger] rules[k], path) {
        let k = choose|k: int| 0 <= k < j && rule_applies(#[trigger] rules[k], path);
        lemma_least(rules, path, k)
    } else {
        j
    }
}

}
