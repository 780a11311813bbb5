//! The overwrite guard: never silently replace a file that the user may own.
//!
//! A rebuild of an output that is as redo left it is no problem: its content
//! still has the recorded hash. Only two situations stop a build, each explained
//! with its evidence: the file was modified outside redo, or redo has no record
//! of ever building it. Then a human is asked, if one is there; and only on
//! behalf of work that was really demanded.

use crate::num::{digits, nat_text};
use crate::text::{cat, cat3, lower, opt, piece, same, to_chars, to_lower};
use vstd::prelude::*;

verus! {

/// What holds for the rest of a run about files that are in the way.
#[derive(Debug, Clone, Copy, PartialEq, Eq, Structural)]
pub enum Mode {
    /// Ask about each.
    Ask,
    /// Overwrite them all.
    All,
    /// Refuse without asking.
    Quit,
}

/// What the user chose when asked.
#[derive(Debug, Clone, Copy, PartialEq, Eq, Structural)]
pub enum Answer {
    Yes,
    No,
    All,
    Quit,
}

/// Whether everything that is in the way is overwritten: by a decision of this
/// run, or by the variable that carries `--yes`.
pub fn overwrite_all(mode: Mode, yes: Option<&str>) -> (r: bool)
    ensures
        r == (mode is All || (yes is Some && yes->0@ == "1"@)),
{
    match mode {
        Mode::All => true,
        _ => match yes {
            Some(v) => same(v, "1"),
            None => false,
        },
    }
}

/// Whether nothing is overwritten and nobody is asked.
pub fn overwrite_none(mode: Mode, no: Option<&str>) -> (r: bool)
    ensures
        r == (mode is Quit || (no is Some && no->0@ == "1"@)),
{
    match mode {
        Mode::Quit => true,
        _ => match no {
            Some(v) => same(v, "1"),
            None => false,
        },
    }
}

/// What the guard decides.
#[derive(Debug, Clone, Copy, PartialEq, Eq, Structural)]
pub enum Guard {
    /// Build.
    Proceed,
    /// Build over the file, and say so.
    Overwrite,
    /// The work is speculative: abort its lineage, so that a real demand runs it
    /// again and asks.
    Abort,
    /// Ask the user.
    Prompt,
    /// Refuse.
    Refuse,
}

/// What the guard decides about a target, given whether a file that redo does
/// not own is in the way, whether everything or nothing is to be overwritten,
/// whether the work was demanded all the way up, and whether a user is there.
pub open spec fn guard_for(
    problem: bool,
    all: bool,
    none: bool,
    demanded: bool,
    user_present: bool,
) -> Guard {
    if !problem {
        Guard::Proceed
    } else if all {
        Guard::Overwrite
    } else if !demanded {
        Guard::Abort
    } else if !none && user_present {
        Guard::Prompt
    } else {
        Guard::Refuse
    }
}

/// What the guard decides about a target.
pub fn check_not_hand_edited(
    problem: bool,
    all: bool,
    none: bool,
    demanded: bool,
    user_present: bool,
) -> (r: Guard)
    ensures
        r == guard_for(problem, all, none, demanded, user_present),
{
    if !problem {
        Guard::Proceed
    } else if all {
        Guard::Overwrite
    } else if !demanded {
        Guard::Abort
    } else if !none && user_present {
        Guard::Prompt
    } else {
        Guard::Refuse
    }
}

/// A user is asked only about demanded work, and a file that redo does not own
/// is built over only with consent given before.
pub proof fn law_no_silent_overwrite(all: bool, none: bool, demanded: bool, user_present: bool)
    ensures
        ({
            let r = guard_for(true, all, none, demanded, user_present);
            &&& !(r is Proceed)
            &&& r is Overwrite ==> all
            &&& r is Prompt ==> demanded && user_present && !none && !all
        }),
{
}

/// What follows from an answer: whether to build, and what holds for the rest
/// of the run.
pub fn after_answer(mode: Mode, a: Answer) -> (r: (bool, Mode))
    ensures
        r.0 == (a is Yes || a is All),
        r.1 == match a {
            Answer::All => Mode::All,
            Answer::Quit => Mode::Quit,
            _ => mode,
        },
{
    match a {
        Answer::Yes => (true, mode),
        Answer::No => (false, mode),
        Answer::All => (true, Mode::All),
        Answer::Quit => (false, Mode::Quit),
    }
}

/// Whether a character is white space.
pub open spec fn is_white(c: char) -> bool {
    let n = c as u32;
    (9 <= n <= 13) || n == 0x20 || n == 0x85 || n == 0xa0 || n == 0x1680 || (0x2000 <= n
        <= 0x200a) || n == 0x2028 || n == 0x2029 || n == 0x202f || n == 0x205f || n == 0x3000
}

fn white(c: char) -> (r: bool)
    ensures
        r == is_white(c),
{
    let n: u32 = c as u32;
    (9 <= n && n <= 13) || n == 0x20 || n == 0x85 || n == 0xa0 || n == 0x1680 || (0x2000 <= n && n
        <= 0x200a) || n == 0x2028 || n == 0x2029 || n == 0x202f || n == 0x205f || n == 0x3000
}

/// A text without the white space at its start.
pub open spec fn trim_start(s: Seq<char>) -> Seq<char>
    decreases s.len(),
{
    if s.len() > 0 && is_white(s[0]) {
        trim_start(s.skip(1))
    } else {
        s
    }
}

/// A text without the white space at its end.
pub open spec fn trim_end(s: Seq<char>) -> Seq<char>
    decreases s.len(),
{
    if s.len() > 0 && is_white(s.last()) {
        trim_end(s.drop_last())
    } else {
        s
    }
}

/// A text without the white space at its ends.
fn trim(s: &str) -> (r: String)
    ensures
        r@ == trim_end(trim_start(s@)),
{
    let cs = to_chars(s);
    let mut a: usize = 0;
    assert(cs@.skip(0) =~= s@);
    while a < cs.len() && white(cs[a])
        invariant
            a <= cs.len(),
            trim_start(s@) == trim_start(cs@.skip(a as int)),
        decreases cs.len() - a,
    {
        assert(cs@.skip(a as int)[0] == cs@[a as int]);
        assert(cs@.skip(a as int).skip(1) =~= cs@.skip(a + 1));
        a = a + 1;
    }
    let ghost body = cs@.skip(a as int);
    assert(trim_start(s@) == body) by {
        if a < cs.len() {
            assert(body[0] == cs@[a as int]);
        }
    }
    let mut b: usize = cs.len();
    assert(cs@.subrange(a as int, b as int) =~= body);
    while b > a && white(cs[b - 1])
        invariant
            a <= b <= cs.len(),
            trim_end(body) == trim_end(cs@.subrange(a as int, b as int)),
        decreases b,
    {
        assert(cs@.subrange(a as int, b as int).last() == cs@[b - 1]);
        assert(cs@.subrange(a as int, b as int).drop_last() =~= cs@.subrange(a as int, b - 1));
        b = b - 1;
    }
    assert(trim_end(body) == cs@.subrange(a as int, b as int)) by {
        if b > a {
            assert(cs@.subrange(a as int, b as int).last() == cs@[b - 1]);
        }
    }
    piece(cs.as_slice(), a, b)
}

/// What a line that the user typed means; anything not understood means no.
pub fn parse_answer(line: &str) -> (a: Answer)
    ensures
        ({
            let s = lower(trim_end(trim_start(line@)));
            &&& a is Yes <==> s == "y"@ || s == "yes"@
            &&& a is All <==> s == "a"@ || s == "all"@
            &&& a is Quit <==> s == "q"@ || s == "quit"@
        }),
{
    let t = trim(line);
    let s = to_lower(t.as_str());
    proof {
        reveal_strlit("y");
        reveal_strlit("yes");
        reveal_strlit("a");
        reveal_strlit("all");
        reveal_strlit("q");
        reveal_strlit("quit");
        assert("y"@[0] == 'y' && "yes"@[0] == 'y');
        assert("a"@[0] == 'a' && "all"@[0] == 'a');
        assert("q"@[0] == 'q' && "quit"@[0] == 'q');
    }
    if same(s.as_str(), "y") || same(s.as_str(), "yes") {
        Answer::Yes
    } else if same(s.as_str(), "a") || same(s.as_str(), "all") {
        Answer::All
    } else if same(s.as_str(), "q") || same(s.as_str(), "quit") {
        Answer::Quit
    } else {
        Answer::No
    }
}

/// Whole seconds between two times, rounded towards zero.
pub open spec fn seconds_between(now: int, nanos: int) -> int {
    if now >= nanos {
        (now - nanos) / 1_000_000_000
    } else {
        -((nanos - now) / 1_000_000_000)
    }
}

/// The age of a time in words.
pub open spec fn age_text(s: int) -> Seq<char> {
    if s < 0 {
        "in the future (clock skew?)"@
    } else if s < 2 {
        "just now"@
    } else if s < 120 {
        digits(s as nat) + " seconds ago"@
    } else if s / 60 < 120 {
        digits((s / 60) as nat) + " minutes ago"@
    } else if s / 60 / 60 < 48 {
        digits((s / 60 / 60) as nat) + " hours ago"@
    } else {
        digits((s / 60 / 60 / 24) as nat) + " days ago"@
    }
}

/// Human-readable age of a time in nanoseconds since the epoch.
pub fn ago(now: i64, nanos: i64) -> (s: String)
    ensures
        s@ == age_text(seconds_between(now as int, nanos as int)),
{
    if now < nanos {
        let gap: u128 = (nanos as i128 - now as i128) as u128;
        if gap / 1_000_000_000 > 0 {
            return "in the future (clock skew?)".to_owned();
        }
        return "just now".to_owned();
    }
    let delta: u128 = ((now as i128 - nanos as i128) as u128) / 1_000_000_000;
    if delta < 2 {
        return "just now".to_owned();
    }
    if delta < 120 {
        return cat(nat_text(delta).as_str(), " seconds ago");
    }
    let minutes: u128 = delta / 60;
    if minutes < 120 {
        return cat(nat_text(minutes).as_str(), " minutes ago");
    }
    let hours: u128 = minutes / 60;
    if hours < 48 {
        return cat(nat_text(hours).as_str(), " hours ago");
    }
    cat(nat_text(hours / 24).as_str(), " days ago")
}

/// Whether a text holds ASCII characters only, as every checksum does.
pub open spec fn is_plain(s: Seq<char>) -> bool {
    forall|i: int| 0 <= i < s.len() ==> (#[trigger] s[i] as u32) < 128
}

/// The first eight characters of a text, or all of it.
pub open spec fn first_eight(s: Seq<char>) -> Seq<char> {
    if s.len() < 8 {
        s
    } else {
        s.take(8)
    }
}

fn prefix8(h: &str) -> (s: String)
    ensures
        s@ == first_eight(h@),
{
    let cs = to_chars(h);
    let n: usize = if cs.len() < 8 {
        cs.len()
    } else {
        8
    };
    let s = piece(cs.as_slice(), 0, n);
    assert(s@ =~= first_eight(h@));
    s
}

/// Short display form of an optional content hash.
pub open spec fn short_hash(h: Option<Seq<char>>) -> Seq<char> {
    match h {
        Some(t) => first_eight(t) + "…"@,
        None => "(none)"@,
    }
}

/// Short display form of an optional content hash.
pub fn hash8(h: &Option<String>) -> (s: String)
    requires
        h matches Some(t) ==> is_plain(t@),
    ensures
        s@ == short_hash(opt(*h)),
{
    match h {
        Some(t) => cat(prefix8(t.as_str()).as_str(), "…"),
        None => "(none)".to_owned(),
    }
}

/// What is known of a file that is in the way of a build.
pub struct Evidence {
    /// Whether redo has generated it.
    pub generated: bool,
    /// The recorded hash of its content; none for a target without output.
    pub recorded: Option<String>,
    /// The hash of its content now.
    pub current: String,
    /// When redo last built it.
    pub built_at: Option<i64>,
    /// When it was last modified, if that is known.
    pub modified: Option<i64>,
}

/// Whether a file is not redo's to overwrite: redo never built it, or its
/// content is no longer what redo recorded. A target without output has nothing
/// to protect.
pub open spec fn in_the_way(e: Evidence) -> bool {
    !e.generated || (e.recorded is Some && e.recorded->0@ != e.current@)
}

/// When a file was last modified, in words.
pub open spec fn modified_text(now: i64, modified: Option<i64>) -> Seq<char> {
    match modified {
        Some(t) => age_text(seconds_between(now as int, t as int)),
        None => "at an unknown time"@,
    }
}

/// When a file was last built, in words.
pub open spec fn built_text(now: i64, built_at: Option<i64>) -> Seq<char> {
    match built_at {
        Some(t) => age_text(seconds_between(now as int, t as int)),
        None => "previously"@,
    }
}

/// Why a file is not redo's to overwrite, in words.
pub open spec fn problem_text(target: Seq<char>, e: Evidence, now: i64) -> Seq<char> {
    if e.generated {
        target + " was modified outside redo since redo last built it:\n- redo built it "@ + (
        built_text(now, e.built_at) + " and recorded content hash "@ + (first_eight(e.recorded->0@)
            + "...\n- the file on disk hashes "@ + (first_eight(e.current@)
            + "... and was last modified "@ + modified_text(now, e.modified))))
    } else {
        target + " exists (last modified "@ + (modified_text(now, e.modified)
            + ") but redo has no record of ever building it:\nthere is no entry for this path in .redom/redo-msh.db, so either it is a hand-written\nsource file, or the database was recreated after an older redo built it"@)
    }
}

/// Why the file on disk is not redo's to overwrite, with the evidence; none if
/// it is.
pub fn overwrite_problem(target: &str, e: &Evidence, now: i64) -> (r: Option<String>)
    requires
        e.recorded matches Some(t) ==> is_plain(t@),
        is_plain(e.current@),
    ensures
        match r {
            Some(s) => in_the_way(*e) && s@ == problem_text(target@, *e, now),
            None => !in_the_way(*e),
        },
{
    let modified = match e.modified {
        Some(t) => ago(now, t),
        None => "at an unknown time".to_owned(),
    };
    if !e.generated {
        let tail = cat(
            modified.as_str(),
            ") but redo has no record of ever building it:\nthere is no entry for this path in .redom/redo-msh.db, so either it is a hand-written\nsource file, or the database was recreated after an older redo built it",
        );
        return Some(cat3(target, " exists (last modified ", tail.as_str()));
    }
    let recorded = match &e.recorded {
        Some(c) => c,
        None => return None,
    };
    if same(recorded.as_str(), e.current.as_str()) {
        return None;
    }
    let built = match e.built_at {
        Some(t) => ago(now, t),
        None => "previously".to_owned(),
    };
    let last = cat3(
        prefix8(e.current.as_str()).as_str(),
        "... and was last modified ",
        modified.as_str(),
    );
    let mid = cat3(
        prefix8(recorded.as_str()).as_str(),
        "...\n- the file on disk hashes ",
        last.as_str(),
    );
    let tail = cat3(built.as_str(), " and recorded content hash ", mid.as_str());
    Some(
        cat3(
            target,
            " was modified outside redo since redo last built it:\n- redo built it ",
            tail.as_str(),
        ),
    )
}

/// A rebuild over an output that is as redo left it needs no one's consent.
pub proof fn law_unmodified_is_ours(e: Evidence)
    requires
        e.generated,
        e.recorded is None || e.recorded->0@ == e.current@,
    ensures
        !in_the_way(e),
{
}

/// A file that redo did not make, or that is not as redo left it, is not redo's: only an output
/// with the recorded hash, or a target that has none, is.
pub proof fn law_hand_edits_are_in_the_way(e: Evidence)
    ensures
        !e.generated ==> in_the_way(e),
        e.recorded matches Some(h) && h@ != e.current@ ==> in_the_way(e),
        in_the_way(e) && e.generated ==> e.recorded is Some && e.recorded->0@ != e.current@,
{
}

/// The guard always decides, and by what matters most: where nothing is in the way it lets a
/// build proceed; consent given before counts before everything; work that nobody demanded asks
/// nobody; a user who is there is asked unless they said to stop; else the build is refused.
pub proof fn law_guard_decides(problem: bool, all: bool, none: bool, demanded: bool, user: bool)
    ensures
        !problem <==> guard_for(problem, all, none, demanded, user) is Proceed,
        problem && all <==> guard_for(problem, all, none, demanded, user) is Overwrite,
        problem && !all && !demanded <==> guard_for(problem, all, none, demanded, user) is Abort,
        problem && !all && demanded && user && !none <==> guard_for(
            problem,
            all,
            none,
            demanded,
            user,
        ) is Prompt,
        problem && !all && demanded && (!user || none) <==> guard_for(
            problem,
            all,
            none,
            demanded,
            user,
        ) is Refuse,
{
}

proof fn lemma_trim_start(s: Seq<char>) -> (n: int)
    ensures
        0 <= n <= s.len(),
        trim_start(s) == s.skip(n),
        forall|i: int| 0 <= i < n ==> is_white(#[trigger] s[i]),
        n < s.len() ==> !is_white(s[n]),
    decreases s.len(),
{
    if s.len() > 0 && is_white(s[0]) {
        let n = lemma_trim_start(s.skip(1));
        assert(s.skip(1).skip(n) =~= s.skip(n + 1));
        assert forall|i: int| 0 <= i < n + 1 implies is_white(#[trigger] s[i]) by {
            if i > 0 {
                assert(s.skip(1)[i - 1] == s[i]);
            }
        }
        if n + 1 < s.len() {
            assert(s.skip(1)[n] == s[n + 1]);
        }
        n + 1
    } else {
        assert(s.skip(0) =~= s);
        0
    }
}

proof fn lemma_trim_end(s: Seq<char>) -> (n: int)
    ensures
        0 <= n <= s.len(),
        trim_end(s) == s.take(n),
        forall|i: int| n <= i < s.len() ==> is_white(#[trigger] s[i]),
        n > 0 ==> !is_white(s[n - 1]),
    decreases s.len(),
{
    if s.len() > 0 && is_white(s.last()) {
        let n = lemma_trim_end(s.drop_last());
        assert(s.drop_last().take(n) =~= s.take(n));
        assert forall|i: int| n <= i < s.len() implies is_white(#[trigger] s[i]) by {
            if i < s.len() - 1 {
                assert(s.drop_last()[i] == s[i]);
            }
        }
        if n > 0 {
            assert(s.drop_last()[n - 1] == s[n - 1]);
        }
        n
    } else {
        assert(s.take(s.len() as int) =~= s);
        s.len() as int
    }
}

/// Trimming takes the white space off both ends and nothing else: what is left is a part of the
/// text that begins and ends with something, and only white space lies around it.
pub proof fn law_trim_takes_white_space(s: Seq<char>)
    ensures
        exists|a: int, b: int|
            0 <= a <= b <= s.len() && trim_end(trim_start(s)) == #[trigger] s.subrange(a, b) && (
            forall|i: int| 0 <= i < a ==> is_white(#[trigger] s[i])) && (forall|i: int|
                b <= i < s.len() ==> is_white(#[trigger] s[i])) && (a < b ==> !is_white(s[a])
                && !is_white(s[b - 1])),
        is_white(' ') && is_white('\n') && is_white('\r') && is_white('\t'),
        forall|c: char| 'a' <= c && c <= 'z' ==> !#[trigger] is_white(c),
{
    let a = lemma_trim_start(s);
    let body = s.skip(a);
    let n = lemma_trim_end(body);
    let b = a + n;
    assert(trim_end(trim_start(s)) =~= s.subrange(a, b));
    assert forall|i: int| b <= i < s.len() implies is_white(#[trigger] s[i]) by {
        assert(body[i - a] == s[i]);
    }
    if a < b {
        assert(body[n - 1] == s[b - 1]);
    }
}

/// How old something is, is told in the largest unit of which there are enough to be telling:
/// seconds up to two minutes, minutes up to two hours, hours up to two days, then days.
pub proof fn law_ages(now: int, nanos: int)
    ensures
        ({
            let s = (now - nanos) / 1_000_000_000;
            let text = age_text(seconds_between(now, nanos));
            &&& 0 <= now - nanos < 2_000_000_000 ==> text == "just now"@
            &&& 2_000_000_000 <= now - nanos < 120_000_000_000 ==> text == digits(s as nat)
                + " seconds ago"@
            &&& 120_000_000_000 <= now - nanos < 7_200_000_000_000 ==> text == digits(
                (s / 60) as nat,
            ) + " minutes ago"@
            &&& 7_200_000_000_000 <= now - nanos < 172_800_000_000_000 ==> text == digits(
                (s / 3600) as nat,
            ) + " hours ago"@
            &&& now - nanos >= 172_800_000_000_000 ==> text == digits((s / 86400) as nat)
                + " days ago"@
            &&& nanos - now >= 1_000_000_000 ==> text == "in the future (clock skew?)"@
            &&& 0 < nanos - now < 1_000_000_000 ==> text == "just now"@
        }),
{
    let s = (now - nanos) / 1_000_000_000;
    assert(s / 60 / 60 == s / 3600);
    assert(s / 60 / 60 / 24 == s / 86400);
}

/// A short hash is a beginning of the hash, of eight characters if it has as many.
pub proof fn law_short_hash_is_a_beginning(h: Seq<char>)
    ensures
        short_hash(Some(h)) == h.take(
            if h.len() < 8 {
                h.len() as int
            } else {
                8
            },
        ) + "…"@,
        short_hash(None) == "(none)"@,
{
    assert(h.take(h.len() as int) =~= h);
}

}
