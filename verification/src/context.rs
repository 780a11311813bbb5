//! How state flows between the processes of a build: through the environment of
//! the do-files.

use crate::building::BuildError;
use crate::num::{
    decimal, digits, int_text, law_decimal_roundtrip, nat_text, parse_i64, parse_usize,
    signed_value, unsigned_value,
};
use crate::overwrite::Mode;
use crate::paths::{cleaned, joined, path_text, root_key, FsPath};
use crate::root::Root;
use crate::text::{
    copy_texts, join, join_with, lemma_split_join, occurs, opt, split, split_on, texts,
};
use crate::waits::{refs, watch_text, watch_to_env, EdgeRef, EdgeRefView};
use crate::seqs::{lemma_filter_all};
use vstd::prelude::*;

verus! {

/// The project root.
pub const E_ROOT: &'static str = "REDO_ROOT";

/// The target whose do-file is running.
pub const E_TARGET: &'static str = "REDO_TARGET";

/// The build counter of the run.
pub const E_SESSION: &'static str = "REDO_SESSION";

/// How deep do-files are nested.
pub const E_DEPTH: &'static str = "REDO_DEPTH";

/// The targets whose do-files run inside each other, one per line.
pub const E_CHAIN: &'static str = "REDO_CHAIN";

/// What a process takes over from its environment.
#[derive(Debug, PartialEq, Eq)]
pub struct Inherited {
    /// The session, unless a new one must be started.
    pub session: Option<i64>,
    pub depth: usize,
    pub chain: Vec<String>,
    pub target: Option<String>,
}

/// The lines of a chain.
pub open spec fn chain_value(s: Seq<char>) -> Seq<Seq<char>> {
    split(s, '\n').filter(|x: Seq<char>| x.len() > 0)
}

/// What a process takes over from the variables of its environment. What is
/// missing or not understood has a default: a new session, depth 0, an empty
/// chain, no target.
pub fn inherited(
    session: Option<&str>,
    depth: Option<&str>,
    chain: Option<&str>,
    target: Option<&str>,
) -> (r: Inherited)
    ensures
        match r.session {
            Some(n) => session is Some && signed_value(session->0@, i64::MAX as int) == Some(
                n as int,
            ),
            None => session is None || signed_value(session->0@, i64::MAX as int) is None,
        },
        r.depth == (if depth is Some && unsigned_value(depth->0@, usize::MAX as int) is Some {
            unsigned_value(depth->0@, usize::MAX as int)->0
        } else {
            0
        }),
        texts(r.chain@) == (if chain is Some {
            chain_value(chain->0@)
        } else {
            Seq::empty()
        }),
        opt(r.target) == (if target is Some && target->0@.len() > 0 {
            Some(target->0@)
        } else {
            None
        }),
{
    let session = match session {
        Some(s) => parse_i64(s),
        None => None,
    };
    let depth: usize = match depth {
        Some(s) => match parse_usize(s) {
            Some(n) => n,
            None => 0,
        },
        None => 0,
    };
    let chain = match chain {
        Some(s) => chain_lines(s),
        None => {
            let none: Vec<String> = Vec::new();
            assert(texts(none@) =~= Seq::<Seq<char>>::empty());
            none
        },
    };
    let target = match target {
        Some(s) => if s.unicode_len() > 0 {
            Some(s.to_owned())
        } else {
            None
        },
        None => None,
    };
    Inherited { session, depth, chain, target }
}

fn chain_lines(s: &str) -> (out: Vec<String>)
    ensures
        texts(out@) == chain_value(s@),
{
    let lines = split_on(s, '\n');
    let ghost all = texts(lines@);
    let ghost p = |x: Seq<char>| x.len() > 0;
    let mut out: Vec<String> = Vec::new();
    assert(all.take(0).filter(p) =~= Seq::<Seq<char>>::empty()) by {
        reveal(Seq::filter);
    }
    for i in 0..lines.len()
        invariant
            all == texts(lines@),
            p == (|x: Seq<char>| x.len() > 0),
            texts(out@) == all.take(i as int).filter(p),
    {
        let ghost before = texts(out@);
        proof {
            crate::seqs::lemma_filter_step(all, i as int, p);
            assert(all[i as int] == lines@[i as int]@);
        }
        if lines[i].as_str().unicode_len() > 0 {
            out.push(lines[i].clone());
            assert(texts(out@) =~= before.push(all[i as int]));
        }
    }
    assert(all.take(all.len() as int) =~= all);
    out
}

/// A variable for a do-file: set to a value, or removed.
#[derive(Debug, PartialEq, Eq)]
pub struct EnvVar {
    pub name: String,
    pub value: Option<String>,
}

/// The views of a list of variables.
pub open spec fn vars(v: Seq<EnvVar>) -> Seq<(Seq<char>, Option<Seq<char>>)> {
    v.map_values(|e: EnvVar| (e.name@, opt(e.value)))
}

/// The environment of a do-file.
pub open spec fn child_vars(
    root: Seq<char>,
    target: Seq<char>,
    session: int,
    depth: int,
    chain: Seq<Seq<char>>,
    watch: Seq<EdgeRefView>,
    mode: Mode,
    log_path: Option<Seq<char>>,
) -> Seq<(Seq<char>, Option<Seq<char>>)> {
    seq![
        (E_ROOT@, Some(root)),
        (E_TARGET@, Some(target)),
        (E_SESSION@, Some(decimal(session))),
        (E_DEPTH@, Some(digits((depth + 1) as nat))),
        (E_CHAIN@, Some(join(chain.push(target), "\n"@))),
        (
            crate::waits::ENV_SPEC_WATCH@,
            if watch.len() == 0 {
                None
            } else {
                Some(watch_text(watch))
            },
        ),
        (crate::logs::ENV_LOG_PATH@, log_path),
    ] + match mode {
        Mode::Ask => Seq::empty(),
        Mode::All => seq![("REDO_YES"@, Some("1"@))],
        Mode::Quit => seq![("REDO_NO"@, Some("1"@))],
    }
}

fn set(name: &str, value: String) -> (e: EnvVar)
    ensures
        (e.name@, opt(e.value)) == (name@, Some(value@)),
{
    EnvVar { name: name.to_owned(), value: Some(value) }
}

/// The environment of a do-file: where it belongs, the watch of its lineage, a
/// decision about overwriting that holds for the whole run, and where its trace
/// goes.
pub fn child_env(
    root: &str,
    target: &str,
    session: i64,
    depth: usize,
    chain: &[String],
    watch: &[EdgeRef],
    mode: Mode,
    log_path: Option<String>,
) -> (out: Vec<EnvVar>)
    requires
        depth < usize::MAX,
    ensures
        vars(out@) == child_vars(
            root@,
            target@,
            session as int,
            depth as int,
            texts(chain@),
            refs(watch@),
            mode,
            opt(log_path),
        ),
{
    let mut out: Vec<EnvVar> = Vec::new();
    out.push(set(E_ROOT, root.to_owned()));
    out.push(set(E_TARGET, target.to_owned()));
    out.push(set(E_SESSION, int_text(session)));
    out.push(set(E_DEPTH, nat_text((depth + 1) as u128)));
    let mut lines = copy_texts(chain);
    let ghost cv = texts(lines@);
    lines.push(target.to_owned());
    assert(texts(lines@) =~= cv.push(target@));
    out.push(set(E_CHAIN, join_with(lines.as_slice(), "\n")));
    let lineage = if watch.len() == 0 {
        None
    } else {
        Some(watch_to_env(watch))
    };
    assert(refs(watch@).len() == watch.len());
    out.push(EnvVar { name: crate::waits::ENV_SPEC_WATCH.to_owned(), value: lineage });
    out.push(EnvVar { name: crate::logs::ENV_LOG_PATH.to_owned(), value: log_path });
    match mode {
        Mode::Ask => {},
        Mode::All => {
            out.push(set("REDO_YES", "1".to_owned()));
        },
        Mode::Quit => {
            out.push(set("REDO_NO", "1".to_owned()));
        },
    }
    assert(vars(out@) =~= child_vars(
        root@,
        target@,
        session as int,
        depth as int,
        texts(chain@),
        refs(watch@),
        mode,
        opt(log_path),
    ));
    out
}

/// A chain that is handed on in the environment is read back as it was.
pub proof fn law_chain_roundtrip(chain: Seq<Seq<char>>)
    requires
        chain.len() > 0,
        forall|i: int|
            0 <= i < chain.len() ==> (#[trigger] chain[i]).len() > 0 && !occurs(chain[i], '\n'),
    ensures
        chain_value(join(chain, "\n"@)) == chain,
{
    reveal_strlit("\n");
    assert("\n"@ =~= seq!['\n']);
    assert forall|i: int| 0 <= i < chain.len() implies !occurs(#[trigger] chain[i], '\n') by {}
    lemma_split_join(chain, '\n');
    lemma_filter_all(chain, |x: Seq<char>| x.len() > 0);
}

/// The session and the depth of a child process are those its parent wrote.
pub proof fn law_session_and_depth_roundtrip(session: int, depth: int)
    requires
        i64::MIN <= session <= i64::MAX,
        0 <= depth < usize::MAX,
    ensures
        signed_value(decimal(session), i64::MAX as int) == Some(session),
        unsigned_value(digits((depth + 1) as nat), usize::MAX as int) == Some(depth + 1),
{
    law_decimal_roundtrip(session, i64::MAX as int);
    law_decimal_roundtrip(depth + 1, usize::MAX as int);
}

/// Normalize a path as it was typed to a root-relative key.
pub fn normalize_target(root: &Root, cwd: &FsPath, input: &str) -> (r: Result<
    String,
    BuildError,
>)
    ensures
        ({
            let key = root_key(
                root@,
                cleaned(joined(cwd@, crate::paths::parsed(input@))),
            );
            match r {
                Ok(k) => key == Some(k@),
                Err(e) => key is None && (e matches BuildError::Outside { input: i, root: d }
                    && i@ == input@ && d@ == path_text(root@)),
            }
        }),
{
    match crate::paths::normalize(&root.dir, cwd, &FsPath::parse(input)) {
        Some(k) => Ok(k),
        None => Err(
            BuildError::Outside { input: input.to_owned(), root: root.dir.to_text() },
        ),
    }
}

/// The name under which a process owns wait edges: its number and a nonce, since
/// numbers are reused.
pub fn owner_id(pid: u32, nanos: u128) -> (s: String)
    ensures
        s@ == digits(pid as nat) + "-"@ + crate::num::hexits(nanos as nat),
{
    crate::text::cat3(nat_text(pid as u128).as_str(), "-", crate::num::hex_text(nanos).as_str())
}

/// A process that a do-file starts finds itself where the do-file is: its root, the target, the
/// session, one level deeper, the target at the end of the chain; the watch and the log of the
/// lineage, or none; and what was decided about overwriting for the whole run.
pub proof fn law_child_knows_its_place(
    root: Seq<char>,
    target: Seq<char>,
    session: int,
    depth: int,
    chain: Seq<Seq<char>>,
    watch: Seq<EdgeRefView>,
    mode: Mode,
    log_path: Option<Seq<char>>,
)
    requires
        0 <= depth,
    ensures
        ({
            let all = child_vars(root, target, session, depth, chain, watch, mode, log_path);
            &&& all.contains(("REDO_ROOT"@, Some(root)))
            &&& all.contains(("REDO_TARGET"@, Some(target)))
            &&& all.contains(("REDO_SESSION"@, Some(decimal(session))))
            &&& all.contains(("REDO_DEPTH"@, Some(digits((depth + 1) as nat))))
            &&& all.contains(("REDO_CHAIN"@, Some(join(chain.push(target), "\n"@))))
            &&& all.contains(
                (
                    crate::waits::ENV_SPEC_WATCH@,
                    if watch.len() == 0 {
                        None
                    } else {
                        Some(watch_text(watch))
                    },
                ),
            )
            &&& all.contains((crate::logs::ENV_LOG_PATH@, log_path))
            &&& mode is All ==> all.contains(("REDO_YES"@, Some("1"@)))
            &&& mode is Quit ==> all.contains(("REDO_NO"@, Some("1"@)))
            &&& mode is Ask <==> all.len() == 7
            &&& all.len() <= 8
        }),
{
    let all = child_vars(root, target, session, depth, chain, watch, mode, log_path);
    assert(all[0] == ("REDO_ROOT"@, Some(root)));
    assert(all[1] == ("REDO_TARGET"@, Some(target)));
    assert(all[2] == ("REDO_SESSION"@, Some(decimal(session))));
    assert(all[3] == ("REDO_DEPTH"@, Some(digits((depth + 1) as nat))));
    assert(all[4] == ("REDO_CHAIN"@, Some(join(chain.push(target), "\n"@))));
    assert(all[5].0 == crate::waits::ENV_SPEC_WATCH@);
    assert(all[6] == (crate::logs::ENV_LOG_PATH@, log_path));
    if !(mode is Ask) {
        assert(all.contains(all[7]));
    }
}

}
