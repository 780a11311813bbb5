//! Jobserver: a limit on the number of do-files running at once across the
//! whole process tree.
//!
//! A *token* is permission to run one do-file. Every process is granted one
//! implicit own token by whoever launched it, which guarantees forward
//! progress: a deep dependency chain can never deadlock waiting for tokens. For
//! additional parallelism a process try-acquires extra tokens from a pool and
//! returns them when the job finishes.
//!
//! The pool is a pipe loaded with byte tokens, or a named semaphore, shared by
//! the process tree through the environment; failing both, it is a counter of
//! this process alone.

use crate::num::{
    decimal, digits, int_text, law_decimal_roundtrip, lemma_digits_number, nat_text, parse_i32,
    parse_usize, signed_value, unsigned_value,
};
use crate::text::{
    cat, cat3, cut_once, lemma_cut_once, occurs, split_once, starts, strip_prefix,
};
use vstd::prelude::*;

verus! {

/// The variable that tells child processes of the pool.
pub const ENV: &'static str = "REDO_JOBSERVER";

/// Where a token came from.
#[derive(Copy, Clone, Debug, PartialEq, Eq, Structural)]
pub enum TokenSrc {
    /// The process's implicit own token.
    Own,
    /// The pool; the token must be returned on completion.
    Pool,
}

/// Where extra tokens are kept.
#[derive(Debug, PartialEq, Eq)]
pub enum Pool {
    /// A pipe whose bytes are tokens.
    Pipe { rfd: i32, wfd: i32 },
    /// A named semaphore whose count is the tokens.
    Sem { name: String },
    /// A counter of this process.
    Local { extra: usize },
}

/// A source of extra tokens.
#[derive(Debug, PartialEq, Eq)]
pub struct Jobserver {
    pub pool: Pool,
}

/// A pool, as a mathematical value.
pub enum PoolView {
    Pipe { rfd: int, wfd: int },
    Sem { name: Seq<char> },
    Local { extra: int },
}

impl View for Jobserver {
    type V = PoolView;

    open spec fn view(&self) -> PoolView {
        match self.pool {
            Pool::Pipe { rfd, wfd } => PoolView::Pipe { rfd: rfd as int, wfd: wfd as int },
            Pool::Sem { name } => PoolView::Sem { name: name@ },
            Pool::Local { extra } => PoolView::Local { extra: extra as int },
        }
    }
}

/// What a try to take a token gave.
#[derive(Copy, Clone, Debug, PartialEq, Eq, Structural)]
pub enum Take {
    Granted,
    Refused,
    /// The pool is outside the process: ask it.
    Ask,
}

/// The extra tokens of a pool for `j` jobs in all: one job has the own token.
pub open spec fn extra_of(j: int) -> int {
    if j > 0 {
        j - 1
    } else {
        0
    }
}

/// How a pool is announced to child processes.
pub open spec fn spec_text(pool: PoolView, j: int) -> Seq<char> {
    match pool {
        PoolView::Pipe { rfd, wfd } => decimal(rfd) + ","@ + decimal(wfd),
        PoolView::Sem { name } => "winsem:"@ + name,
        PoolView::Local { .. } => "local:"@ + digits(j as nat),
    }
}

/// A pool in words.
pub open spec fn pool_text(pool: PoolView) -> Seq<char> {
    match pool {
        PoolView::Pipe { rfd, wfd } => "token pipe (fds "@ + decimal(rfd) + ","@ + decimal(wfd)
            + "), shared across the process tree"@,
        PoolView::Sem { .. } => "named semaphore, shared across the process tree"@,
        PoolView::Local { extra } => "in-process counter ("@ + digits(extra as nat)
            + " extra tokens, NOT shared with child redo processes)"@,
    }
}

/// The pool that two comma-separated numbers announce.
pub open spec fn pipe_value(s: Seq<char>) -> Option<PoolView> {
    match cut_once(s, ","@) {
        Some((r, w)) => match (
            signed_value(r, i32::MAX as int),
            signed_value(w, i32::MAX as int),
        ) {
            (Some(rfd), Some(wfd)) => Some(PoolView::Pipe { rfd, wfd }),
            _ => None,
        },
        None => None,
    }
}

/// The pool that the environment announces; anything that is not understood
/// means none but the own token. Pipes are for Unix, semaphores for Windows.
pub open spec fn env_value(value: Option<Seq<char>>, windows: bool) -> PoolView {
    match value {
        None => PoolView::Local { extra: 0 },
        Some(s) => if !windows && pipe_value(s) is Some {
            pipe_value(s)->0
        } else if windows && starts(s, "winsem:"@) {
            PoolView::Sem { name: s.skip(7) }
        } else if starts(s, "local:"@) {
            match unsigned_value(s.skip(6), usize::MAX as int) {
                Some(j) => PoolView::Local { extra: extra_of(j) },
                None => PoolView::Local { extra: 0 },
            }
        } else {
            PoolView::Local { extra: 0 }
        },
    }
}

/// The view of an optional text.
pub open spec fn opt_text(v: Option<&str>) -> Option<Seq<char>> {
    match v {
        Some(s) => Some(s@),
        None => None,
    }
}

fn from_pipe_spec(s: &str) -> (r: Option<Jobserver>)
    ensures
        match r {
            Some(js) => pipe_value(s@) == Some(js@),
            None => pipe_value(s@) is None,
        },
{
    match split_once(s, ",") {
        None => None,
        Some((r, w)) => match (parse_i32(r.as_str()), parse_i32(w.as_str())) {
            (Some(rfd), Some(wfd)) => Some(Jobserver { pool: Pool::Pipe { rfd, wfd } }),
            _ => None,
        },
    }
}

/// A try to take a token, as far as the process itself can tell.
pub open spec fn taken(pool: PoolView) -> (PoolView, Take) {
    match pool {
        PoolView::Local { extra } => if extra == 0 {
            (pool, Take::Refused)
        } else {
            (PoolView::Local { extra: extra - 1 }, Take::Granted)
        },
        _ => (pool, Take::Ask),
    }
}

/// The return of a token, and whether a pool outside the process gets it.
pub open spec fn returned(pool: PoolView) -> (PoolView, bool) {
    match pool {
        PoolView::Local { extra } => (
            PoolView::Local {
                extra: if extra == usize::MAX {
                    0
                } else {
                    extra + 1
                },
            },
            false,
        ),
        _ => (pool, true),
    }
}

/// The number of extra tokens for `j` jobs in all.
pub fn extra_tokens(j: usize) -> (extra: usize)
    ensures
        extra == extra_of(j as int),
{
    if j > 0 {
        j - 1
    } else {
        0
    }
}

impl Jobserver {
    /// A counter of this process for `j` jobs in all: what a top-level process
    /// falls back on when no shared pool can be had.
    pub fn init_local(j: usize) -> (js: Jobserver)
        ensures
            js@ == (PoolView::Local { extra: extra_of(j as int) }),
    {
        Jobserver { pool: Pool::Local { extra: extra_tokens(j) } }
    }

    /// What to publish to child processes.
    pub fn env_spec(&self, j: usize) -> (s: String)
        ensures
            s@ == spec_text(self@, j as int),
    {
        match &self.pool {
            Pool::Pipe { rfd, wfd } => cat3(
                int_text(*rfd as i64).as_str(),
                ",",
                int_text(*wfd as i64).as_str(),
            ),
            Pool::Sem { name } => cat("winsem:", name.as_str()),
            Pool::Local { .. } => cat("local:", nat_text(j as u128).as_str()),
        }
    }

    /// The jobserver that the environment announces to a child process.
    pub fn from_env(value: Option<&str>, windows: bool) -> (js: Jobserver)
        ensures
            js@ == env_value(opt_text(value), windows),
    {
        let serial = Jobserver { pool: Pool::Local { extra: 0 } };
        let s = match value {
            None => return serial,
            Some(s) => s,
        };
        proof {
            reveal_strlit("winsem:");
            reveal_strlit("local:");
        }
        if !windows {
            if let Some(js) = from_pipe_spec(s) {
                return js;
            }
        } else if let Some(rest) = strip_prefix(s, "winsem:") {
            return Jobserver { pool: Pool::Sem { name: rest } };
        }
        if let Some(rest) = strip_prefix(s, "local:") {
            return match parse_usize(rest.as_str()) {
                Some(j) => Jobserver::init_local(j),
                None => serial,
            };
        }
        serial
    }

    /// Try to take one extra token without blocking.
    pub fn try_acquire(&mut self) -> (r: Take)
        ensures
            (final(self)@, r) == taken(old(self)@),
    {
        match &mut self.pool {
            Pool::Local { extra } => {
                if *extra == 0 {
                    Take::Refused
                } else {
                    *extra = *extra - 1;
                    Take::Granted
                }
            },
            _ => Take::Ask,
        }
    }

    /// Return one token. `true` if the pool is outside the process: the token
    /// is to be put back there.
    pub fn release(&mut self) -> (tell: bool)
        ensures
            (final(self)@, tell) == returned(old(self)@),
    {
        match &mut self.pool {
            Pool::Local { extra } => {
                *extra = extra.wrapping_add(1);
                false
            },
            _ => true,
        }
    }

    /// Human-readable description of the pool.
    pub fn describe(&self) -> (s: String)
        ensures
            s@ == pool_text(self@),
    {
        match &self.pool {
            Pool::Pipe { rfd, wfd } => {
                let head = cat3("token pipe (fds ", int_text(*rfd as i64).as_str(), ",");
                cat3(
                    head.as_str(),
                    int_text(*wfd as i64).as_str(),
                    "), shared across the process tree",
                )
            },
            Pool::Sem { .. } => "named semaphore, shared across the process tree".to_owned(),
            Pool::Local { extra } => cat3(
                "in-process counter (",
                nat_text(*extra as u128).as_str(),
                " extra tokens, NOT shared with child redo processes)",
            ),
        }
    }
}

/// A pool together with what is free in it outside the process: the bytes of the
/// pipe, or the count of the semaphore.
#[verifier::ext_equal]
pub struct Tokens {
    pub pool: PoolView,
    pub outside: int,
}

/// What a pool outside the process answers when it is asked for a token: it gives
/// one of those that are free, if there is any. Also, what is free afterwards.
pub open spec fn asked(outside: int) -> (int, bool) {
    if outside > 0 {
        (outside - 1, true)
    } else {
        (outside, false)
    }
}

/// The tokens that are free in a pool.
pub open spec fn free(t: Tokens) -> int {
    match t.pool {
        PoolView::Local { extra } => extra,
        _ => t.outside,
    }
}

/// A try to take a token, wherever the pool is: what is left, and whether it was
/// granted.
pub open spec fn take(t: Tokens) -> (Tokens, bool) {
    let (pool, r) = taken(t.pool);
    match r {
        Take::Granted => (Tokens { pool, ..t }, true),
        Take::Refused => (Tokens { pool, ..t }, false),
        Take::Ask => (Tokens { pool, outside: asked(t.outside).0 }, asked(t.outside).1),
    }
}

/// The return of a token, wherever the pool is.
pub open spec fn give(t: Tokens) -> Tokens {
    let (pool, tell) = returned(t.pool);
    Tokens {
        pool,
        outside: if tell {
            t.outside + 1
        } else {
            t.outside
        },
    }
}

/// Whether a count of free tokens is one that a pool can have.
pub open spec fn sound(t: Tokens) -> bool {
    0 <= free(t) && (t.pool is Local ==> free(t) <= usize::MAX)
}

/// A token is granted exactly if one is free. One that is granted is free no more;
/// a try that fails takes nothing.
pub proof fn law_granted_iff_free(t: Tokens)
    requires
        sound(t),
    ensures
        take(t).1 <==> free(t) > 0,
        take(t).1 ==> free(take(t).0) == free(t) - 1,
        !take(t).1 ==> take(t).0 == t,
        sound(take(t).0),
{
}

/// A token that is taken and returned leaves the pool as it was.
pub proof fn law_take_then_give(t: Tokens)
    requires
        sound(t),
        take(t).1,
    ensures
        give(take(t).0) == t,
{
}

/// The pool after some tries in a row, and whether all of them were granted.
pub open spec fn take_all(t: Tokens, k: nat) -> (Tokens, bool)
    decreases k,
{
    if k == 0 {
        (t, true)
    } else {
        let before = take_all(t, (k - 1) as nat);
        (take(before.0).0, before.1 && take(before.0).1)
    }
}

/// As many tries in a row succeed as tokens are free, and then none.
pub proof fn law_tries_in_a_row(t: Tokens, k: nat)
    requires
        sound(t),
    ensures
        take_all(t, k).1 <==> k <= free(t),
        sound(take_all(t, k).0),
        free(take_all(t, k).0) == if k <= free(t) {
            free(t) - k
        } else {
            0
        },
    decreases k,
{
    if k > 0 {
        law_tries_in_a_row(t, (k - 1) as nat);
        law_granted_iff_free(take_all(t, (k - 1) as nat).0);
    }
}

/// Once a token that was out is returned, one more try in a row succeeds than
/// before, and no more than that.
pub proof fn law_return_frees_one(t: Tokens, k: nat)
    requires
        sound(t),
        t.pool is Local ==> free(t) < usize::MAX,
    ensures
        take_all(give(t), k).1 <==> k <= free(t) + 1,
        k == free(t) + 1 ==> !take(take_all(give(t), k).0).1,
{
    law_tries_in_a_row(give(t), k);
    law_granted_iff_free(take_all(give(t), k).0);
}

/// A step in the life of a pool.
pub enum PoolMove {
    /// Somebody tries to take a token.
    Take,
    /// Somebody returns one.
    Give,
}

/// A pool after a history, and the tokens that are out: how many tries were granted
/// less how many tokens were returned.
pub open spec fn pool_history(t: Tokens, moves: Seq<PoolMove>) -> (Tokens, int)
    decreases moves.len(),
{
    if moves.len() == 0 {
        (t, 0)
    } else {
        let (now, out) = pool_history(t, moves.drop_last());
        match moves.last() {
            PoolMove::Take => (
                take(now).0,
                if take(now).1 {
                    out + 1
                } else {
                    out
                },
            ),
            PoolMove::Give => (give(now), out - 1),
        }
    }
}

/// Whether a history returns only tokens that are out.
pub open spec fn returns_what_is_out(t: Tokens, moves: Seq<PoolMove>) -> bool
    decreases moves.len(),
{
    moves.len() == 0 || (returns_what_is_out(t, moves.drop_last()) && (moves.last() is Give
        ==> pool_history(t, moves.drop_last()).1 > 0))
}

/// The pool for `j` jobs holds `j - 1` tokens, wherever it is: after every history,
/// what is out and what is free add up to that, and a try is granted exactly if fewer
/// than `j - 1` are out.
pub proof fn law_pool_is_bounded(t: Tokens, j: int, moves: Seq<PoolMove>)
    requires
        0 <= j <= usize::MAX,
        free(t) == extra_of(j),
        returns_what_is_out(t, moves),
    ensures
        ({
            let (now, out) = pool_history(t, moves);
            &&& 0 <= out <= extra_of(j)
            &&& out + free(now) == extra_of(j)
            &&& take(now).1 <==> out < extra_of(j)
        }),
    decreases moves.len(),
{
    if moves.len() > 0 {
        law_pool_is_bounded(t, j, moves.drop_last());
    }
}

/// What one non-blocking read from the token pipe means.
#[derive(Copy, Clone, Debug, PartialEq, Eq, Structural)]
pub enum PipeRead {
    Granted,
    Refused,
    /// The call was interrupted: read again.
    Again,
}

/// What a read of one byte that returned `n` means; `interrupted` tells whether
/// a failed one was merely interrupted.
pub fn pipe_read(n: i64, interrupted: bool) -> (r: PipeRead)
    ensures
        r is Granted <==> n == 1,
        r is Again <==> n < 0 && interrupted,
{
    if n == 1 {
        PipeRead::Granted
    } else if n < 0 && interrupted {
        PipeRead::Again
    } else {
        PipeRead::Refused
    }
}

/// A decimal number holds no comma.
proof fn lemma_no_comma(n: int)
    ensures
        !occurs(decimal(n), ','),
{
    let d = if n < 0 {
        digits((-n) as nat)
    } else {
        digits(n as nat)
    };
    if n < 0 {
        lemma_digits_number((-n) as nat);
    } else {
        lemma_digits_number(n as nat);
    }
    if occurs(decimal(n), ',') {
        let k = choose|k: int| 0 <= k < decimal(n).len() && decimal(n)[k] == ',';
        if n < 0 {
            assert(crate::num::is_digit(d[k - 1]));
        } else {
            assert(crate::num::is_digit(d[k]));
        }
    }
}

/// A child process finds the pool that its parent published.
pub proof fn law_pool_is_inherited(pool: PoolView, j: int)
    requires
        0 <= j <= usize::MAX,
        match pool {
            PoolView::Pipe { rfd, wfd } => i32::MIN <= rfd <= i32::MAX && i32::MIN <= wfd
                <= i32::MAX,
            PoolView::Sem { .. } => true,
            PoolView::Local { extra } => extra == extra_of(j),
        },
    ensures
        env_value(Some(spec_text(pool, j)), pool is Sem) == pool,
{
    let s = spec_text(pool, j);
    match pool {
        PoolView::Pipe { rfd, wfd } => {
            reveal_strlit(",");
            assert(","@ =~= seq![',']);
            lemma_no_comma(rfd);
            lemma_cut_once(decimal(rfd), ","@, decimal(wfd));
            law_decimal_roundtrip(rfd, i32::MAX as int);
            law_decimal_roundtrip(wfd, i32::MAX as int);
        },
        PoolView::Sem { name } => {
            reveal_strlit("winsem:");
            assert(s.take(7) =~= "winsem:"@);
            assert(s.skip(7) =~= name);
        },
        PoolView::Local { extra } => {
            reveal_strlit("local:");
            reveal_strlit(",");
            assert(s.take(6) =~= "local:"@);
            assert(s.skip(6) =~= digits(j as nat));
            law_decimal_roundtrip(j, usize::MAX as int);
            assert(!occurs(s, ',')) by {
                lemma_no_comma(j);
                if occurs(s, ',') {
                    let k = choose|k: int| 0 <= k < s.len() && s[k] == ',';
                    if k >= 6 {
                        assert(decimal(j)[k - 6] == ',');
                    }
                }
            }
            lemma_absent(s, 0);
        },
    }
}

/// What does not occur is not found.
proof fn lemma_absent(s: Seq<char>, from: int)
    requires
        !occurs(s, ','),
        0 <= from,
    ensures
        crate::text::find_from(s, ","@, from) is None,
    decreases s.len() + 1 - from,
{
    reveal_strlit(",");
    if from + 1 <= s.len() {
        if s.subrange(from, from + 1) == ","@ {
            assert(s.subrange(from, from + 1)[0] == s[from]);
        }
        lemma_absent(s, from + 1);
    }
}

/// A pool for `j` jobs lets `j` do-files run and no more: the own token and those of the pool are
/// `j`. No jobs at all leave the own token.
pub proof fn law_jobs_in_all(j: int, k: nat, outside: int)
    requires
        0 <= j <= usize::MAX,
    ensures
        take_all(Tokens { pool: PoolView::Local { extra: extra_of(j) }, outside }, k).1 <==> k
            == 0 || 1 + k <= j,
        j >= 1 ==> 1 + extra_of(j) == j,
{
    law_tries_in_a_row(Tokens { pool: PoolView::Local { extra: extra_of(j) }, outside }, k);
}

/// A process that is told of no pool, or of one that it does not understand, has its own token
/// alone; a pipe means nothing on Windows, nor a semaphore elsewhere.
pub proof fn law_unknown_pools_are_empty(s: Seq<char>, name: Seq<char>, windows: bool)
    ensures
        env_value(None, windows) == (PoolView::Local { extra: 0 }),
        cut_once(s, ","@) is None && !starts(s, "local:"@) ==> env_value(Some(s), false) == (
        PoolView::Local { extra: 0 }),
        !starts(s, "winsem:"@) && !starts(s, "local:"@) ==> env_value(Some(s), true) == (
        PoolView::Local { extra: 0 }),
        unsigned_value(s, usize::MAX as int) is None ==> env_value(Some("local:"@ + s), true) == (
        PoolView::Local { extra: 0 }),
        env_value(Some(s), true) is Pipe ==> false,
        env_value(Some(s), false) is Sem ==> false,
{
    reveal_strlit("local:");
    reveal_strlit("winsem:");
    let l = "local:"@ + s;
    assert(l.take(6) =~= "local:"@);
    assert(l.skip(6) =~= s);
    assert(l[0] == 'l');
    if starts(l, "winsem:"@) {
        assert(l.take(7)[0] == 'w');
    }
}

}
