//! The tokens of a whole tree of processes.
//!
//! Every process brings a token of its own, which it has from the do-file that launched
//! it: that do-file holds a token, and waits while the process runs. Further tokens come
//! from the pool that all processes of the tree share. So no more do-files run than there
//! are jobs, however deep the tree is.

use crate::jobserver::{asked, PoolView, TokenSrc};
use crate::parallel::{token_returned, token_taken, TokenState, TokenStep};
use vstd::prelude::*;

verus! {

/// A process of the tree.
#[verifier::ext_equal]
pub struct Process {
    /// The process whose do-file launched it; none launched the first.
    pub parent: int,
    /// Whether it has not exited.
    pub live: bool,
    /// Whether one of its do-files holds the process's own token.
    pub own_busy: bool,
    /// Its do-files that hold a token from the pool.
    pub pool: int,
    /// Its do-files that wait for a process which they launched.
    pub waiting: int,
}

/// A tree of processes, and what is free in the pool that they share.
#[verifier::ext_equal]
pub struct Tree {
    /// How each process knows the pool.
    pub handle: PoolView,
    pub free: int,
    pub procs: Seq<Process>,
}

/// A step in the life of a tree.
pub enum TreeMove {
    /// A process tries to get a token for a do-file.
    Take { at: int, own_ok: bool },
    /// A do-file of a process ends, and its token is returned.
    Return { at: int, src: TokenSrc },
    /// A do-file of a process launches a process, and waits for it.
    Launch { at: int },
    /// A process exits, and the do-file that launched it goes on.
    Exit { at: int },
}

/// The do-files of a process, each with the token it holds.
pub open spec fn dofiles(p: Process) -> int {
    p.pool + if p.own_busy {
        1int
    } else {
        0int
    }
}

/// The tokens as a process of the tree knows them.
pub open spec fn tokens_at(t: Tree, at: int) -> TokenState {
    TokenState { own_busy: t.procs[at].own_busy, pool: t.handle }
}

/// A process with its own token in use or not, and some more do-files with tokens from the
/// pool.
pub open spec fn changed(t: Tree, at: int, own_busy: bool, more: int) -> Seq<Process> {
    t.procs.update(
        at,
        Process { own_busy, pool: t.procs[at].pool + more, ..t.procs[at] },
    )
}

/// A process that starts: its own token is free.
pub open spec fn started(parent: int) -> Process {
    Process { parent, live: true, own_busy: false, pool: 0, waiting: 0 }
}

/// A process with another number of do-files that wait.
pub open spec fn with_waiting(procs: Seq<Process>, at: int, more: int) -> Seq<Process> {
    procs.update(at, Process { waiting: procs[at].waiting + more, ..procs[at] })
}

/// The tree after a step.
pub open spec fn tree_step(t: Tree, m: TreeMove) -> Tree {
    match m {
        TreeMove::Take { at, own_ok } => {
            let (st, r) = token_taken(tokens_at(t, at), own_ok);
            match r {
                TokenStep::Own => Tree { procs: changed(t, at, st.own_busy, 0), ..t },
                TokenStep::Ask => if asked(t.free).1 {
                    Tree {
                        free: asked(t.free).0,
                        procs: changed(t, at, st.own_busy, 1),
                        ..t
                    }
                } else {
                    t
                },
                _ => t,
            }
        },
        TreeMove::Return { at, src } => {
            let (st, tell) = token_returned(tokens_at(t, at), src);
            Tree {
                free: if tell {
                    t.free + 1
                } else {
                    t.free
                },
                procs: changed(
                    t,
                    at,
                    st.own_busy,
                    if src is Pool {
                        -1
                    } else {
                        0
                    },
                ),
                ..t
            }
        },
        TreeMove::Launch { at } => Tree {
            procs: with_waiting(t.procs, at, 1).push(started(at)),
            ..t
        },
        TreeMove::Exit { at } => Tree {
            procs: with_waiting(
                t.procs.update(at, Process { live: false, ..t.procs[at] }),
                t.procs[at].parent,
                -1,
            ),
            ..t
        },
    }
}

/// Whether a step can happen: live processes take tokens; a do-file that does not wait may
/// end, or launch a process; a process exits once its do-files have ended.
pub open spec fn can_happen(t: Tree, m: TreeMove) -> bool {
    match m {
        TreeMove::Take { at, .. } => 0 <= at < t.procs.len() && t.procs[at].live,
        TreeMove::Return { at, src } => 0 <= at < t.procs.len() && t.procs[at].waiting < dofiles(
            t.procs[at],
        ) && match src {
            TokenSrc::Own => t.procs[at].own_busy,
            TokenSrc::Pool => t.procs[at].pool > 0,
        },
        TreeMove::Launch { at } => 0 <= at < t.procs.len() && t.procs[at].waiting < dofiles(
            t.procs[at],
        ),
        TreeMove::Exit { at } => 0 < at < t.procs.len() && t.procs[at].live && dofiles(
            t.procs[at],
        ) == 0,
    }
}

/// The tree after a history that starts with one process and a pool for `j` jobs, which
/// holds `j - 1` tokens.
pub open spec fn tree_history(handle: PoolView, j: int, moves: Seq<TreeMove>) -> Tree
    decreases moves.len(),
{
    if moves.len() == 0 {
        Tree { handle, free: j - 1, procs: seq![started(-1)] }
    } else {
        tree_step(tree_history(handle, j, moves.drop_last()), moves.last())
    }
}

/// Whether each step of a history can happen when it does.
pub open spec fn possible(handle: PoolView, j: int, moves: Seq<TreeMove>) -> bool
    decreases moves.len(),
{
    moves.len() == 0 || (possible(handle, j, moves.drop_last()) && can_happen(
        tree_history(handle, j, moves.drop_last()),
        moves.last(),
    ))
}

/// The sum of a quantity over processes.
pub open spec fn total(procs: Seq<Process>, f: spec_fn(Process) -> int) -> int
    decreases procs.len(),
{
    if procs.len() == 0 {
        0
    } else {
        total(procs.drop_last(), f) + f(procs.last())
    }
}

/// The tokens from the pool that the do-files of a tree hold.
pub open spec fn held(t: Tree) -> int {
    total(t.procs, |p: Process| p.pool)
}

/// The do-files of a tree that run: those that do not wait for a process.
pub open spec fn running(t: Tree) -> int {
    total(t.procs, |p: Process| dofiles(p) - p.waiting)
}

/// The live processes that do-files of a process launched.
pub open spec fn children(t: Tree, at: int) -> int {
    total(t.procs, child_of(at))
}

/// One for a live process that a do-file of a process launched.
pub open spec fn child_of(at: int) -> spec_fn(Process) -> int {
    |p: Process|
        if p.live && p.parent == at {
            1int
        } else {
            0int
        }
}

spec fn alive() -> spec_fn(Process) -> int {
    |p: Process|
        if p.live {
            1int
        } else {
            0int
        }
}

spec fn waits() -> spec_fn(Process) -> int {
    |p: Process| p.waiting
}

spec fn owns() -> spec_fn(Process) -> int {
    |p: Process|
        if p.own_busy {
            1int
        } else {
            0int
        }
}

spec fn pools() -> spec_fn(Process) -> int {
    |p: Process| p.pool
}

proof fn lemma_total_update(procs: Seq<Process>, at: int, p: Process, f: spec_fn(Process) -> int)
    requires
        0 <= at < procs.len(),
    ensures
        total(procs.update(at, p), f) == total(procs, f) - f(procs[at]) + f(p),
    decreases procs.len(),
{
    let all = procs.update(at, p);
    if at == procs.len() - 1 {
        assert(all.drop_last() =~= procs.drop_last());
    } else {
        assert(all.drop_last() =~= procs.drop_last().update(at, p));
        lemma_total_update(procs.drop_last(), at, p, f);
    }
}

proof fn lemma_total_push(procs: Seq<Process>, p: Process, f: spec_fn(Process) -> int)
    ensures
        total(procs.push(p), f) == total(procs, f) + f(p),
{
    assert(procs.push(p).drop_last() =~= procs);
}

proof fn lemma_total_at_least(procs: Seq<Process>, at: int, f: spec_fn(Process) -> int)
    requires
        forall|k: int| 0 <= k < procs.len() ==> f(#[trigger] procs[k]) >= 0,
    ensures
        total(procs, f) >= 0,
        0 <= at < procs.len() ==> total(procs, f) >= f(procs[at]),
    decreases procs.len(),
{
    if procs.len() > 0 {
        let front = procs.drop_last();
        assert forall|k: int| 0 <= k < front.len() implies f(#[trigger] front[k]) >= 0 by {
            assert(f(procs[k]) >= 0);
        }
        assert(f(procs[procs.len() - 1]) >= 0);
        lemma_total_at_least(front, at, f);
        if 0 <= at < front.len() {
            assert(front[at] == procs[at]);
        }
    }
}

proof fn lemma_total_zero(procs: Seq<Process>, f: spec_fn(Process) -> int)
    requires
        forall|k: int| 0 <= k < procs.len() ==> f(#[trigger] procs[k]) == 0,
    ensures
        total(procs, f) == 0,
    decreases procs.len(),
{
    if procs.len() > 0 {
        let front = procs.drop_last();
        assert forall|k: int| 0 <= k < front.len() implies f(#[trigger] front[k]) == 0 by {
            assert(f(procs[k]) == 0);
        }
        assert(f(procs[procs.len() - 1]) == 0);
        lemma_total_zero(front, f);
    }
}

/// What holds of a tree at all times.
spec fn sound(t: Tree, j: int) -> bool {
    &&& t.free >= 0
    &&& total(t.procs, pools()) + t.free == j - 1
    &&& total(t.procs, waits()) == total(t.procs, alive()) - 1
    &&& t.procs.len() > 0 && t.procs[0].live
    &&& forall|k: int| 0 <= k < t.procs.len() ==> sound_at(t, k)
}

spec fn sound_at(t: Tree, k: int) -> bool {
    let p = t.procs[k];
    &&& p.pool >= 0
    &&& 0 <= p.waiting <= dofiles(p)
    &&& p.parent < k && (k > 0 ==> 0 <= p.parent)
    &&& !p.live ==> dofiles(p) == 0
    &&& p.waiting == children(t, k)
}

proof fn lemma_sums(procs: Seq<Process>)
    ensures
        total(procs, |p: Process| dofiles(p) - p.waiting) == total(procs, pools()) + total(
            procs,
            owns(),
        ) - total(procs, waits()),
        total(procs, |p: Process| p.pool) == total(procs, pools()),
    decreases procs.len(),
{
    if procs.len() > 0 {
        lemma_sums(procs.drop_last());
    }
}

proof fn lemma_changed(t: Tree, at: int, own_busy: bool, more: int, free: int, j: int)
    requires
        sound(t, j),
        0 <= at < t.procs.len(),
        t.procs[at].live,
        free == t.free - more,
        free >= 0,
        t.procs[at].pool + more >= 0,
        t.procs[at].waiting <= t.procs[at].pool + more + if own_busy {
            1int
        } else {
            0int
        },
    ensures
        sound(Tree { free, procs: changed(t, at, own_busy, more), ..t }, j),
{
    let p = t.procs[at];
    let q = Process { own_busy, pool: p.pool + more, ..p };
    let next = Tree { free, procs: changed(t, at, own_busy, more), ..t };
    assert(sound_at(t, at));
    lemma_total_update(t.procs, at, q, pools());
    lemma_total_update(t.procs, at, q, alive());
    lemma_total_update(t.procs, at, q, waits());
    assert forall|k: int| 0 <= k < next.procs.len() implies sound_at(next, k) by {
        assert(sound_at(t, k));
        lemma_total_update(t.procs, at, q, child_of(k));
    }
}

/// No more own tokens are in use than processes live.
proof fn lemma_owns(procs: Seq<Process>)
    requires
        forall|k: int|
            0 <= k < procs.len() && (#[trigger] procs[k]).own_busy ==> procs[k].live,
    ensures
        total(procs, owns()) <= total(procs, alive()),
    decreases procs.len(),
{
    if procs.len() > 0 {
        let front = procs.drop_last();
        assert forall|k: int|
            0 <= k < front.len() && (#[trigger] front[k]).own_busy implies front[k].live by {
            assert(procs[k].own_busy);
        }
        assert(procs[procs.len() - 1].own_busy ==> procs[procs.len() - 1].live);
        lemma_owns(front);
    }
}

proof fn lemma_launch(t: Tree, at: int, j: int)
    requires
        sound(t, j),
        can_happen(t, TreeMove::Launch { at }),
    ensures
        sound(tree_step(t, TreeMove::Launch { at }), j),
{
    let n = t.procs.len() as int;
    let next = tree_step(t, TreeMove::Launch { at });
    let p = t.procs[at];
    let q = Process { waiting: p.waiting + 1, ..p };
    let mid = with_waiting(t.procs, at, 1);
    assert(sound_at(t, at));
    lemma_total_update(t.procs, at, q, pools());
    lemma_total_update(t.procs, at, q, alive());
    lemma_total_update(t.procs, at, q, waits());
    lemma_total_push(mid, started(at), pools());
    lemma_total_push(mid, started(at), alive());
    lemma_total_push(mid, started(at), waits());
    assert forall|k: int| 0 <= k < next.procs.len() implies sound_at(next, k) by {
        lemma_total_update(t.procs, at, q, child_of(k));
        lemma_total_push(mid, started(at), child_of(k));
        if k < n {
            assert(sound_at(t, k));
        } else {
            let f = child_of(k);
            assert forall|i: int| 0 <= i < t.procs.len() implies f(#[trigger] t.procs[i]) == 0 by {
                assert(sound_at(t, i));
            }
            lemma_total_zero(t.procs, f);
        }
    }
}

proof fn lemma_exit(t: Tree, at: int, j: int)
    requires
        sound(t, j),
        can_happen(t, TreeMove::Exit { at }),
    ensures
        sound(tree_step(t, TreeMove::Exit { at }), j),
{
    let next = tree_step(t, TreeMove::Exit { at });
    let p = t.procs[at];
    let gone = Process { live: false, ..p };
    let mid = t.procs.update(at, gone);
    let up = p.parent;
    assert(sound_at(t, at));
    assert(sound_at(t, up));
    assert(mid[up] == t.procs[up]);
    let q = Process { waiting: t.procs[up].waiting - 1, ..t.procs[up] };
    assert(next.procs =~= mid.update(up, q));
    lemma_total_update(t.procs, at, gone, pools());
    lemma_total_update(t.procs, at, gone, alive());
    lemma_total_update(t.procs, at, gone, waits());
    lemma_total_update(mid, up, q, pools());
    lemma_total_update(mid, up, q, alive());
    lemma_total_update(mid, up, q, waits());
    let f = child_of(up);
    assert forall|i: int| 0 <= i < t.procs.len() implies f(#[trigger] t.procs[i]) >= 0 by {}
    lemma_total_at_least(t.procs, at, f);
    assert(t.procs[up].waiting >= 1);
    assert forall|k: int| 0 <= k < next.procs.len() implies sound_at(next, k) by {
        assert(sound_at(t, k));
        lemma_total_update(t.procs, at, gone, child_of(k));
        lemma_total_update(mid, up, q, child_of(k));
    }
}

proof fn lemma_sound(handle: PoolView, j: int, moves: Seq<TreeMove>)
    requires
        !(handle is Local),
        1 <= j,
        possible(handle, j, moves),
    ensures
        sound(tree_history(handle, j, moves), j),
        tree_history(handle, j, moves).handle == handle,
    decreases moves.len(),
{
    if moves.len() == 0 {
        let first = started(-1);
        let t = tree_history(handle, j, moves);
        let none = Seq::<Process>::empty();
        assert(t.procs =~= none.push(first));
        lemma_total_push(none, first, pools());
        lemma_total_push(none, first, alive());
        lemma_total_push(none, first, waits());
        assert forall|k: int| 0 <= k < t.procs.len() implies sound_at(t, k) by {
            lemma_total_push(none, first, child_of(k));
        }
    } else {
        let front = moves.drop_last();
        lemma_sound(handle, j, front);
        let t = tree_history(handle, j, front);
        match moves.last() {
            TreeMove::Take { at, own_ok } => {
                assert(sound_at(t, at));
                let (st, r) = token_taken(tokens_at(t, at), own_ok);
                if r is Own {
                    lemma_changed(t, at, true, 0, t.free, j);
                } else if t.free > 0 {
                    lemma_changed(t, at, st.own_busy, 1, t.free - 1, j);
                }
            },
            TreeMove::Return { at, src } => {
                assert(sound_at(t, at));
                if src is Own {
                    lemma_changed(t, at, false, 0, t.free, j);
                } else {
                    lemma_changed(t, at, t.procs[at].own_busy, -1, t.free + 1, j);
                }
            },
            TreeMove::Launch { at } => {
                lemma_launch(t, at, j);
            },
            TreeMove::Exit { at } => {
                lemma_exit(t, at, j);
            },
        }
    }
}

/// No token is lost or duplicated in a whole tree of processes, and no more than `j`
/// do-files run in it: after every history, what the do-files hold of the shared pool and
/// what is free in it add up to `j - 1`; and the do-files that do not wait for a process
/// are at most `j`, though each process brings a token of its own.
pub proof fn law_tree_is_bounded(handle: PoolView, j: int, moves: Seq<TreeMove>)
    requires
        !(handle is Local),
        1 <= j,
        possible(handle, j, moves),
    ensures
        ({
            let t = tree_history(handle, j, moves);
            &&& t.free >= 0
            &&& held(t) + t.free == j - 1
            &&& running(t) <= j
        }),
{
    lemma_sound(handle, j, moves);
    let t = tree_history(handle, j, moves);
    lemma_sums(t.procs);
    assert forall|k: int|
        0 <= k < t.procs.len() && (#[trigger] t.procs[k]).own_busy implies t.procs[k].live by {
        assert(sound_at(t, k));
    }
    lemma_owns(t.procs);
}

/// In a whole tree of processes, as many do-files of a process wait as live processes were
/// launched by them, and a process that exited has none.
pub proof fn law_launchers_wait(handle: PoolView, j: int, moves: Seq<TreeMove>, at: int)
    requires
        !(handle is Local),
        1 <= j,
        possible(handle, j, moves),
        0 <= at < tree_history(handle, j, moves).procs.len(),
    ensures
        ({
            let t = tree_history(handle, j, moves);
            let p = t.procs[at];
            &&& p.waiting == children(t, at)
            &&& 0 <= p.waiting <= dofiles(p)
            &&& !p.live ==> dofiles(p) == 0
        }),
{
    lemma_sound(handle, j, moves);
    assert(sound_at(tree_history(handle, j, moves), at));
}

/// Nobody in a tree of processes starves while a token is free: a try by a task that may use
/// the own token of its process fails only while that one is in use and all `j - 1` of the
/// shared pool are out.
pub proof fn law_tree_grants_what_is_free(
    handle: PoolView,
    j: int,
    moves: Seq<TreeMove>,
    at: int,
)
    requires
        !(handle is Local),
        1 <= j,
        possible(handle, j, moves),
        can_happen(tree_history(handle, j, moves), (TreeMove::Take { at, own_ok: true })),
    ensures
        ({
            let t = tree_history(handle, j, moves);
            let next = tree_step(t, TreeMove::Take { at, own_ok: true });
            next == t ==> t.procs[at].own_busy && held(t) == j - 1
        }),
        ({
            let t = tree_history(handle, j, moves);
            let next = tree_step(t, TreeMove::Take { at, own_ok: true });
            next != t ==> dofiles(next.procs[at]) == dofiles(t.procs[at]) + 1
        }),
{
    lemma_sound(handle, j, moves);
    let t = tree_history(handle, j, moves);
    lemma_sums(t.procs);
    let next = tree_step(t, TreeMove::Take { at, own_ok: true });
    if !t.procs[at].own_busy || t.free > 0 {
        assert(dofiles(next.procs[at]) == dofiles(t.procs[at]) + 1);
    }
}

}
