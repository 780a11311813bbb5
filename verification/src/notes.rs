//! What is traced, in words: the decisions about targets (`--verbose`), and the jobs
//! (`--debug-jobs`).

use crate::building::{plan_build, plan_for, Facts, Plan};
use crate::check::{has_dep, Answer, Item, ItemView, Waited};
use crate::db::{dep_views, deps_of, file_row, DepKind, DepRow, DepView, FileView, Store};
use crate::jobserver::{pool_text, Jobserver};
use crate::num::{digits, nat_text};
use crate::outdated::{current_csum, edge_outdated, trusted, CsumStep, Meta, Now};
use crate::overwrite::{hash8, is_plain, short_hash};
use crate::parallel::{
    final_outcome, outcome_failure, Group, GroupView, Outcome, Registry, State, TaskView,
    RECLAIMS_MAX,
};
use crate::stamp::Stamp;
use crate::text::{cat, cat3, join, join_with, opt, same, same_opt, texts};
use crate::waits::SoftOutcome;
use vstd::prelude::*;

verus! {

/// Whether the value of a variable turns a trace on.
pub fn is_on(value: Option<&str>) -> (r: bool)
    ensures
        r == (value is Some && value->0@ == "1"@),
{
    match value {
        Some(v) => same(v, "1"),
        None => false,
    }
}

/// The variable that turns the trace of decisions on, for a process and those below.
pub const ENV_VERBOSE: &'static str = "REDO_VERBOSE";

/// The variable that turns the trace of jobs on, for a process and those below.
pub const ENV_DEBUG_JOBS: &'static str = "REDO_DEBUG_JOBS";

/// What is said of a request from outside a do-file.
pub const NO_PARENT: &'static str = "not inside a do-file (no REDO_TARGET): dependencies were brought up to date but no edges were recorded";

/// What is said of a process without a pool of tokens.
pub const NO_POOL: &'static str = "jobserver: none in environment: serial (own token only)";

/// A line of the trace of decisions.
pub open spec fn decision_line_text(text: Seq<char>) -> Seq<char> {
    "redo-msh -v: "@ + text + "\n"@
}

/// A line of the trace of decisions.
pub fn decision_line(text: &str) -> (s: String)
    ensures
        s@ == decision_line_text(text@),
{
    cat3("redo-msh -v: ", text, "\n")
}

/// A line of the trace of jobs.
pub open spec fn jobs_line_text(text: Seq<char>) -> Seq<char> {
    "redo-msh jobs: "@ + text + "\n"@
}

/// A line of the trace of jobs.
pub fn jobs_line(text: &str) -> (s: String)
    ensures
        s@ == jobs_line_text(text@),
{
    cat3("redo-msh jobs: ", text, "\n")
}

/// A target was never built.
pub open spec fn never_built_text(target: Seq<char>) -> Seq<char> {
    target + ": OUT OF DATE: redo has no record of ever building it"@
}

/// A target was never built.
pub fn never_built(target: &str) -> (s: String)
    ensures
        s@ == never_built_text(target@),
{
    cat(target, ": OUT OF DATE: redo has no record of ever building it")
}

/// A target's output is gone.
pub open spec fn output_missing_text(target: Seq<char>) -> Seq<char> {
    target + ": OUT OF DATE: the previously built output is missing from disk"@
}

/// A target's output is gone.
pub fn output_missing(target: &str) -> (s: String)
    ensures
        s@ == output_missing_text(target@),
{
    cat(target, ": OUT OF DATE: the previously built output is missing from disk")
}

/// A target asked to be built always.
pub open spec fn always_built_text(target: Seq<char>) -> Seq<char> {
    target + ": OUT OF DATE: its do-file called redo-always"@
}

/// A target asked to be built always.
pub fn always_built(target: &str) -> (s: String)
    ensures
        s@ == always_built_text(target@),
{
    cat(target, ": OUT OF DATE: its do-file called redo-always")
}

/// A target's last build did not commit.
pub open spec fn not_committed_text(target: Seq<char>) -> Seq<char> {
    target + ": OUT OF DATE: the last build failed or crashed before committing"@
}

/// A target's last build did not commit.
pub fn not_committed(target: &str) -> (s: String)
    ensures
        s@ == not_committed_text(target@),
{
    cat(target, ": OUT OF DATE: the last build failed or crashed before committing")
}

/// A target's do-file changed.
pub open spec fn dofile_changed_text(target: Seq<char>, dep: Seq<char>, was: Seq<char>, now: Seq<char>) -> Seq<char> {
    target + ": OUT OF DATE: do-file "@ + (dep + " changed (hash was "@ + (was + " at last build, is now "@ + (now + ")"@)))
}

/// A target's do-file changed.
pub fn dofile_changed(target: &str, dep: &str, was: &str, now: &str) -> (s: String)
    ensures
        s@ == dofile_changed_text(target@, dep@, was@, now@),
{
    let tail = cat(now, ")");
    let tail2 = cat3(was, " at last build, is now ", tail.as_str());
    let tail3 = cat3(dep, " changed (hash was ", tail2.as_str());
    cat3(target, ": OUT OF DATE: do-file ", tail3.as_str())
}

/// A target's do-file is as it was.
pub open spec fn dofile_same_text(target: Seq<char>, dep: Seq<char>, now: Seq<char>) -> Seq<char> {
    target + ": do-file "@ + (dep + " unchanged (hash "@ + (now + ")"@))
}

/// A target's do-file is as it was.
pub fn dofile_same(target: &str, dep: &str, now: &str) -> (s: String)
    ensures
        s@ == dofile_same_text(target@, dep@, now@),
{
    let tail = cat(now, ")");
    let tail2 = cat3(dep, " unchanged (hash ", tail.as_str());
    cat3(target, ": do-file ", tail2.as_str())
}

/// A path that was to be absent exists.
pub open spec fn now_exists_text(target: Seq<char>, dep: Seq<char>) -> Seq<char> {
    target + ": OUT OF DATE: "@ + (dep + " now exists (the target depends on it NOT existing — at build time it was a missing do-file candidate or an ifcreate path)"@)
}

/// A path that was to be absent exists.
pub fn now_exists(target: &str, dep: &str) -> (s: String)
    ensures
        s@ == now_exists_text(target@, dep@),
{
    let tail = cat(dep, " now exists (the target depends on it NOT existing — at build time it was a missing do-file candidate or an ifcreate path)");
    cat3(target, ": OUT OF DATE: ", tail.as_str())
}

/// A path that was to be absent is.
pub open spec fn still_absent_text(target: Seq<char>, dep: Seq<char>) -> Seq<char> {
    target + ": ifcreate dependency "@ + (dep + " is still absent"@)
}

/// A path that was to be absent is.
pub fn still_absent(target: &str, dep: &str) -> (s: String)
    ensures
        s@ == still_absent_text(target@, dep@),
{
    let tail = cat(dep, " is still absent");
    cat3(target, ": ifcreate dependency ", tail.as_str())
}

/// A dependency is gone.
pub open spec fn dep_gone_text(target: Seq<char>, dep: Seq<char>) -> Seq<char> {
    target + ": OUT OF DATE: dependency "@ + (dep + " no longer exists"@)
}

/// A dependency is gone.
pub fn dep_gone(target: &str, dep: &str) -> (s: String)
    ensures
        s@ == dep_gone_text(target@, dep@),
{
    let tail = cat(dep, " no longer exists");
    cat3(target, ": OUT OF DATE: dependency ", tail.as_str())
}

/// A dependency changed.
pub open spec fn dep_changed_text(target: Seq<char>, dep: Seq<char>, was: Seq<char>, now: Seq<char>) -> Seq<char> {
    target + ": OUT OF DATE: dependency "@ + (dep + " changed (hash was "@ + (was + " at last build, is now "@ + (now + ")"@)))
}

/// A dependency changed.
pub fn dep_changed(target: &str, dep: &str, was: &str, now: &str) -> (s: String)
    ensures
        s@ == dep_changed_text(target@, dep@, was@, now@),
{
    let tail = cat(now, ")");
    let tail2 = cat3(was, " at last build, is now ", tail.as_str());
    let tail3 = cat3(dep, " changed (hash was ", tail2.as_str());
    cat3(target, ": OUT OF DATE: dependency ", tail3.as_str())
}

/// A dependency is as it was.
pub open spec fn dep_same_text(target: Seq<char>, dep: Seq<char>, now: Seq<char>) -> Seq<char> {
    target + ": dependency "@ + (dep + " unchanged (hash "@ + (now + ")"@))
}

/// A dependency is as it was.
pub fn dep_same(target: &str, dep: &str, now: &str) -> (s: String)
    ensures
        s@ == dep_same_text(target@, dep@, now@),
{
    let tail = cat(now, ")");
    let tail2 = cat3(dep, " unchanged (hash ", tail.as_str());
    cat3(target, ": dependency ", tail2.as_str())
}

/// A wait would close a cycle.
pub open spec fn wait_refused_text(target: Seq<char>, dep: Seq<char>) -> Seq<char> {
    target + ": waiting for recorded dependency "@ + (dep + " would close a dependency cycle; treating it as out of date (the do-file is the ground truth for whether the cycle is real)"@)
}

/// A wait would close a cycle.
pub fn wait_refused(target: &str, dep: &str) -> (s: String)
    ensures
        s@ == wait_refused_text(target@, dep@),
{
    let tail = cat(dep, " would close a dependency cycle; treating it as out of date (the do-file is the ground truth for whether the cycle is real)");
    cat3(target, ": waiting for recorded dependency ", tail.as_str())
}

/// A dependency failed to build.
pub open spec fn dep_failed_text(target: Seq<char>, dep: Seq<char>, why: Seq<char>) -> Seq<char> {
    target + ": OUT OF DATE: recorded dependency "@ + (dep + " failed to build ("@ + (why + "); rebuilding — its do-file decides whether the dependency is still real"@))
}

/// A dependency failed to build.
pub fn dep_failed(target: &str, dep: &str, why: &str) -> (s: String)
    ensures
        s@ == dep_failed_text(target@, dep@, why@),
{
    let tail = cat(why, "); rebuilding — its do-file decides whether the dependency is still real");
    let tail2 = cat3(dep, " failed to build (", tail.as_str());
    cat3(target, ": OUT OF DATE: recorded dependency ", tail2.as_str())
}

/// A demand superseded a wait.
pub open spec fn wait_evicted_text(target: Seq<char>, dep: Seq<char>) -> Seq<char> {
    target + ": OUT OF DATE: a running do-file's dependency demand superseded our speculative wait on "@ + (dep + " (edge evicted); rebuilding"@)
}

/// A demand superseded a wait.
pub fn wait_evicted(target: &str, dep: &str) -> (s: String)
    ensures
        s@ == wait_evicted_text(target@, dep@),
{
    let tail = cat(dep, " (edge evicted); rebuilding");
    cat3(target, ": OUT OF DATE: a running do-file's dependency demand superseded our speculative wait on ", tail.as_str())
}

/// A demand superseded a wait that was over.
pub open spec fn edge_gone_text(target: Seq<char>) -> Seq<char> {
    target + ": OUT OF DATE: a checker wait edge was evicted by a real dependency demand; rebuilding instead of verifying"@
}

/// A demand superseded a wait that was over.
pub fn edge_gone(target: &str) -> (s: String)
    ensures
        s@ == edge_gone_text(target@),
{
    cat(target, ": OUT OF DATE: a checker wait edge was evicted by a real dependency demand; rebuilding instead of verifying")
}

/// A target is up to date.
pub open spec fn up_to_date_text(target: Seq<char>, count: Seq<char>) -> Seq<char> {
    target + ": UP TO DATE: all "@ + (count + " recorded dependencies are unchanged"@)
}

/// A target is up to date.
pub fn up_to_date(target: &str, count: &str) -> (s: String)
    ensures
        s@ == up_to_date_text(target@, count@),
{
    let tail = cat(count, " recorded dependencies are unchanged");
    cat3(target, ": UP TO DATE: all ", tail.as_str())
}

/// A speculation was refused.
pub open spec fn not_speculating_text(dep: Seq<char>) -> Seq<char> {
    dep + ": NOT speculating: waiting for it here could close a dependency cycle (creation edge refused)"@
}

/// A speculation was refused.
pub fn not_speculating(dep: &str) -> (s: String)
    ensures
        s@ == not_speculating_text(dep@),
{
    cat(dep, ": NOT speculating: waiting for it here could close a dependency cycle (creation edge refused)")
}

/// A target was settled earlier in the run.
pub open spec fn already_settled_text(target: Seq<char>) -> Seq<char> {
    target + ": skipping: already built or verified earlier in this run"@
}

/// A target was settled earlier in the run.
pub fn already_settled(target: &str) -> (s: String)
    ensures
        s@ == already_settled_text(target@),
{
    cat(target, ": skipping: already built or verified earlier in this run")
}

/// A target is marked as verified.
pub open spec fn marking_verified_text(target: Seq<char>) -> Seq<char> {
    target + ": up to date; marking it verified for this run"@
}

/// A target is marked as verified.
pub fn marking_verified(target: &str) -> (s: String)
    ensures
        s@ == marking_verified_text(target@),
{
    cat(target, ": up to date; marking it verified for this run")
}

/// Another process built a target.
pub open spec fn built_meanwhile_text(target: Seq<char>) -> Seq<char> {
    target + ": skipping: another process built it while we waited for its lock"@
}

/// Another process built a target.
pub fn built_meanwhile(target: &str) -> (s: String)
    ensures
        s@ == built_meanwhile_text(target@),
{
    cat(target, ": skipping: another process built it while we waited for its lock")
}

/// A file that redo never built is a target.
pub open spec fn exact_target_text(path: Seq<char>) -> Seq<char> {
    path + ": buildable target: it exists on disk and redo never built it, but the exact do-file "@ + (path + ".do states it is a target"@)
}

/// A file that redo never built is a target.
pub fn exact_target(path: &str) -> (s: String)
    ensures
        s@ == exact_target_text(path@),
{
    let tail = cat(path, ".do states it is a target");
    cat3(path, ": buildable target: it exists on disk and redo never built it, but the exact do-file ", tail.as_str())
}

/// A file that redo never built is a source.
pub open spec fn static_source_text(path: Seq<char>) -> Seq<char> {
    path + ": static source: it exists on disk, redo has no record of building it, and only a default.*.do could match (djb's static-file rule)"@
}

/// A file that redo never built is a source.
pub fn static_source(path: &str) -> (s: String)
    ensures
        s@ == static_source_text(path@),
{
    cat(path, ": static source: it exists on disk, redo has no record of building it, and only a default.*.do could match (djb's static-file rule)")
}

/// A path is a target.
pub open spec fn buildable_text(path: Seq<char>, dofile: Seq<char>) -> Seq<char> {
    path + ": buildable target (do-file: "@ + (dofile + ")"@)
}

/// A path is a target.
pub fn buildable(path: &str, dofile: &str) -> (s: String)
    ensures
        s@ == buildable_text(path@, dofile@),
{
    let tail = cat(dofile, ")");
    cat3(path, ": buildable target (do-file: ", tail.as_str())
}

/// A path is no target.
pub open spec fn not_buildable_text(path: Seq<char>) -> Seq<char> {
    path + ": not buildable: no do-file matches"@
}

/// A path is no target.
pub fn not_buildable(path: &str) -> (s: String)
    ensures
        s@ == not_buildable_text(path@),
{
    cat(path, ": not buildable: no do-file matches")
}

/// A target turns out to be a source.
pub open spec fn kept_static_text(target: Seq<char>) -> Seq<char> {
    target + ": NOT building: recording it as a static source (it exists, redo never built it, and no exact "@ + (target + ".do exists)"@)
}

/// A target turns out to be a source.
pub fn kept_static(target: &str) -> (s: String)
    ensures
        s@ == kept_static_text(target@),
{
    let tail = cat(target, ".do exists)");
    cat3(target, ": NOT building: recording it as a static source (it exists, redo never built it, and no exact ", tail.as_str())
}

/// A target became a source.
pub open spec fn turned_static_text(target: Seq<char>) -> Seq<char> {
    target + ": NOT building: no do-file matches any more, but the file exists — re-recording it as a static source"@
}

/// A target became a source.
pub fn turned_static(target: &str) -> (s: String)
    ensures
        s@ == turned_static_text(target@),
{
    cat(target, ": NOT building: no do-file matches any more, but the file exists — re-recording it as a static source")
}

/// A target is built.
pub open spec fn building_with_text(target: Seq<char>, dofile: Seq<char>) -> Seq<char> {
    target + ": building with do-file "@ + dofile
}

/// A target is built.
pub fn building_with(target: &str, dofile: &str) -> (s: String)
    ensures
        s@ == building_with_text(target@, dofile@),
{
    cat3(target, ": building with do-file ", dofile)
}

/// A target that was named at the command line is built.
pub open spec fn building_forced_text(target: Seq<char>, dofile: Seq<char>) -> Seq<char> {
    target + ": building with do-file "@ + (dofile + " (forced: named at the command line)"@)
}

/// A target that was named at the command line is built.
pub fn building_forced(target: &str, dofile: &str) -> (s: String)
    ensures
        s@ == building_forced_text(target@, dofile@),
{
    let tail = cat(dofile, " (forced: named at the command line)");
    cat3(target, ": building with do-file ", tail.as_str())
}

/// A dependency is a source.
pub open spec fn source_refreshed_text(dep: Seq<char>) -> Seq<char> {
    dep + ": source file (nothing builds it); refreshing its stamp"@
}

/// A dependency is a source.
pub fn source_refreshed(dep: &str) -> (s: String)
    ensures
        s@ == source_refreshed_text(dep@),
{
    cat(dep, ": source file (nothing builds it); refreshing its stamp")
}

/// An edge was recorded.
pub open spec fn edge_recorded_text(parent: Seq<char>, dep: Seq<char>, hash: Seq<char>) -> Seq<char> {
    parent + ": recorded dependency on "@ + (dep + " (hash "@ + (hash + ")"@))
}

/// An edge was recorded.
pub fn edge_recorded(parent: &str, dep: &str, hash: &str) -> (s: String)
    ensures
        s@ == edge_recorded_text(parent@, dep@, hash@),
{
    let tail = cat(hash, ")");
    let tail2 = cat3(dep, " (hash ", tail.as_str());
    cat3(parent, ": recorded dependency on ", tail2.as_str())
}

/// A recorded hash stands for a file.
pub open spec fn stamp_trusted_text(path: Seq<char>, hash: Seq<char>) -> Seq<char> {
    path + ": mtime and size match the cache and the mtime has sub-second precision; trusting cached hash "@ + (hash + " without re-reading"@)
}

/// A recorded hash stands for a file.
pub fn stamp_trusted(path: &str, hash: &str) -> (s: String)
    ensures
        s@ == stamp_trusted_text(path@, hash@),
{
    let tail = cat(hash, " without re-reading");
    cat3(path, ": mtime and size match the cache and the mtime has sub-second precision; trusting cached hash ", tail.as_str())
}

/// A file was read.
pub open spec fn hashed_text(path: Seq<char>, why: Seq<char>, hash: Seq<char>) -> Seq<char> {
    path + ": hashed the file contents ("@ + (why + "): "@ + hash)
}

/// A file was read.
pub fn hashed(path: &str, why: &str, hash: &str) -> (s: String)
    ensures
        s@ == hashed_text(path@, why@, hash@),
{
    let tail = cat3(why, "): ", hash);
    cat3(path, ": hashed the file contents (", tail.as_str())
}

/// A path that was to be absent exists, as the list of outdated targets says it.
pub open spec fn exists_now_text(target: Seq<char>, dep: Seq<char>) -> Seq<char> {
    target + ": OUT OF DATE: "@ + (dep + " now exists (ifcreate dependency)"@)
}

/// A path that was to be absent exists, as the list of outdated targets says it.
pub fn exists_now(target: &str, dep: &str) -> (s: String)
    ensures
        s@ == exists_now_text(target@, dep@),
{
    let tail = cat(dep, " now exists (ifcreate dependency)");
    cat3(target, ": OUT OF DATE: ", tail.as_str())
}

/// A target is up to date, as the list of outdated targets says it.
pub open spec fn all_same_text(target: Seq<char>) -> Seq<char> {
    target + ": UP TO DATE: all recorded dependencies are unchanged"@
}

/// A target is up to date, as the list of outdated targets says it.
pub fn all_same(target: &str) -> (s: String)
    ensures
        s@ == all_same_text(target@),
{
    cat(target, ": UP TO DATE: all recorded dependencies are unchanged")
}

/// A pool of tokens was created.
pub open spec fn pool_created_text(jobs: Seq<char>, pool: Seq<char>) -> Seq<char> {
    "jobserver: created for -j"@ + jobs + (": "@ + pool)
}

/// A pool of tokens was created.
pub fn pool_created(jobs: &str, pool: &str) -> (s: String)
    ensures
        s@ == pool_created_text(jobs@, pool@),
{
    let tail = cat(": ", pool);
    cat3("jobserver: created for -j", jobs, tail.as_str())
}

/// A pool of tokens was inherited.
pub open spec fn pool_inherited_text(spec_text: Seq<char>, pool: Seq<char>) -> Seq<char> {
    "jobserver: inherited (REDO_JOBSERVER="@ + spec_text + ("): "@ + pool)
}

/// A pool of tokens was inherited.
pub fn pool_inherited(spec_text: &str, pool: &str) -> (s: String)
    ensures
        s@ == pool_inherited_text(spec_text@, pool@),
{
    let tail = cat("): ", pool);
    cat3("jobserver: inherited (REDO_JOBSERVER=", spec_text, tail.as_str())
}

/// A group of targets is brought up to date.
pub open spec fn group_started_text(count: Seq<char>, list: Seq<char>) -> Seq<char> {
    "parallel group of "@ + count + (": "@ + list)
}

/// A group of targets is brought up to date.
pub fn group_started(count: &str, list: &str) -> (s: String)
    ensures
        s@ == group_started_text(count@, list@),
{
    let tail = cat(": ", list);
    cat3("parallel group of ", count, tail.as_str())
}

/// A demand made a speculation yield.
pub open spec fn demand_evicted_text(parent: Seq<char>, dep: Seq<char>, what: Seq<char>) -> Seq<char> {
    parent + ": demand on "@ + (dep + " evicted a speculative "@ + (what + " to avoid a wait cycle; retrying"@))
}

/// A demand made a speculation yield.
pub fn demand_evicted(parent: &str, dep: &str, what: &str) -> (s: String)
    ensures
        s@ == demand_evicted_text(parent@, dep@, what@),
{
    let tail = cat(what, " to avoid a wait cycle; retrying");
    let tail2 = cat3(dep, " evicted a speculative ", tail.as_str());
    cat3(parent, ": demand on ", tail2.as_str())
}

/// A quarantined target is built again.
pub open spec fn run_again_text(target: Seq<char>, why: Seq<char>) -> Seq<char> {
    target + ": speculative attempt was quarantined ("@ + (why + "); re-running it as a demanded build"@)
}

/// A quarantined target is built again.
pub fn run_again(target: &str, why: &str) -> (s: String)
    ensures
        s@ == run_again_text(target@, why@),
{
    let tail = cat(why, "); re-running it as a demanded build");
    cat3(target, ": speculative attempt was quarantined (", tail.as_str())
}

/// The first target of a group failed.
pub open spec fn group_failed_text(target: Seq<char>) -> Seq<char> {
    target + ": failed; waiting for the rest of the group"@
}

/// The first target of a group failed.
pub fn group_failed(target: &str) -> (s: String)
    ensures
        s@ == group_failed_text(target@),
{
    cat(target, ": failed; waiting for the rest of the group")
}

/// A speculation is told to stop.
pub open spec fn abandoned_text(target: Seq<char>) -> Seq<char> {
    target + ": abandoning speculative task at drain (undemanded; will be re-run when genuinely needed)"@
}

/// A speculation is told to stop.
pub fn abandoned(target: &str) -> (s: String)
    ensures
        s@ == abandoned_text(target@),
{
    cat(target, ": abandoning speculative task at drain (undemanded; will be re-run when genuinely needed)")
}

/// A token was granted.
pub open spec fn slot_text(target: Seq<char>, token: Seq<char>, wait: Seq<char>) -> Seq<char> {
    target + ": build slot: "@ + (token + " token"@ + wait)
}

/// A token was granted.
pub fn slot(target: &str, token: &str, wait: &str) -> (s: String)
    ensures
        s@ == slot_text(target@, token@, wait@),
{
    let tail = cat3(token, " token", wait);
    cat3(target, ": build slot: ", tail.as_str())
}

/// No token is free.
pub open spec fn no_token_text(target: Seq<char>) -> Seq<char> {
    target + ": no token free; polling until one is released"@
}

/// No token is free.
pub fn no_token(target: &str) -> (s: String)
    ensures
        s@ == no_token_text(target@),
{
    cat(target, ": no token free; polling until one is released")
}

/// Whether an optional checksum is plain.
pub open spec fn plain(h: Option<Seq<char>>) -> bool {
    h matches Some(t) ==> is_plain(t)
}

/// What is said of whether a path is a target.
pub open spec fn target_text(
    path: Seq<char>,
    exists_as_file: bool,
    generated: bool,
    exact_dofile: bool,
    dofile: Option<Seq<char>>,
) -> Seq<char> {
    if exists_as_file && !generated {
        if exact_dofile {
            exact_target_text(path)
        } else {
            static_source_text(path)
        }
    } else {
        match dofile {
            Some(d) => buildable_text(path, d),
            None => not_buildable_text(path),
        }
    }
}

/// What is said of whether a path is a target.
pub fn target_note(
    path: &str,
    exists_as_file: bool,
    generated: bool,
    exact_dofile: bool,
    dofile: &Option<String>,
) -> (s: String)
    ensures
        s@ == target_text(path@, exists_as_file, generated, exact_dofile, opt(*dofile)),
{
    if exists_as_file && !generated {
        if exact_dofile {
            exact_target(path)
        } else {
            static_source(path)
        }
    } else {
        match dofile {
            Some(d) => buildable(path, d.as_str()),
            None => not_buildable(path),
        }
    }
}

/// What is said of a target's recorded row before anything else is looked at.
pub open spec fn row_text(
    target: Seq<char>,
    row: Option<Option<Seq<char>>>,
    exists: bool,
) -> Option<Seq<char>> {
    match row {
        None => Some(never_built_text(target)),
        Some(csum) => if csum is Some && !exists {
            Some(output_missing_text(target))
        } else {
            None
        },
    }
}

/// What is said of a target's recorded row.
pub fn row_note(target: &str, row: &Option<Option<String>>, exists: bool) -> (r: Option<String>)
    ensures
        opt(r) == row_text(target@, crate::check::row_view(*row), exists),
{
    match row {
        None => Some(never_built(target)),
        Some(csum) => if csum.is_some() && !exists {
            Some(output_missing(target))
        } else {
            None
        },
    }
}

/// What is said of an edge that makes a target outdated by itself.
pub open spec fn kind_text(target: Seq<char>, kind: DepKind) -> Option<Seq<char>> {
    match kind {
        DepKind::Always => Some(always_built_text(target)),
        DepKind::Uncommitted => Some(not_committed_text(target)),
        _ => None,
    }
}

/// What is said of an edge that makes a target outdated by itself.
pub fn kind_note(target: &str, kind: DepKind) -> (r: Option<String>)
    ensures
        opt(r) == kind_text(target@, kind),
{
    match kind {
        DepKind::Always => Some(always_built(target)),
        DepKind::Uncommitted => Some(not_committed(target)),
        _ => None,
    }
}

/// What is said of the speculations that were refused.
pub open spec fn refused_texts(deps: Seq<Seq<char>>, started: Seq<bool>) -> Seq<Seq<char>>
    decreases deps.len(),
{
    if deps.len() == 0 || started.len() != deps.len() {
        Seq::empty()
    } else {
        let front = refused_texts(deps.drop_last(), started.drop_last());
        if started.last() {
            front
        } else {
            front.push(not_speculating_text(deps.last()))
        }
    }
}

/// What is said of a comparison with a recorded checksum.
pub open spec fn compared_text(
    target: Seq<char>,
    dep: Seq<char>,
    was: Option<Seq<char>>,
    now: Option<Seq<char>>,
) -> Seq<char> {
    if now is None {
        dep_gone_text(target, dep)
    } else if now != was {
        dep_changed_text(target, dep, short_hash(was), short_hash(now))
    } else {
        dep_same_text(target, dep, short_hash(now))
    }
}

/// The first wait of a batch that was refused; the number of waits if none was.
pub open spec fn first_cycle(v: Seq<SoftOutcome>) -> int
    decreases v.len(),
{
    if v.len() == 0 || v[0] is Cycle {
        0
    } else {
        1 + first_cycle(v.skip(1))
    }
}

/// What is said of a check of a target and its answer.
pub open spec fn item_texts(target: Seq<char>, item: ItemView, a: Answer) -> Seq<Seq<char>> {
    match (item, a) {
        (ItemView::Activate { deps, .. }, Answer::Activated(v)) => refused_texts(deps, v@),
        (ItemView::DoFile { dep, csum }, Answer::Csum(now)) => seq![
            if opt(now) != csum {
                dofile_changed_text(target, dep, short_hash(csum), short_hash(opt(now)))
            } else {
                dofile_same_text(target, dep, short_hash(opt(now)))
            },
        ],
        (ItemView::IfCreate { dep }, Answer::Exists(there)) => seq![
            if there {
                now_exists_text(target, dep)
            } else {
                still_absent_text(target, dep)
            },
        ],
        (ItemView::Source { dep, csum }, Answer::Csum(now)) => seq![
            compared_text(target, dep, csum, opt(now)),
        ],
        (ItemView::Dep { dep, csum }, Answer::Csum(now)) => seq![
            compared_text(target, dep, csum, opt(now)),
        ],
        (ItemView::Edges { deps }, Answer::Edges(v)) => if first_cycle(v@) < v.len()
            && first_cycle(v@) < deps.len() {
            seq![wait_refused_text(target, deps[first_cycle(v@)])]
        } else {
            Seq::empty()
        },
        (ItemView::Wait { dep }, Answer::Waited(w)) => match w {
            Waited::Done => Seq::empty(),
            Waited::SoftFailed(why) => seq![dep_failed_text(target, dep, why@)],
            Waited::Evicted => seq![wait_evicted_text(target, dep)],
        },
        (ItemView::Guard { .. }, Answer::Alive(alive)) => if alive {
            Seq::empty()
        } else {
            seq![edge_gone_text(target)]
        },
        _ => Seq::empty(),
    }
}

/// Whether the checksums of a check and its answer are plain.
pub open spec fn plain_check(item: ItemView, a: Answer) -> bool {
    &&& match item {
        ItemView::DoFile { csum, .. } => plain(csum),
        ItemView::Source { csum, .. } => plain(csum),
        ItemView::Dep { csum, .. } => plain(csum),
        _ => true,
    }
    &&& a matches Answer::Csum(now) ==> plain(opt(now))
}

fn refused_notes(deps: &[String], started: &[bool]) -> (out: Vec<String>)
    ensures
        texts(out@) == refused_texts(texts(deps@), started@),
{
    let mut out: Vec<String> = Vec::new();
    assert(texts(out@) =~= Seq::<Seq<char>>::empty());
    assert(texts(deps@).len() == deps.len());
    if started.len() != deps.len() {
        return out;
    }
    for i in 0..deps.len()
        invariant
            started.len() == deps.len(),
            texts(out@) == refused_texts(texts(deps@).take(i as int), started@.take(i as int)),
    {
        let ghost d = texts(deps@).take(i + 1);
        let ghost s = started@.take(i + 1);
        let ghost before = texts(out@);
        assert(d.drop_last() =~= texts(deps@).take(i as int));
        assert(s.drop_last() =~= started@.take(i as int));
        assert(d.last() == deps@[i as int]@);
        if !started[i] {
            let note = not_speculating(deps[i].as_str());
            let ghost nv = note@;
            out.push(note);
            assert(texts(out@) =~= before.push(nv));
        }
    }
    assert(texts(deps@).take(deps.len() as int) =~= texts(deps@));
    assert(started@.take(started.len() as int) =~= started@);
    out
}

fn compared_note(
    target: &str,
    dep: &str,
    was: &Option<String>,
    now: &Option<String>,
) -> (s: String)
    requires
        plain(opt(*was)),
        plain(opt(*now)),
    ensures
        s@ == compared_text(target@, dep@, opt(*was), opt(*now)),
{
    if now.is_none() {
        dep_gone(target, dep)
    } else if !same_opt(now, was) {
        dep_changed(target, dep, hash8(was).as_str(), hash8(now).as_str())
    } else {
        dep_same(target, dep, hash8(now).as_str())
    }
}

fn one(s: String) -> (out: Vec<String>)
    ensures
        texts(out@) == seq![s@],
{
    let mut out: Vec<String> = Vec::new();
    let ghost sv = s@;
    out.push(s);
    assert(texts(out@) =~= seq![sv]);
    out
}

fn nothing() -> (out: Vec<String>)
    ensures
        texts(out@) == Seq::<Seq<char>>::empty(),
{
    let out: Vec<String> = Vec::new();
    assert(texts(out@) =~= Seq::<Seq<char>>::empty());
    out
}

/// What is said of a check of a target and its answer.
pub fn item_notes(target: &str, item: &Item, a: &Answer) -> (out: Vec<String>)
    requires
        plain_check(item@, *a),
    ensures
        texts(out@) == item_texts(target@, item@, *a),
{
    match (item, a) {
        (Item::Activate { deps, .. }, Answer::Activated(v)) => refused_notes(
            deps.as_slice(),
            v.as_slice(),
        ),
        (Item::DoFile { dep, csum }, Answer::Csum(now)) => if !same_opt(now, csum) {
            one(
                dofile_changed(
                    target,
                    dep.as_str(),
                    hash8(csum).as_str(),
                    hash8(now).as_str(),
                ),
            )
        } else {
            one(dofile_same(target, dep.as_str(), hash8(now).as_str()))
        },
        (Item::IfCreate { dep }, Answer::Exists(there)) => if *there {
            one(now_exists(target, dep.as_str()))
        } else {
            one(still_absent(target, dep.as_str()))
        },
        (Item::Source { dep, csum }, Answer::Csum(now)) => one(
            compared_note(target, dep.as_str(), csum, now),
        ),
        (Item::Dep { dep, csum }, Answer::Csum(now)) => one(
            compared_note(target, dep.as_str(), csum, now),
        ),
        (Item::Edges { deps }, Answer::Edges(v)) => {
            let mut i: usize = 0;
            assert(v@.skip(0) =~= v@);
            while i < v.len() && v[i] == SoftOutcome::Inserted
                invariant
                    i <= v.len(),
                    first_cycle(v@) == i + first_cycle(v@.skip(i as int)),
                decreases v.len() - i,
            {
                assert(v@.skip(i as int)[0] == v@[i as int]);
                assert(v@.skip(i as int).skip(1) =~= v@.skip(i + 1));
                i = i + 1;
            }
            proof {
                if i < v.len() {
                    assert(v@.skip(i as int)[0] == v@[i as int]);
                }
                assert(first_cycle(v@) == i);
                assert(texts(deps@).len() == deps.len());
            }
            if i < v.len() && i < deps.len() {
                assert(texts(deps@)[i as int] == deps@[i as int]@);
                one(wait_refused(target, deps[i].as_str()))
            } else {
                nothing()
            }
        },
        (Item::Wait { dep }, Answer::Waited(w)) => match w {
            Waited::Done => nothing(),
            Waited::SoftFailed(why) => one(dep_failed(target, dep.as_str(), why.as_str())),
            Waited::Evicted => one(wait_evicted(target, dep.as_str())),
        },
        (Item::Guard { .. }, Answer::Alive(alive)) => if *alive {
            nothing()
        } else {
            one(edge_gone(target))
        },
        _ => nothing(),
    }
}

/// Whether a check compares one recorded dependency.
pub open spec fn compares(i: ItemView) -> bool {
    i is DoFile || i is IfCreate || i is Source || i is Dep
}

/// How many recorded dependencies the checks of a target compare.
pub open spec fn compared(plan: Seq<ItemView>) -> nat {
    plan.filter(|i: ItemView| compares(i)).len()
}

/// What is said of a target all of whose checks passed.
pub fn verdict_note(target: &str, plan: &[Item]) -> (s: String)
    ensures
        s@ == up_to_date_text(target@, digits(compared(crate::check::items(plan@)))),
{
    let ghost all = crate::check::items(plan@);
    let ghost p = |i: ItemView| compares(i);
    let mut n: usize = 0;
    assert(all.take(0).filter(p).len() == 0) by {
        reveal(Seq::filter);
    }
    for i in 0..plan.len()
        invariant
            all == crate::check::items(plan@),
            p == (|i: ItemView| compares(i)),
            n == all.take(i as int).filter(p).len(),
            n <= i,
    {
        proof {
            crate::seqs::lemma_filter_step(all, i as int, p);
            assert(all[i as int] == plan@[i as int]@);
        }
        match &plan[i] {
            Item::DoFile { .. } | Item::IfCreate { .. } | Item::Source { .. } | Item::Dep {
                ..
            } => {
                n = n + 1;
            },
            _ => {},
        }
    }
    assert(all.take(all.len() as int) =~= all);
    up_to_date(target, nat_text(n as u128).as_str())
}

/// What is said of what building a target comes to.
pub open spec fn plan_text(target: Seq<char>, f: Facts, dofile: Seq<char>) -> Option<Seq<char>> {
    match plan_for(f) {
        Plan::Static => if f.exists_as_file && !f.force && !f.generated && !f.exact_dofile {
            Some(kept_static_text(target))
        } else {
            Some(turned_static_text(target))
        },
        Plan::NoRule => None,
        Plan::Run => if f.force {
            Some(building_forced_text(target, dofile))
        } else {
            Some(building_with_text(target, dofile))
        },
    }
}

/// What is said of what building a target comes to.
pub fn plan_note(target: &str, f: &Facts, dofile: &str) -> (r: Option<String>)
    ensures
        opt(r) == plan_text(target@, *f, dofile@),
{
    match plan_build(f) {
        Plan::Static => if f.exists_as_file && !f.force && !f.generated && !f.exact_dofile {
            Some(kept_static(target))
        } else {
            Some(turned_static(target))
        },
        Plan::NoRule => None,
        Plan::Run => if f.force {
            Some(building_forced(target, dofile))
        } else {
            Some(building_with(target, dofile))
        },
    }
}

/// Why a recorded stamp does not stand for a file.
pub open spec fn why_read(meta: Meta, cached: Option<crate::stamp::StampView>) -> Seq<char> {
    match cached {
        None => "no cached stamp"@,
        Some(c) => if c.mtime != meta.mtime {
            "mtime changed"@
        } else if c.size != meta.recorded_size() {
            "size changed"@
        } else {
            "whole-second mtime cannot be trusted"@
        },
    }
}

/// What is said of how a file's checksum was found.
pub open spec fn csum_text(
    path: Seq<char>,
    meta: Option<Meta>,
    cached: Option<crate::stamp::StampView>,
    csum: Option<Seq<char>>,
) -> Option<Seq<char>> {
    match meta {
        None => None,
        Some(m) => if cached is Some && trusted(m, cached->0) {
            Some(stamp_trusted_text(path, short_hash(Some(cached->0.csum))))
        } else {
            Some(hashed_text(path, why_read(m, cached), short_hash(csum)))
        },
    }
}

/// What is said of how a file's checksum was found.
pub fn csum_note(
    path: &str,
    meta: &Option<Meta>,
    cached: &Option<Stamp>,
    csum: &Option<String>,
) -> (r: Option<String>)
    requires
        plain(opt(*csum)),
        cached matches Some(c) ==> is_plain(c@.csum),
    ensures
        opt(r) == csum_text(path@, *meta, crate::db::stamp_view(*cached), opt(*csum)),
{
    let m = match meta {
        None => return None,
        Some(m) => m,
    };
    match current_csum(meta, cached) {
        CsumStep::Missing => None,
        CsumStep::Trusted(c) => {
            let h = Some(c);
            Some(stamp_trusted(path, hash8(&h).as_str()))
        },
        CsumStep::Read => {
            let why = match cached {
                None => "no cached stamp",
                Some(c) => if c.mtime != m.mtime {
                    "mtime changed"
                } else if c.size != m.size() {
                    "size changed"
                } else {
                    "whole-second mtime cannot be trusted"
                },
            };
            Some(hashed(path, why, hash8(csum).as_str()))
        },
    }
}

/// What the list of outdated targets says of an edge.
pub open spec fn ood_edge_text(target: Seq<char>, d: DepView, now: Now) -> Seq<char> {
    match d.kind {
        DepKind::Always => always_built_text(target),
        DepKind::Uncommitted => not_committed_text(target),
        DepKind::IfCreate => if now.exists {
            exists_now_text(target, d.dep->0)
        } else {
            still_absent_text(target, d.dep->0)
        },
        _ => if opt(now.csum) != d.csum {
            dep_changed_text(target, d.dep->0, short_hash(d.csum), short_hash(opt(now.csum)))
        } else {
            dep_same_text(target, d.dep->0, short_hash(opt(now.csum)))
        },
    }
}

/// What the list of outdated targets says of the edges from the `i`-th on, up to the
/// first that makes the target outdated.
pub open spec fn ood_edge_texts(
    target: Seq<char>,
    deps: Seq<DepView>,
    now: Seq<Now>,
    i: int,
) -> Seq<Seq<char>>
    decreases deps.len() - i,
{
    if i < 0 || i >= deps.len() {
        seq![all_same_text(target)]
    } else {
        seq![ood_edge_text(target, deps[i], now[i])] + if edge_outdated(
            deps[i],
            now[i].exists,
            opt(now[i].csum),
        ) {
            Seq::empty()
        } else {
            ood_edge_texts(target, deps, now, i + 1)
        }
    }
}

/// What the list of outdated targets says of a target.
pub open spec fn ood_texts(
    target: Seq<char>,
    row: Option<FileView>,
    exists: bool,
    deps: Seq<DepView>,
    now: Seq<Now>,
) -> Seq<Seq<char>> {
    match row {
        None => seq![never_built_text(target)],
        Some(f) => if f.csum is Some && !exists {
            seq![output_missing_text(target)]
        } else {
            ood_edge_texts(target, deps, now, 0)
        },
    }
}

fn ood_edge_note(target: &str, d: &DepRow, now: &Now) -> (s: String)
    requires
        has_dep(d@),
        plain(d@.csum),
        plain(opt(now.csum)),
    ensures
        s@ == ood_edge_text(target@, d@, *now),
{
    let dep = match &d.dep {
        Some(p) => p.as_str(),
        None => "",
    };
    match d.kind {
        DepKind::Always => always_built(target),
        DepKind::Uncommitted => not_committed(target),
        DepKind::IfCreate => if now.exists {
            exists_now(target, dep)
        } else {
            still_absent(target, dep)
        },
        _ => if !same_opt(&now.csum, &d.csum) {
            dep_changed(target, dep, hash8(&d.csum).as_str(), hash8(&now.csum).as_str())
        } else {
            dep_same(target, dep, hash8(&now.csum).as_str())
        },
    }
}

/// What the list of outdated targets says of a target.
pub fn ood_notes(store: &Store, target: &str, exists: bool, now: &[Now]) -> (out: Vec<String>)
    requires
        now.len() == deps_of(store@.deps, target@).len(),
        forall|i: int|
            0 <= i < now.len() ==> has_dep(#[trigger] deps_of(store@.deps, target@)[i]) && plain(
                deps_of(store@.deps, target@)[i].csum,
            ) && plain(opt(now@[i].csum)),
    ensures
        texts(out@) == ood_texts(
            target@,
            file_row(store@.files, target@),
            exists,
            deps_of(store@.deps, target@),
            now@,
        ),
{
    match store.files_row(target) {
        None => return one(never_built(target)),
        Some(csum) => {
            if csum.is_some() && !exists {
                return one(output_missing(target));
            }
        },
    }
    let deps = store.read_deps(target);
    let ghost dv = deps_of(store@.deps, target@);
    assert(dep_views(deps@) == dv);
    assert(deps.len() == dv.len());
    let ghost whole = ood_edge_texts(target@, dv, now@, 0);
    let mut out = nothing();
    assert(texts(out@) + whole =~= whole);
    for i in 0..deps.len()
        invariant
            now.len() == deps.len(),
            deps.len() == dv.len(),
            dv == deps_of(store@.deps, target@),
            dep_views(deps@) == dv,
            forall|k: int|
                0 <= k < now.len() ==> has_dep(#[trigger] dv[k]) && plain(dv[k].csum) && plain(
                    opt(now@[k].csum),
                ),
            whole == texts(out@) + ood_edge_texts(target@, dv, now@, i as int),
            whole == ood_edge_texts(target@, dv, now@, 0),
            whole == ood_texts(
                target@,
                file_row(store@.files, target@),
                exists,
                dv,
                now@,
            ),
    {
        let d = &deps[i];
        assert(dv[i as int] == d@);
        let ghost before = texts(out@);
        let note = ood_edge_note(target, d, &now[i]);
        let ghost nv = note@;
        out.push(note);
        assert(texts(out@) =~= before.push(nv));
        let bad = match d.kind {
            DepKind::Always => true,
            DepKind::Uncommitted => true,
            DepKind::IfCreate => now[i].exists,
            DepKind::DoFile => !same_opt(&now[i].csum, &d.csum),
            DepKind::IfChange => !same_opt(&now[i].csum, &d.csum),
        };
        if bad {
            assert(texts(out@) =~= whole);
            return out;
        }
        assert(whole =~= texts(out@) + ood_edge_texts(target@, dv, now@, i + 1));
    }
    let ghost before = texts(out@);
    let last = all_same(target);
    let ghost lv = last@;
    out.push(last);
    assert(texts(out@) =~= before.push(lv));
    assert(texts(out@) =~= whole);
    out
}

/// What is said of a token that was granted, from the pool or the own one, at once or
/// after a wait.
pub fn slot_note(target: &str, own: bool, waited: bool) -> (s: String)
    ensures
        s@ == slot_text(
            target@,
            if own {
                "own"@
            } else {
                "pool"@
            },
            if waited {
                " (after wait)"@
            } else {
                ""@
            },
        ),
{
    let token = if own {
        "own"
    } else {
        "pool"
    };
    let wait = if waited {
        " (after wait)"
    } else {
        ""
    };
    slot(target, token, wait)
}

/// What is said of a demand that made a speculation yield: a build, or a check.
pub fn demand_note(parent: &str, dep: &str, aborted_lineage: bool) -> (s: String)
    ensures
        s@ == demand_evicted_text(
            parent@,
            dep@,
            if aborted_lineage {
                "build (aborted)"@
            } else {
                "checker wait"@
            },
        ),
{
    let what = if aborted_lineage {
        "build (aborted)"
    } else {
        "checker wait"
    };
    demand_evicted(parent, dep, what)
}

/// What is said of an edge that was recorded with a stamp.
pub fn edge_note(parent: &str, dep: &str, stamp: &Option<Stamp>) -> (s: String)
    requires
        stamp matches Some(t) ==> is_plain(t@.csum),
    ensures
        s@ == edge_recorded_text(
            parent@,
            dep@,
            short_hash(
                match *stamp {
                    Some(t) => Some(t@.csum),
                    None => None,
                },
            ),
        ),
{
    let csum = match stamp {
        Some(t) => Some(t.csum.clone()),
        None => None,
    };
    edge_recorded(parent, dep, hash8(&csum).as_str())
}

/// What is said of a pool that was created for a number of jobs.
pub fn created_note(j: usize, pool: &Jobserver) -> (s: String)
    ensures
        s@ == pool_created_text(digits(j as nat), pool_text(pool@)),
{
    pool_created(nat_text(j as u128).as_str(), pool.describe().as_str())
}

/// What is said of the pool that a process found announced.
pub fn inherited_note(value: Option<&str>, pool: &Jobserver) -> (s: String)
    ensures
        s@ == match value {
            Some(v) => pool_inherited_text(v@, pool_text(pool@)),
            None => NO_POOL@,
        },
{
    match value {
        Some(v) => pool_inherited(v, pool.describe().as_str()),
        None => NO_POOL.to_owned(),
    }
}

/// What is said of a group of targets that is brought up to date.
pub fn group_note(targets: &[String]) -> (s: String)
    ensures
        s@ == group_started_text(digits(targets.len() as nat), join(texts(targets@), ", "@)),
{
    let list = join_with(targets, ", ");
    group_started(nat_text(targets.len() as u128).as_str(), list.as_str())
}

/// What is said when the target that a group waits for settled: that it is built again,
/// or that it is the first to fail.
pub open spec fn settled_text(
    g: GroupView,
    target: Seq<char>,
    o: Outcome,
    dead: bool,
) -> Option<Seq<char>> {
    match outcome_failure(o) {
        Some(m) => if !final_outcome(g, o, dead) {
            Some(run_again_text(target, m))
        } else if g.first_err is None {
            Some(group_failed_text(target))
        } else {
            None
        },
        None => None,
    }
}

/// What is said when the target that a group waits for settled.
pub fn settled_note(g: &Group, o: &Outcome, dead: bool) -> (r: Option<String>)
    requires
        g.wf(),
        g@.at < g@.ids.len(),
    ensures
        opt(r) == settled_text(g@, g.targets@[g@.at]@, *o, dead),
{
    let target = g.targets[g.at].as_str();
    if let Outcome::SpecFailed(m) = o {
        if !dead && g.reclaims < RECLAIMS_MAX {
            return Some(run_again(target, m.as_str()));
        }
    }
    let failed = match o {
        Outcome::Done => false,
        _ => true,
    };
    if failed && g.first_err.is_none() {
        Some(group_failed(target))
    } else {
        None
    }
}

/// What is said of the first tasks of a process that drains: each that nobody demanded is
/// told to stop, once.
pub open spec fn drain_texts(tasks: Seq<TaskView>, n: int) -> Seq<Seq<char>>
    decreases n,
{
    if n <= 0 {
        Seq::empty()
    } else {
        let front = drain_texts(tasks, n - 1);
        if crate::parallel::abandoned(tasks, n - 1) && !tasks[n - 1].abandon {
            front.push(abandoned_text(tasks[n - 1].target))
        } else {
            front
        }
    }
}

/// What is said of the tasks that a process tells to stop when it drains.
pub fn drain_notes(reg: &Registry) -> (out: Vec<String>)
    ensures
        texts(out@) == drain_texts(reg.view_tasks(), reg.tasks.len() as int),
{
    let ghost tasks = reg.view_tasks();
    let mut out = nothing();
    for i in 0..reg.tasks.len()
        invariant
            tasks == reg.view_tasks(),
            texts(out@) == drain_texts(tasks, i as int),
    {
        let t = &reg.tasks[i];
        assert(tasks[i as int] == t@);
        let running = match &t.state {
            State::Running => true,
            _ => false,
        };
        let claims = match reg.find(t.target.as_str()) {
            Some(j) => j == i,
            None => false,
        };
        let ghost before = texts(out@);
        if running && claims && !t.demanded && !t.abandon {
            let note = abandoned(t.target.as_str());
            let ghost nv = note@;
            out.push(note);
            assert(texts(out@) =~= before.push(nv));
        }
    }
    out
}

/// Of a target that is not outdated, the list of outdated targets says something of each
/// edge, in order, and then that all is unchanged.
pub proof fn law_unchanged_target_is_told_edge_by_edge(
    target: Seq<char>,
    row: Option<FileView>,
    exists: bool,
    deps: Seq<DepView>,
    now: Seq<Now>,
)
    requires
        now.len() == deps.len(),
        !crate::outdated::outdated(row, exists, deps, now),
    ensures
        ood_texts(target, row, exists, deps, now) == Seq::new(
            deps.len(),
            |i: int| ood_edge_text(target, deps[i], now[i]),
        ).push(all_same_text(target)),
{
    lemma_ood_all(target, deps, now, 0);
    assert(Seq::new(deps.len(), |i: int| ood_edge_text(target, deps[i], now[i])).skip(0)
        =~= Seq::new(deps.len(), |i: int| ood_edge_text(target, deps[i], now[i])));
}

proof fn lemma_ood_all(target: Seq<char>, deps: Seq<DepView>, now: Seq<Now>, i: int)
    requires
        0 <= i <= deps.len(),
        now.len() == deps.len(),
        forall|k: int|
            0 <= k < deps.len() ==> !edge_outdated(
                #[trigger] deps[k],
                now[k].exists,
                opt(now[k].csum),
            ),
    ensures
        ood_edge_texts(target, deps, now, i) == Seq::new(
            deps.len(),
            |i: int| ood_edge_text(target, deps[i], now[i]),
        ).skip(i).push(all_same_text(target)),
    decreases deps.len() - i,
{
    let all = Seq::new(deps.len(), |i: int| ood_edge_text(target, deps[i], now[i]));
    if i < deps.len() {
        lemma_ood_all(target, deps, now, i + 1);
        assert(!edge_outdated(deps[i], now[i].exists, opt(now[i].csum)));
        assert(seq![all[i]] + all.skip(i + 1).push(all_same_text(target)) =~= all.skip(i).push(
            all_same_text(target),
        ));
    } else {
        assert(all.skip(i).push(all_same_text(target)) =~= seq![all_same_text(target)]);
    }
}

/// What is said of a check agrees with what the check counts for: of a comparison that passes it
/// is said that nothing changed, with the checksum that was found; of one that fails what changed,
/// with the recorded checksum first.
pub proof fn law_said_as_it_counts(target: Seq<char>, item: ItemView, a: Answer)
    ensures
        item matches ItemView::DoFile { dep, csum } ==> (a matches Answer::Csum(now) ==> item_texts(
            target,
            item,
            a,
        ) == seq![
            if crate::check::passes(item, a) {
                dofile_same_text(target, dep, short_hash(csum))
            } else {
                dofile_changed_text(target, dep, short_hash(csum), short_hash(opt(now)))
            },
        ]),
        item matches ItemView::IfCreate { dep } ==> (a matches Answer::Exists(there) ==> item_texts(
            target,
            item,
            a,
        ) == seq![
            if crate::check::passes(item, a) {
                still_absent_text(target, dep)
            } else {
                now_exists_text(target, dep)
            },
        ]),
        item is Source || item is Dep ==> (a matches Answer::Csum(now) ==> item_texts(
            target,
            item,
            a,
        ).len() == 1),
        item matches ItemView::Wait { dep } ==> (a is Waited ==> (item_texts(target, item, a).len()
            == 0 <==> crate::check::passes(item, a))),
        item is Guard ==> (a is Alive ==> (item_texts(target, item, a).len() == 0
            <==> crate::check::passes(item, a))),
{
}

/// What is said of a comparison: that the file is gone if it is; else that it changed, with the
/// recorded checksum first, or that it did not.
pub proof fn law_comparisons_are_told(
    target: Seq<char>,
    dep: Seq<char>,
    was: Option<Seq<char>>,
    now: Seq<char>,
)
    ensures
        compared_text(target, dep, was, None) == dep_gone_text(target, dep),
        was != Some(now) ==> compared_text(target, dep, was, Some(now)) == dep_changed_text(
            target,
            dep,
            short_hash(was),
            short_hash(Some(now)),
        ),
        compared_text(target, dep, Some(now), Some(now)) == dep_same_text(
            target,
            dep,
            short_hash(Some(now)),
        ),
{
}

/// The first refusal of a batch is told: before it nothing was refused.
pub proof fn law_first_refusal(v: Seq<SoftOutcome>)
    ensures
        0 <= first_cycle(v) <= v.len(),
        first_cycle(v) < v.len() ==> v[first_cycle(v)] is Cycle,
        forall|i: int| 0 <= i < first_cycle(v) ==> !(#[trigger] v[i] is Cycle),
    decreases v.len(),
{
    if v.len() > 0 && !(v[0] is Cycle) {
        let rest = v.skip(1);
        law_first_refusal(rest);
        assert forall|i: int| 0 <= i < first_cycle(v) implies !(#[trigger] v[i] is Cycle) by {
            if i > 0 {
                assert(rest[i - 1] == v[i]);
            }
        }
        if first_cycle(v) < v.len() {
            assert(rest[first_cycle(rest)] == v[first_cycle(v)]);
        }
    }
}

/// Of each speculation that was refused it is told, and of no other.
pub proof fn law_refusals_are_told(deps: Seq<Seq<char>>, started: Seq<bool>, i: int)
    requires
        started.len() == deps.len(),
        0 <= i < deps.len(),
    ensures
        !started[i] ==> refused_texts(deps, started).contains(not_speculating_text(deps[i])),
        refused_texts(deps, started).len() == started.filter(|b: bool| !b).len(),
    decreases deps.len(),
{
    reveal(Seq::filter);
    let d = deps.drop_last();
    let s = started.drop_last();
    let front = refused_texts(d, s);
    let all = refused_texts(deps, started);
    if d.len() > 0 {
        let k = if i < d.len() {
            i
        } else {
            0
        };
        law_refusals_are_told(d, s, k);
        assert(d[k] == deps[k] && s[k] == started[k]);
    } else {
        assert(front.len() == 0);
        assert(s.filter(|b: bool| !b).len() == 0);
    }
    if !started[i] {
        if i < d.len() {
            let k = choose|k: int| 0 <= k < front.len() && front[k] == not_speculating_text(deps[i]);
            assert(all[k] == front[k]);
        } else {
            assert(all[front.len() as int] == not_speculating_text(deps[i]));
        }
    }
}

/// The list of outdated targets tells of the edges up to the first that makes a target outdated,
/// and then of none.
pub proof fn law_outdated_target_is_told_up_to_the_reason(
    target: Seq<char>,
    row: FileView,
    exists: bool,
    deps: Seq<DepView>,
    now: Seq<Now>,
    k: int,
)
    requires
        now.len() == deps.len(),
        row.csum is None || exists,
        0 <= k < deps.len(),
        edge_outdated(deps[k], now[k].exists, opt(now[k].csum)),
        forall|i: int|
            0 <= i < k ==> !edge_outdated(#[trigger] deps[i], now[i].exists, opt(now[i].csum)),
    ensures
        ood_texts(target, Some(row), exists, deps, now) == Seq::new(
            (k + 1) as nat,
            |i: int| ood_edge_text(target, deps[i], now[i]),
        ),
{
    lemma_told_up_to(target, deps, now, k, 0);
    let all = Seq::new((k + 1) as nat, |i: int| ood_edge_text(target, deps[i], now[i]));
    assert(all.skip(0) =~= all);
}

proof fn lemma_told_up_to(
    target: Seq<char>,
    deps: Seq<DepView>,
    now: Seq<Now>,
    k: int,
    i: int,
)
    requires
        now.len() == deps.len(),
        0 <= i <= k < deps.len(),
        edge_outdated(deps[k], now[k].exists, opt(now[k].csum)),
        forall|i: int|
            0 <= i < k ==> !edge_outdated(#[trigger] deps[i], now[i].exists, opt(now[i].csum)),
    ensures
        ood_edge_texts(target, deps, now, i) == Seq::new(
            (k + 1) as nat,
            |i: int| ood_edge_text(target, deps[i], now[i]),
        ).skip(i),
    decreases k - i,
{
    let all = Seq::new((k + 1) as nat, |i: int| ood_edge_text(target, deps[i], now[i]));
    if i < k {
        assert(!edge_outdated(deps[i], now[i].exists, opt(now[i].csum)));
        lemma_told_up_to(target, deps, now, k, i + 1);
        assert(seq![all[i]] + all.skip(i + 1) =~= all.skip(i));
    } else {
        assert(seq![all[i]] + Seq::<Seq<char>>::empty() =~= all.skip(i));
    }
}

/// Of an edge that makes a target outdated it is told what changed, of any other that nothing did.
pub proof fn law_edges_are_told_as_they_count(target: Seq<char>, d: DepView, now: Now)
    ensures
        !edge_outdated(d, now.exists, opt(now.csum)) ==> ood_edge_text(target, d, now)
            == still_absent_text(target, d.dep->0) || ood_edge_text(target, d, now)
            == dep_same_text(target, d.dep->0, short_hash(d.csum)),
        d.kind is Always ==> ood_edge_text(target, d, now) == always_built_text(target),
        d.kind is Uncommitted ==> ood_edge_text(target, d, now) == not_committed_text(target),
        d.kind is IfCreate && now.exists ==> ood_edge_text(target, d, now) == exists_now_text(
            target,
            d.dep->0,
        ),
        (d.kind is IfChange || d.kind is DoFile) && edge_outdated(d, now.exists, opt(now.csum))
            ==> ood_edge_text(target, d, now) == dep_changed_text(
            target,
            d.dep->0,
            short_hash(d.csum),
            short_hash(opt(now.csum)),
        ),
{
}

/// When a target of a group settles, it is told that it is built again exactly if it is, and that
/// the group failed exactly with the first failure that is final.
pub proof fn law_settling_is_told(
    g: GroupView,
    target: Seq<char>,
    o: Outcome,
    dead: bool,
    id: usize,
)
    ensures
        ({
            let next = crate::parallel::group_step(g, o, dead, id);
            let said = settled_text(g, target, o, dead);
            &&& next.at == g.at ==> said is Some && said == Some(
                run_again_text(target, outcome_failure(o)->0),
            )
            &&& next.at != g.at && g.first_err is None && next.first_err is Some ==> said == Some(
                group_failed_text(target),
            )
            &&& next.at != g.at && (g.first_err is Some || next.first_err is None) ==> said is None
        }),
{
}

/// A task that is told to stop when a process drains is named, and no task that is not.
pub proof fn law_stopping_is_told(tasks: Seq<TaskView>, n: int, i: int)
    requires
        0 <= n <= tasks.len(),
        0 <= i < n,
    ensures
        crate::parallel::abandoned(tasks, i) && !tasks[i].abandon ==> drain_texts(
            tasks,
            n,
        ).contains(abandoned_text(tasks[i].target)),
        forall|x: Seq<char>| #[trigger]
            drain_texts(tasks, n).contains(x) ==> exists|k: int|
                0 <= k < n && x == abandoned_text((#[trigger] tasks[k]).target)
                    && !tasks[k].demanded && !tasks[k].abandon,
    decreases n,
{
    let front = drain_texts(tasks, n - 1);
    let all = drain_texts(tasks, n);
    let told = crate::parallel::abandoned(tasks, n - 1) && !tasks[n - 1].abandon;
    if n > 1 {
        let k = if i < n - 1 {
            i
        } else {
            0
        };
        law_stopping_is_told(tasks, n - 1, k);
    } else {
        assert(front.len() == 0);
    }
    if crate::parallel::abandoned(tasks, i) && !tasks[i].abandon {
        if i < n - 1 {
            let x = abandoned_text(tasks[i].target);
            let k = choose|k: int| 0 <= k < front.len() && front[k] == x;
            assert(all[k] == x);
        } else {
            assert(all[front.len() as int] == abandoned_text(tasks[i].target));
        }
    }
    assert forall|x: Seq<char>| #[trigger] all.contains(x) implies exists|k: int|
        0 <= k < n && x == abandoned_text((#[trigger] tasks[k]).target) && !tasks[k].demanded
            && !tasks[k].abandon by {
        let m = choose|m: int| 0 <= m < all.len() && all[m] == x;
        if m < front.len() {
            assert(front[m] == x);
            assert(front.contains(x));
        } else {
            assert(x == abandoned_text(tasks[n - 1].target));
        }
    }
}

/// Why a file was read again: nothing was recorded of it, its time changed, its size changed, or
/// its time is too coarse to tell.
pub proof fn law_reasons_to_read(meta: Meta, c: crate::stamp::StampView)
    ensures
        why_read(meta, None) == "no cached stamp"@,
        c.mtime != meta.mtime ==> why_read(meta, Some(c)) == "mtime changed"@,
        c.mtime == meta.mtime && c.size != meta.recorded_size() ==> why_read(meta, Some(c))
            == "size changed"@,
        c.mtime == meta.mtime && c.size == meta.recorded_size() ==> why_read(meta, Some(c))
            == "whole-second mtime cannot be trusted"@,
{
}

}
