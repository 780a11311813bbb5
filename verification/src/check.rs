//! The checking phase: decide whether a target must be rebuilt, speculating
//! over its recorded dependencies in parallel.
//!
//! The recorded edges make a list of checks, in order: activate the buildable
//! dependencies; compare the do-file, the paths that must not exist and the
//! sources; record the waits; for each buildable dependency wait until it
//! settles and compare it; and last see that no wait was evicted unnoticed. A
//! check that fails, or that cannot be made, ends the phase: the target is
//! rebuilt, and its do-file decides what is real. Only when every check passed
//! is the target up to date.

use crate::db::{DepKind, DepRow, DepView};
use crate::text::{copy_opt, opt, same_opt, texts};
use crate::waits::SoftOutcome;
use crate::seqs::{lemma_mapped, lemma_mapped_back, lemma_within};
use vstd::prelude::*;

verus! {

/// One check.
#[derive(Debug, Clone, PartialEq, Eq)]
pub enum Item {
    /// Activate the buildable dependencies, even when it is already known that
    /// the target must be rebuilt (`must`): its do-file will most likely ask for
    /// them.
    Activate { deps: Vec<String>, must: bool },
    /// Compare the do-file.
    DoFile { dep: String, csum: Option<String> },
    /// See that a path still does not exist.
    IfCreate { dep: String },
    /// Compare a source.
    Source { dep: String, csum: Option<String> },
    /// Record the waits on the buildable dependencies.
    Edges { deps: Vec<String> },
    /// Wait for a buildable dependency.
    Wait { dep: String },
    /// Compare a buildable dependency.
    Dep { dep: String, csum: Option<String> },
    /// See that a wait was not evicted.
    Guard { dep: String },
}

/// One check, as a mathematical value.
#[verifier::ext_equal]
pub enum ItemView {
    Activate { deps: Seq<Seq<char>>, must: bool },
    DoFile { dep: Seq<char>, csum: Option<Seq<char>> },
    IfCreate { dep: Seq<char> },
    Source { dep: Seq<char>, csum: Option<Seq<char>> },
    Edges { deps: Seq<Seq<char>> },
    Wait { dep: Seq<char> },
    Dep { dep: Seq<char>, csum: Option<Seq<char>> },
    Guard { dep: Seq<char> },
}

impl View for Item {
    type V = ItemView;

    open spec fn view(&self) -> ItemView {
        match self {
            Item::Activate { deps, must } => ItemView::Activate {
                deps: texts(deps@),
                must: *must,
            },
            Item::DoFile { dep, csum } => ItemView::DoFile { dep: dep@, csum: opt(*csum) },
            Item::IfCreate { dep } => ItemView::IfCreate { dep: dep@ },
            Item::Source { dep, csum } => ItemView::Source { dep: dep@, csum: opt(*csum) },
            Item::Edges { deps } => ItemView::Edges { deps: texts(deps@) },
            Item::Wait { dep } => ItemView::Wait { dep: dep@ },
            Item::Dep { dep, csum } => ItemView::Dep { dep: dep@, csum: opt(*csum) },
            Item::Guard { dep } => ItemView::Guard { dep: dep@ },
        }
    }
}

/// The views of a list of checks.
pub open spec fn items(v: Seq<Item>) -> Seq<ItemView> {
    v.map_values(|i: Item| i@)
}

/// What a wait on a dependency observed.
#[derive(Debug, Clone, PartialEq, Eq)]
pub enum Waited {
    Done,
    /// The dependency failed: soft for the checker, which takes the rebuild
    /// path.
    SoftFailed(String),
    /// The wait was evicted by a hard demand: stop waiting and rebuild.
    Evicted,
}

/// What a check found.
#[derive(Debug, Clone, PartialEq, Eq)]
pub enum Answer {
    /// For each dependency, whether it was activated.
    Activated(Vec<bool>),
    /// The current checksum; none if the file does not exist.
    Csum(Option<String>),
    /// Whether the path exists.
    Exists(bool),
    /// For each dependency, whether the wait was recorded.
    Edges(Vec<SoftOutcome>),
    Waited(Waited),
    /// Whether the wait still stands.
    Alive(bool),
}

/// Whether every dependency was activated.
pub open spec fn all_true(v: Seq<bool>) -> bool {
    forall|i: int| 0 <= i < v.len() ==> #[trigger] v[i]
}

/// Whether a check passed, given what it found. An answer to another question
/// counts as a failure.
pub open spec fn passes(item: ItemView, a: Answer) -> bool {
    match (item, a) {
        (ItemView::Activate { must, .. }, Answer::Activated(v)) => !must && all_true(v@),
        (ItemView::DoFile { csum, .. }, Answer::Csum(c)) => opt(c) == csum,
        (ItemView::IfCreate { .. }, Answer::Exists(b)) => !b,
        (ItemView::Source { csum, .. }, Answer::Csum(c)) => c is Some && opt(c) == csum,
        (ItemView::Edges { .. }, Answer::Edges(v)) => crate::waits::all_inserted(v@),
        (ItemView::Wait { .. }, Answer::Waited(w)) => w is Done,
        (ItemView::Dep { csum, .. }, Answer::Csum(c)) => c is Some && opt(c) == csum,
        (ItemView::Guard { .. }, Answer::Alive(b)) => b,
        _ => false,
    }
}

/// What the checking phase does next.
#[derive(Debug, Clone, Copy, PartialEq, Eq, Structural)]
pub enum Verdict {
    /// Make the check with this number.
    Ask(usize),
    /// Rebuild the target.
    Rebuild,
    /// The target is up to date.
    UpToDate,
}

/// The edges of a target, each with whether its dependency is buildable.
pub open spec fn paired(deps: Seq<DepView>, buildable: Seq<bool>) -> Seq<(DepView, bool)> {
    Seq::new(deps.len(), |i: int| (deps[i], buildable[i]))
}

/// The check of the do-file that an edge asks for.
pub open spec fn dofile_item(e: (DepView, bool)) -> Option<ItemView> {
    if e.0.kind is DoFile {
        Some(ItemView::DoFile { dep: e.0.dep->0, csum: e.0.csum })
    } else {
        None
    }
}

/// The check of absence that an edge asks for.
pub open spec fn ifcreate_item(e: (DepView, bool)) -> Option<ItemView> {
    if e.0.kind is IfCreate {
        Some(ItemView::IfCreate { dep: e.0.dep->0 })
    } else {
        None
    }
}

/// The check of a source that an edge asks for.
pub open spec fn source_item(e: (DepView, bool)) -> Option<ItemView> {
    if e.0.kind is IfChange && !e.1 {
        Some(ItemView::Source { dep: e.0.dep->0, csum: e.0.csum })
    } else {
        None
    }
}

/// The buildable dependency of an edge and its recorded checksum.
pub open spec fn build_dep(e: (DepView, bool)) -> Option<(Seq<char>, Option<Seq<char>>)> {
    if e.0.kind is IfChange && e.1 {
        Some((e.0.dep->0, e.0.csum))
    } else {
        None
    }
}

/// The names of dependencies.
pub open spec fn names(b: Seq<(Seq<char>, Option<Seq<char>>)>) -> Seq<Seq<char>> {
    b.map_values(|e: (Seq<char>, Option<Seq<char>>)| e.0)
}

/// A wait and a comparison for each buildable dependency.
pub open spec fn wait_items(b: Seq<(Seq<char>, Option<Seq<char>>)>) -> Seq<ItemView>
    decreases b.len(),
{
    if b.len() == 0 {
        Seq::empty()
    } else {
        wait_items(b.drop_last()) + seq![
            ItemView::Wait { dep: b.last().0 },
            ItemView::Dep { dep: b.last().0, csum: b.last().1 },
        ]
    }
}

/// A last look at each wait.
pub open spec fn guard_items(b: Seq<(Seq<char>, Option<Seq<char>>)>) -> Seq<ItemView> {
    b.map_values(|e: (Seq<char>, Option<Seq<char>>)| ItemView::Guard { dep: e.0 })
}

/// Whether it is known without any check that a target must be rebuilt: it was
/// never built, its output is gone, it asked to be built always, or its last
/// build did not commit.
pub open spec fn must_rebuild(
    row: Option<Option<Seq<char>>>,
    exists: bool,
    deps: Seq<DepView>,
) -> bool {
    row is None || (row->0 is Some && !exists) || exists|i: int|
        0 <= i < deps.len() && ((#[trigger] deps[i]).kind is Always || deps[i].kind
            is Uncommitted)
}

/// The checks of a target.
pub open spec fn plan_of(
    row: Option<Option<Seq<char>>>,
    exists: bool,
    deps: Seq<DepView>,
    buildable: Seq<bool>,
) -> Seq<ItemView> {
    let p = paired(deps, buildable);
    let b = p.filter_map(|e: (DepView, bool)| build_dep(e));
    seq![ItemView::Activate { deps: names(b), must: must_rebuild(row, exists, deps) }]
        + p.filter_map(|e: (DepView, bool)| dofile_item(e)) + p.filter_map(
        |e: (DepView, bool)| ifcreate_item(e),
    ) + p.filter_map(|e: (DepView, bool)| source_item(e)) + seq![
        ItemView::Edges { deps: names(b) },
    ] + wait_items(b) + guard_items(b)
}

/// Whether an edge of a kind that has a dependency has one.
pub open spec fn has_dep(d: DepView) -> bool {
    d.kind is Always || d.kind is Uncommitted || d.dep is Some
}

/// The view of a recorded row's checksum.
pub open spec fn row_view(row: Option<Option<String>>) -> Option<Option<Seq<char>>> {
    match row {
        Some(c) => Some(opt(c)),
        None => None,
    }
}

/// The views of dependencies with checksums.
pub open spec fn dep_pairs(v: Seq<(String, Option<String>)>) -> Seq<(
    Seq<char>,
    Option<Seq<char>>,
)> {
    v.map_values(|e: (String, Option<String>)| (e.0@, opt(e.1)))
}

/// The name of the dependency of an edge that has one.
fn dep_name(d: &DepRow) -> (s: String)
    requires
        d@.dep is Some,
    ensures
        s@ == d@.dep->0,
{
    match &d.dep {
        Some(s) => s.clone(),
        None => String::new(),
    }
}

fn copy_names(v: &Vec<(String, Option<String>)>) -> (out: Vec<String>)
    ensures
        texts(out@) == names(dep_pairs(v@)),
{
    let mut out: Vec<String> = Vec::new();
    let ghost want = names(dep_pairs(v@));
    for i in 0..v.len()
        invariant
            want == names(dep_pairs(v@)),
            texts(out@) == want.take(i as int),
    {
        let ghost before = texts(out@);
        out.push(v[i].0.clone());
        assert(texts(out@) =~= before.push(want[i as int]));
    }
    assert(want.take(want.len() as int) =~= want);
    out
}

/// The checks of a target, given its recorded row, whether its output exists,
/// its edges, and for each whether the dependency is buildable.
pub fn check_plan(
    row: &Option<Option<String>>,
    exists: bool,
    deps: &[DepRow],
    buildable: &[bool],
) -> (plan: Vec<Item>)
    requires
        buildable.len() == deps.len(),
        forall|i: int| 0 <= i < deps.len() ==> has_dep((#[trigger] deps@[i])@),
    ensures
        items(plan@) == plan_of(row_view(*row), exists, crate::db::dep_views(deps@), buildable@),
{
    let ghost dv = crate::db::dep_views(deps@);
    let ghost p = paired(dv, buildable@);
    let ghost fd = |e: (DepView, bool)| dofile_item(e);
    let ghost fc = |e: (DepView, bool)| ifcreate_item(e);
    let ghost fs = |e: (DepView, bool)| source_item(e);
    let ghost fb = |e: (DepView, bool)| build_dep(e);
    let mut must = match row {
        None => true,
        Some(c) => c.is_some() && !exists,
    };
    let ghost must0 = row is None || (row_view(*row)->0 is Some && !exists);
    let mut dofiles: Vec<Item> = Vec::new();
    let mut ifcreates: Vec<Item> = Vec::new();
    let mut sources: Vec<Item> = Vec::new();
    let mut builds: Vec<(String, Option<String>)> = Vec::new();
    for i in 0..deps.len()
        invariant
            buildable.len() == deps.len(),
            dv == crate::db::dep_views(deps@),
            p == paired(dv, buildable@),
            fd == (|e: (DepView, bool)| dofile_item(e)),
            fc == (|e: (DepView, bool)| ifcreate_item(e)),
            fs == (|e: (DepView, bool)| source_item(e)),
            fb == (|e: (DepView, bool)| build_dep(e)),
            forall|i: int| 0 <= i < deps.len() ==> has_dep((#[trigger] deps@[i])@),
            must == (must0 || exists|k: int|
                0 <= k < i && ((#[trigger] dv[k]).kind is Always || dv[k].kind is Uncommitted)),
            items(dofiles@) == p.take(i as int).filter_map(fd),
            items(ifcreates@) == p.take(i as int).filter_map(fc),
            items(sources@) == p.take(i as int).filter_map(fs),
            dep_pairs(builds@) == p.take(i as int).filter_map(fb),
    {
        let d = &deps[i];
        let ghost e = p[i as int];
        proof {
            assert(dv[i as int] == d@);
            assert(has_dep(deps@[i as int]@));
            p.lemma_filter_map_take_succ(fd, i as int);
            p.lemma_filter_map_take_succ(fc, i as int);
            p.lemma_filter_map_take_succ(fs, i as int);
            p.lemma_filter_map_take_succ(fb, i as int);
            assert(fd(e) == dofile_item(e));
            assert(fc(e) == ifcreate_item(e));
            assert(fs(e) == source_item(e));
            assert(fb(e) == build_dep(e));
        }
        let ghost d0 = items(dofiles@);
        let ghost c0 = items(ifcreates@);
        let ghost s0 = items(sources@);
        let ghost b0 = dep_pairs(builds@);
        match d.kind {
            DepKind::Always => {
                must = true;
            },
            DepKind::Uncommitted => {
                must = true;
            },
            DepKind::DoFile => {
                let it = Item::DoFile { dep: dep_name(d), csum: copy_opt(&d.csum) };
                let ghost v = it@;
                dofiles.push(it);
                assert(items(dofiles@) =~= d0.push(v));
            },
            DepKind::IfCreate => {
                let it = Item::IfCreate { dep: dep_name(d) };
                let ghost v = it@;
                ifcreates.push(it);
                assert(items(ifcreates@) =~= c0.push(v));
            },
            DepKind::IfChange => {
                if buildable[i] {
                    let b = (dep_name(d), copy_opt(&d.csum));
                    let ghost v = (b.0@, opt(b.1));
                    builds.push(b);
                    assert(dep_pairs(builds@) =~= b0.push(v));
                } else {
                    let it = Item::Source { dep: dep_name(d), csum: copy_opt(&d.csum) };
                    let ghost v = it@;
                    sources.push(it);
                    assert(items(sources@) =~= s0.push(v));
                }
            },
        }
        proof {
            if must {
                if d.kind is Always || d.kind is Uncommitted {
                    assert(dv[i as int].kind is Always || dv[i as int].kind is Uncommitted);
                } else if !must0 {
                    let k = choose|k: int|
                        0 <= k < i && ((#[trigger] dv[k]).kind is Always || dv[k].kind
                            is Uncommitted);
                    assert(dv[k].kind is Always || dv[k].kind is Uncommitted);
                }
            }
        }
    }
    assert(p.take(p.len() as int) =~= p);
    assert(must == must_rebuild(row_view(*row), exists, dv));
    let ghost b = dep_pairs(builds@);
    let ghost dvw = items(dofiles@);
    let ghost cvw = items(ifcreates@);
    let ghost svw = items(sources@);
    let mut plan: Vec<Item> = Vec::new();
    let first = Item::Activate { deps: copy_names(&builds), must };
    let ghost firstv = first@;
    plan.push(first);
    assert(items(plan@) =~= seq![firstv]);
    append_items(&mut plan, &mut dofiles);
    append_items(&mut plan, &mut ifcreates);
    append_items(&mut plan, &mut sources);
    let ghost so_far = items(plan@);
    let edges = Item::Edges { deps: copy_names(&builds) };
    let ghost edgesv = edges@;
    plan.push(edges);
    assert(items(plan@) =~= so_far.push(edgesv));
    let ghost head = items(plan@);
    for i in 0..builds.len()
        invariant
            b == dep_pairs(builds@),
            items(plan@) == head + wait_items(b.take(i as int)),
    {
        let ghost before = items(plan@);
        assert(b.take(i + 1).drop_last() =~= b.take(i as int));
        assert(b.take(i + 1).last() == b[i as int]);
        let w = Item::Wait { dep: builds[i].0.clone() };
        let ghost wv = w@;
        plan.push(w);
        assert(items(plan@) =~= before.push(wv));
        let c = Item::Dep { dep: builds[i].0.clone(), csum: copy_opt(&builds[i].1) };
        let ghost cv = c@;
        plan.push(c);
        assert(items(plan@) =~= before + seq![wv, cv]);
        assert(items(plan@) =~= head + wait_items(b.take(i + 1)));
    }
    assert(b.take(b.len() as int) =~= b);
    let ghost waits = items(plan@);
    let ghost guards = guard_items(b);
    for i in 0..builds.len()
        invariant
            b == dep_pairs(builds@),
            guards == guard_items(b),
            items(plan@) == waits + guards.take(i as int),
    {
        let ghost before = items(plan@);
        let g = Item::Guard { dep: builds[i].0.clone() };
        let ghost gv = g@;
        plan.push(g);
        assert(items(plan@) =~= before.push(gv));
        assert(gv == guards[i as int]);
        assert(items(plan@) =~= waits + guards.take(i + 1));
    }
    assert(guards.take(guards.len() as int) =~= guards);
    assert(items(plan@) =~= plan_of(row_view(*row), exists, dv, buildable@));
    plan
}

fn append_items(to: &mut Vec<Item>, from: &mut Vec<Item>)
    ensures
        items(final(to)@) == items(old(to)@) + items(old(from)@),
{
    let ghost a = to@;
    let ghost b = from@;
    to.append(from);
    assert(items(to@) =~= items(a) + items(b));
}

fn all_hold(v: &[bool]) -> (r: bool)
    ensures
        r == all_true(v@),
{
    for i in 0..v.len()
        invariant
            forall|k: int| 0 <= k < i ==> #[trigger] v@[k],
    {
        if !v[i] {
            assert(!v@[i as int]);
            return false;
        }
    }
    true
}

fn none_refused(v: &[SoftOutcome]) -> (r: bool)
    ensures
        r == crate::waits::all_inserted(v@),
{
    for i in 0..v.len()
        invariant
            forall|k: int| 0 <= k < i ==> #[trigger] v@[k] is Inserted,
    {
        if v[i] != SoftOutcome::Inserted {
            assert(!(v@[i as int] is Inserted));
            return false;
        }
    }
    true
}

fn answer_passes(item: &Item, a: &Answer) -> (r: bool)
    ensures
        r == passes(item@, *a),
{
    match (item, a) {
        (Item::Activate { must, .. }, Answer::Activated(v)) => {
            !*must && all_hold(v.as_slice())
        },
        (Item::DoFile { csum, .. }, Answer::Csum(c)) => same_opt(c, csum),
        (Item::IfCreate { .. }, Answer::Exists(b)) => !*b,
        (Item::Source { csum, .. }, Answer::Csum(c)) => c.is_some() && same_opt(c, csum),
        (Item::Edges { .. }, Answer::Edges(v)) => none_refused(v.as_slice()),
        (Item::Wait { .. }, Answer::Waited(w)) => match w {
            Waited::Done => true,
            _ => false,
        },
        (Item::Dep { csum, .. }, Answer::Csum(c)) => c.is_some() && same_opt(c, csum),
        (Item::Guard { .. }, Answer::Alive(b)) => *b,
        _ => false,
    }
}

/// What the checking phase does next, given the answers to the checks so far.
pub open spec fn verdict_on(plan: Seq<ItemView>, answers: Seq<Answer>) -> Verdict {
    if exists|i: int|
        0 <= i < plan.len() && i < answers.len() && !passes(#[trigger] plan[i], answers[i]) {
        Verdict::Rebuild
    } else if answers.len() >= plan.len() {
        Verdict::UpToDate
    } else {
        Verdict::Ask(answers.len() as usize)
    }
}

/// What the checking phase does next, given the answers to the checks so far:
/// rebuild as soon as one failed, make the next one, or find the target up to
/// date after the last.
pub fn check_recorded(plan: &[Item], answers: &[Answer]) -> (r: Verdict)
    ensures
        ({
            let failed = exists|i: int|
                0 <= i < plan.len() && i < answers.len() && !passes(
                    (#[trigger] plan@[i])@,
                    answers@[i],
                );
            r == if failed {
                Verdict::Rebuild
            } else if answers.len() >= plan.len() {
                Verdict::UpToDate
            } else {
                Verdict::Ask(answers@.len() as usize)
            }
        }),
        r == verdict_on(items(plan@), answers@),
{
    let ghost views = items(plan@);
    assert(forall|k: int| 0 <= k < plan.len() ==> #[trigger] views[k] == plan@[k]@);
    for i in 0..plan.len()
        invariant
            i <= answers.len(),
            forall|k: int|
                0 <= k < i && k < answers.len() ==> passes((#[trigger] plan@[k])@, answers@[k]),
            views == items(plan@),
            forall|k: int| 0 <= k < plan.len() ==> #[trigger] views[k] == plan@[k]@,
    {
        if i >= answers.len() {
            return Verdict::Ask(answers.len());
        }
        if !answer_passes(&plan[i], &answers[i]) {
            assert(!passes(plan@[i as int]@, answers@[i as int]));
            assert(!passes(views[i as int], answers@[i as int]));
            return Verdict::Rebuild;
        }
    }
    Verdict::UpToDate
}

/// Whether an answer tells of a wait that was recorded.
pub open spec fn recorded_wait(a: Answer) -> bool {
    match a {
        Answer::Edges(v) => exists|j: int| 0 <= j < v.len() && #[trigger] v@[j] is Inserted,
        _ => false,
    }
}

/// Whether the checking phase left waits in the graph that must be cleared.
pub fn edges_inserted(answers: &[Answer]) -> (r: bool)
    ensures
        r == exists|i: int| 0 <= i < answers.len() && recorded_wait(#[trigger] answers@[i]),
{
    for i in 0..answers.len()
        invariant
            forall|k: int| 0 <= k < i ==> !recorded_wait(#[trigger] answers@[k]),
    {
        match &answers[i] {
            Answer::Edges(v) => {
                for j in 0..v.len()
                    invariant
                        i < answers.len(),
                        answers@[i as int] == Answer::Edges(*v),
                        forall|l: int| 0 <= l < j ==> !(#[trigger] v@[l] is Inserted),
                {
                    if v[j] == SoftOutcome::Inserted {
                        assert(v@[j as int] is Inserted);
                        assert(recorded_wait(answers@[i as int]));
                        return true;
                    }
                }
            },
            _ => {},
        }
    }
    false
}

/// Verification is sound: a target is found up to date only if it was built and
/// committed, never asked to be built always, its output is there, and every
/// check of its plan passed.
pub proof fn law_verified_soundly(
    row: Option<Option<Seq<char>>>,
    exists: bool,
    deps: Seq<DepView>,
    buildable: Seq<bool>,
    answers: Seq<Answer>,
)
    requires
        buildable.len() == deps.len(),
        answers.len() >= plan_of(row, exists, deps, buildable).len(),
        forall|i: int|
            0 <= i < plan_of(row, exists, deps, buildable).len() ==> passes(
                #[trigger] plan_of(row, exists, deps, buildable)[i],
                answers[i],
            ),
    ensures
        row is Some,
        row->0 is Some ==> exists,
        forall|i: int|
            0 <= i < deps.len() ==> !((#[trigger] deps[i]).kind is Always) && !(deps[i].kind
                is Uncommitted),
{
    let plan = plan_of(row, exists, deps, buildable);
    assert(plan[0] is Activate);
    assert(passes(plan[0], answers[0]));
    assert(!must_rebuild(row, exists, deps));
}

/// Every buildable dependency is compared.
proof fn lemma_waited(b: Seq<(Seq<char>, Option<Seq<char>>)>, i: int)
    requires
        0 <= i < b.len(),
    ensures
        wait_items(b).contains(ItemView::Dep { dep: b[i].0, csum: b[i].1 }),
        wait_items(b).contains(ItemView::Wait { dep: b[i].0 }),
    decreases b.len(),
{
    let rest = wait_items(b.drop_last());
    if i == b.len() - 1 {
        assert(wait_items(b)[rest.len() as int] == ItemView::Wait { dep: b[i].0 });
        assert(wait_items(b)[rest.len() as int + 1] == ItemView::Dep { dep: b[i].0, csum: b[i].1 });
    } else {
        assert(b.drop_last()[i] == b[i]);
        lemma_waited(b.drop_last(), i);
        let k = choose|k: int|
            0 <= k < rest.len() && rest[k] == (ItemView::Dep { dep: b[i].0, csum: b[i].1 });
        assert(wait_items(b)[k] == rest[k]);
        let l = choose|l: int| 0 <= l < rest.len() && rest[l] == (ItemView::Wait { dep: b[i].0 });
        assert(wait_items(b)[l] == rest[l]);
    }
}

/// The check that an edge with a dependency asks for.
pub open spec fn edge_item(d: DepView, buildable: bool) -> ItemView {
    match d.kind {
        DepKind::DoFile => ItemView::DoFile { dep: d.dep->0, csum: d.csum },
        DepKind::IfCreate => ItemView::IfCreate { dep: d.dep->0 },
        _ => if buildable {
            ItemView::Dep { dep: d.dep->0, csum: d.csum }
        } else {
            ItemView::Source { dep: d.dep->0, csum: d.csum }
        },
    }
}

/// No recorded edge is forgotten: each one that speaks of a file is among the
/// checks, so a target found up to date had all of them pass.
pub proof fn law_every_edge_is_checked(
    row: Option<Option<Seq<char>>>,
    exists: bool,
    deps: Seq<DepView>,
    buildable: Seq<bool>,
    i: int,
)
    requires
        buildable.len() == deps.len(),
        0 <= i < deps.len(),
        !(deps[i].kind is Always) && !(deps[i].kind is Uncommitted),
    ensures
        plan_of(row, exists, deps, buildable).contains(edge_item(deps[i], buildable[i])),
{
    let p = paired(deps, buildable);
    let fd = |e: (DepView, bool)| dofile_item(e);
    let fc = |e: (DepView, bool)| ifcreate_item(e);
    let fs = |e: (DepView, bool)| source_item(e);
    let fb = |e: (DepView, bool)| build_dep(e);
    let b = p.filter_map(fb);
    let first = seq![ItemView::Activate { deps: names(b), must: must_rebuild(row, exists, deps) }];
    let d = p.filter_map(fd);
    let c = p.filter_map(fc);
    let s = p.filter_map(fs);
    let e = seq![ItemView::Edges { deps: names(b) }];
    let w = wait_items(b);
    let g = guard_items(b);
    let plan = plan_of(row, exists, deps, buildable);
    let x = edge_item(deps[i], buildable[i]);
    assert(p[i] == (deps[i], buildable[i]));
    match deps[i].kind {
        DepKind::DoFile => {
            assert(fd(p[i]) == Some(x));
            lemma_mapped(p, fd, i);
            lemma_within(first, d, c + s + e + w + g, x);
            assert(plan =~= first + d + (c + s + e + w + g));
        },
        DepKind::IfCreate => {
            assert(fc(p[i]) == Some(x));
            lemma_mapped(p, fc, i);
            lemma_within(first + d, c, s + e + w + g, x);
            assert(plan =~= first + d + c + (s + e + w + g));
        },
        _ => {
            if buildable[i] {
                let y = (deps[i].dep->0, deps[i].csum);
                assert(fb(p[i]) == Some(y));
                lemma_mapped(p, fb, i);
                let k = choose|k: int| 0 <= k < b.len() && b[k] == y;
                lemma_waited(b, k);
                lemma_within(first + d + c + s + e, w, g, x);
            } else {
                assert(fs(p[i]) == Some(x));
                lemma_mapped(p, fs, i);
                lemma_within(first + d + c, s, e + w + g, x);
                assert(plan =~= first + d + c + s + (e + w + g));
            }
        },
    }
}

/// Whether an answer tells the truth about the files, and nothing went wrong with the
/// work that the check rests on. `csums` gives the checksum that a path has now, none if
/// there is no such file; `there` tells whether something is under a path.
pub open spec fn truthful(
    item: ItemView,
    a: Answer,
    csums: spec_fn(Seq<char>) -> Option<Seq<char>>,
    there: spec_fn(Seq<char>) -> bool,
) -> bool {
    match item {
        ItemView::Activate { .. } => a matches Answer::Activated(v) && forall|k: int|
            0 <= k < v.len() ==> #[trigger] v@[k],
        ItemView::DoFile { dep, .. } => a matches Answer::Csum(c) && opt(c) == csums(dep),
        ItemView::IfCreate { dep } => a == Answer::Exists(there(dep)),
        ItemView::Source { dep, .. } => a matches Answer::Csum(c) && opt(c) == csums(dep),
        ItemView::Edges { .. } => a matches Answer::Edges(v) && forall|k: int|
            0 <= k < v.len() ==> #[trigger] v@[k] is Inserted,
        ItemView::Wait { .. } => a == Answer::Waited(Waited::Done),
        ItemView::Dep { dep, .. } => a matches Answer::Csum(c) && opt(c) == csums(dep),
        ItemView::Guard { .. } => a == Answer::Alive(true),
    }
}

/// Whether what an edge recorded is still so: the do-file has the recorded checksum, the
/// dependency exists with the recorded checksum, nothing is under the path that was to be
/// absent. A target that asked to be built always, or whose build did not commit, is never
/// as it was.
pub open spec fn as_recorded(
    d: DepView,
    csums: spec_fn(Seq<char>) -> Option<Seq<char>>,
    there: spec_fn(Seq<char>) -> bool,
) -> bool {
    match d.kind {
        DepKind::DoFile => csums(d.dep->0) == d.csum,
        DepKind::IfChange => csums(d.dep->0) is Some && csums(d.dep->0) == d.csum,
        DepKind::IfCreate => !there(d.dep->0),
        DepKind::Always => false,
        DepKind::Uncommitted => false,
    }
}

/// What each check of a target looks at: an edge of it, or the work on its buildable
/// dependencies.
proof fn lemma_plan_items(
    row: Option<Option<Seq<char>>>,
    exists: bool,
    deps: Seq<DepView>,
    buildable: Seq<bool>,
    k: int,
)
    requires
        buildable.len() == deps.len(),
        0 <= k < plan_of(row, exists, deps, buildable).len(),
    ensures
        match plan_of(row, exists, deps, buildable)[k] {
            ItemView::Activate { must, .. } => must == must_rebuild(row, exists, deps),
            ItemView::DoFile { dep, csum } => exists|i: int|
                0 <= i < deps.len() && (#[trigger] deps[i]).kind is DoFile && deps[i].dep->0 == dep
                    && deps[i].csum == csum,
            ItemView::IfCreate { dep } => exists|i: int|
                0 <= i < deps.len() && (#[trigger] deps[i]).kind is IfCreate && deps[i].dep->0
                    == dep,
            ItemView::Source { dep, csum } => exists|i: int|
                0 <= i < deps.len() && (#[trigger] deps[i]).kind is IfChange && deps[i].dep->0 == dep
                    && deps[i].csum == csum,
            ItemView::Dep { dep, csum } => exists|i: int|
                0 <= i < deps.len() && (#[trigger] deps[i]).kind is IfChange && deps[i].dep->0 == dep
                    && deps[i].csum == csum,
            _ => true,
        },
{
    let p = paired(deps, buildable);
    let fd = |e: (DepView, bool)| dofile_item(e);
    let fc = |e: (DepView, bool)| ifcreate_item(e);
    let fs = |e: (DepView, bool)| source_item(e);
    let fb = |e: (DepView, bool)| build_dep(e);
    let b = p.filter_map(fb);
    let d = p.filter_map(fd);
    let c = p.filter_map(fc);
    let s = p.filter_map(fs);
    let w = wait_items(b);
    let plan = plan_of(row, exists, deps, buildable);
    let x = plan[k];
    if k == 0 {
    } else if k < 1 + d.len() {
        assert(d[k - 1] == x);
        lemma_mapped_back(p, fd, x);
        let i = choose|i: int| 0 <= i < p.len() && fd(#[trigger] p[i]) == Some(x);
        assert(deps[i].kind is DoFile);
    } else if k < 1 + d.len() + c.len() {
        assert(c[k - 1 - d.len()] == x);
        lemma_mapped_back(p, fc, x);
        let i = choose|i: int| 0 <= i < p.len() && fc(#[trigger] p[i]) == Some(x);
        assert(deps[i].kind is IfCreate);
    } else if k < 1 + d.len() + c.len() + s.len() {
        assert(s[k - 1 - d.len() - c.len()] == x);
        lemma_mapped_back(p, fs, x);
        let i = choose|i: int| 0 <= i < p.len() && fs(#[trigger] p[i]) == Some(x);
        assert(deps[i].kind is IfChange);
    } else if k == 1 + d.len() + c.len() + s.len() {
    } else if k < 2 + d.len() + c.len() + s.len() + w.len() {
        let n = k - (2 + d.len() + c.len() + s.len());
        assert(w[n] == x);
        lemma_wait_items(b, n / 2);
        if x is Dep {
            assert(n == 2 * (n / 2) || n == 2 * (n / 2) + 1);
            let y = b[n / 2];
            assert(b.contains(y));
            lemma_mapped_back(p, fb, y);
            let i = choose|i: int| 0 <= i < p.len() && fb(#[trigger] p[i]) == Some(y);
            assert(deps[i].kind is IfChange);
        }
    } else {
        let n = k - (2 + d.len() + c.len() + s.len() + w.len());
        assert(x == guard_items(b)[n]);
    }
}

/// The wait for a buildable dependency, and right after it its comparison.
proof fn lemma_wait_items(b: Seq<(Seq<char>, Option<Seq<char>>)>, i: int)
    ensures
        wait_items(b).len() == 2 * b.len(),
        0 <= i < b.len() ==> wait_items(b)[2 * i] == (ItemView::Wait { dep: b[i].0 }),
        0 <= i < b.len() ==> wait_items(b)[2 * i + 1] == (ItemView::Dep {
            dep: b[i].0,
            csum: b[i].1,
        }),
    decreases b.len(),
{
    if b.len() > 0 {
        lemma_wait_items(b.drop_last(), i);
    }
}

/// The file system decides: if the checks are answered truthfully, a target is found up to
/// date exactly if it was built, its output is there unless it has none, and all that its
/// edges recorded is still so; else it is rebuilt. So a changed, appeared or vanished file
/// never goes unnoticed, and nothing is rebuilt without a reason.
pub proof fn law_truth_decides(
    row: Option<Option<Seq<char>>>,
    exists: bool,
    deps: Seq<DepView>,
    buildable: Seq<bool>,
    answers: Seq<Answer>,
    csums: spec_fn(Seq<char>) -> Option<Seq<char>>,
    there: spec_fn(Seq<char>) -> bool,
)
    requires
        buildable.len() == deps.len(),
        answers.len() == plan_of(row, exists, deps, buildable).len(),
        forall|k: int|
            0 <= k < answers.len() ==> truthful(
                #[trigger] plan_of(row, exists, deps, buildable)[k],
                answers[k],
                csums,
                there,
            ),
    ensures
        ({
            let same = row is Some && (row->0 is Some ==> exists) && forall|i: int|
                0 <= i < deps.len() ==> as_recorded(#[trigger] deps[i], csums, there);
            verdict_on(plan_of(row, exists, deps, buildable), answers) == if same {
                Verdict::UpToDate
            } else {
                Verdict::Rebuild
            }
        }),
{
    let plan = plan_of(row, exists, deps, buildable);
    let same = row is Some && (row->0 is Some ==> exists) && forall|i: int|
        0 <= i < deps.len() ==> as_recorded(#[trigger] deps[i], csums, there);
    assert(plan[0] is Activate);
    lemma_plan_items(row, exists, deps, buildable, 0);
    assert(truthful(plan[0], answers[0], csums, there));
    if same {
        assert forall|i: int| 0 <= i < deps.len() implies !((#[trigger] deps[i]).kind is Always
            || deps[i].kind is Uncommitted) by {
            assert(as_recorded(deps[i], csums, there));
        }
        assert(!must_rebuild(row, exists, deps));
        assert forall|k: int| 0 <= k < plan.len() implies passes(#[trigger] plan[k], answers[k]) by {
            assert(truthful(plan[k], answers[k], csums, there));
            lemma_plan_items(row, exists, deps, buildable, k);
            match plan[k] {
                ItemView::DoFile { dep, csum } => {
                    let i = choose|i: int|
                        0 <= i < deps.len() && (#[trigger] deps[i]).kind is DoFile && deps[i].dep->0
                            == dep && deps[i].csum == csum;
                    assert(as_recorded(deps[i], csums, there));
                },
                ItemView::IfCreate { dep } => {
                    let i = choose|i: int|
                        0 <= i < deps.len() && (#[trigger] deps[i]).kind is IfCreate
                            && deps[i].dep->0 == dep;
                    assert(as_recorded(deps[i], csums, there));
                },
                ItemView::Source { dep, csum } => {
                    let i = choose|i: int|
                        0 <= i < deps.len() && (#[trigger] deps[i]).kind is IfChange
                            && deps[i].dep->0 == dep && deps[i].csum == csum;
                    assert(as_recorded(deps[i], csums, there));
                },
                ItemView::Dep { dep, csum } => {
                    let i = choose|i: int|
                        0 <= i < deps.len() && (#[trigger] deps[i]).kind is IfChange
                            && deps[i].dep->0 == dep && deps[i].csum == csum;
                    assert(as_recorded(deps[i], csums, there));
                },
                _ => {},
            }
        }
    } else if must_rebuild(row, exists, deps) {
        assert(!passes(plan[0], answers[0]));
    } else {
        let i = choose|i: int|
            0 <= i < deps.len() && !as_recorded(#[trigger] deps[i], csums, there);
        assert(!(deps[i].kind is Always) && !(deps[i].kind is Uncommitted));
        law_every_edge_is_checked(row, exists, deps, buildable, i);
        let x = edge_item(deps[i], buildable[i]);
        let k = choose|k: int| 0 <= k < plan.len() && plan[k] == x;
        assert(truthful(plan[k], answers[k], csums, there));
        assert(!passes(plan[k], answers[k]));
    }
}

/// Verification rests on what was found, whatever else happened: if a target is found up to
/// date, then each edge was answered for. The file of an edge on a content was found with
/// the recorded checksum, so one that is gone does not verify what has one; and the path of
/// an edge on an absence was found absent.
pub proof fn law_up_to_date_means_unchanged(
    row: Option<Option<Seq<char>>>,
    exists: bool,
    deps: Seq<DepView>,
    buildable: Seq<bool>,
    answers: Seq<Answer>,
    i: int,
)
    requires
        buildable.len() == deps.len(),
        verdict_on(plan_of(row, exists, deps, buildable), answers) == Verdict::UpToDate,
        0 <= i < deps.len(),
    ensures
        row is Some && (row->0 is Some ==> exists),
        !(deps[i].kind is Always) && !(deps[i].kind is Uncommitted),
        deps[i].kind is DoFile || deps[i].kind is IfChange ==> exists|k: int|
            0 <= k < answers.len() && k < plan_of(row, exists, deps, buildable).len()
                && compares(#[trigger] plan_of(row, exists, deps, buildable)[k], deps[i].dep->0)
                && (answers[k] matches Answer::Csum(c) && opt(c) == deps[i].csum && (
            deps[i].kind is IfChange ==> c is Some)),
        deps[i].kind is IfCreate ==> exists|k: int|
            0 <= k < answers.len() && k < plan_of(row, exists, deps, buildable).len()
                && #[trigger] plan_of(row, exists, deps, buildable)[k] == (ItemView::IfCreate {
                dep: deps[i].dep->0,
            }) && answers[k] == Answer::Exists(false),
{
    let plan = plan_of(row, exists, deps, buildable);
    assert(plan[0] is Activate);
    assert(passes(plan[0], answers[0]));
    assert(!must_rebuild(row, exists, deps));
    law_every_edge_is_checked(row, exists, deps, buildable, i);
    let k = choose|k: int|
        0 <= k < plan.len() && #[trigger] plan[k] == edge_item(deps[i], buildable[i]);
    assert(passes(plan[k], answers[k]));
}

/// Whether a check is for the checksum of a file.
pub open spec fn compares(item: ItemView, path: Seq<char>) -> bool {
    match item {
        ItemView::DoFile { dep, .. } => dep == path,
        ItemView::Source { dep, .. } => dep == path,
        ItemView::Dep { dep, .. } => dep == path,
        _ => false,
    }
}

/// A buildable dependency is brought up to date before it counts: if a target is found up to
/// date, every such dependency was activated, its wait was declared and ended well, only
/// then its checksum was compared, and at the end the wait still stood.
pub proof fn law_dependencies_settle_first(
    row: Option<Option<Seq<char>>>,
    exists: bool,
    deps: Seq<DepView>,
    buildable: Seq<bool>,
    answers: Seq<Answer>,
    i: int,
)
    requires
        buildable.len() == deps.len(),
        verdict_on(plan_of(row, exists, deps, buildable), answers) == Verdict::UpToDate,
        0 <= i < deps.len(),
        deps[i].kind is IfChange,
        buildable[i],
    ensures
        exists|e: int, w: int, g: int|
            0 < e < w < g < answers.len() && settled_in_order(
                plan_of(row, exists, deps, buildable),
                answers,
                deps[i].dep->0,
                deps[i].csum,
                e,
                w,
                g,
            ),
{
    let p = paired(deps, buildable);
    let fd = |e: (DepView, bool)| dofile_item(e);
    let fc = |e: (DepView, bool)| ifcreate_item(e);
    let fs = |e: (DepView, bool)| source_item(e);
    let fb = |e: (DepView, bool)| build_dep(e);
    let b = p.filter_map(fb);
    let d = p.filter_map(fd);
    let c = p.filter_map(fc);
    let s = p.filter_map(fs);
    let plan = plan_of(row, exists, deps, buildable);
    let y = (deps[i].dep->0, deps[i].csum);
    assert(p[i] == (deps[i], buildable[i]));
    assert(fb(p[i]) == Some(y));
    lemma_mapped(p, fb, i);
    let n = choose|n: int| 0 <= n < b.len() && b[n] == y;
    lemma_wait_items(b, n);
    let e: int = 1int + d.len() + c.len() + s.len();
    let w = e + 1 + 2 * n;
    let g = e + 1 + 2 * b.len() + n;
    assert(plan[e] == (ItemView::Edges { deps: names(b) }));
    assert(plan[w] == wait_items(b)[2 * n]);
    assert(plan[w + 1] == wait_items(b)[2 * n + 1]);
    assert(plan[g] == guard_items(b)[n]);
    assert(plan[0] is Activate);
    assert(passes(plan[0], answers[0]));
    assert(passes(plan[e], answers[e]));
    assert(passes(plan[w], answers[w]));
    assert(passes(plan[w + 1], answers[w + 1]));
    assert(passes(plan[g], answers[g]));
    assert(names(b)[n] == y.0);
    assert(settled_in_order(plan, answers, y.0, y.1, e, w, g));
}

/// Whether a dependency was activated, then its wait declared at `e`, waited for at `w`,
/// compared right after that, and the wait looked at again at `g`.
pub open spec fn settled_in_order(
    plan: Seq<ItemView>,
    answers: Seq<Answer>,
    dep: Seq<char>,
    csum: Option<Seq<char>>,
    e: int,
    w: int,
    g: int,
) -> bool {
    &&& plan[0] matches ItemView::Activate { deps, .. } && deps.contains(dep)
    &&& answers[0] matches Answer::Activated(v) && forall|k: int|
        0 <= k < v.len() ==> #[trigger] v@[k]
    &&& plan[e] matches ItemView::Edges { deps } && deps.contains(dep)
    &&& answers[e] matches Answer::Edges(v) && forall|k: int|
        0 <= k < v.len() ==> #[trigger] v@[k] is Inserted
    &&& plan[w] == (ItemView::Wait { dep })
    &&& answers[w] == Answer::Waited(Waited::Done)
    &&& compares(plan[w + 1], dep)
    &&& answers[w + 1] matches Answer::Csum(c) && c is Some && opt(c) == csum
    &&& plan[g] == (ItemView::Guard { dep })
    &&& answers[g] == Answer::Alive(true)
}

/// Only what can be built is activated, and all of it: the dependencies that are brought up
/// to date are those of the edges on contents whose file is a target.
pub proof fn law_activates_the_buildable(
    row: Option<Option<Seq<char>>>,
    exists: bool,
    deps: Seq<DepView>,
    buildable: Seq<bool>,
    dep: Seq<char>,
)
    requires
        buildable.len() == deps.len(),
    ensures
        plan_of(row, exists, deps, buildable)[0] matches ItemView::Activate { deps: list, .. } && (
        list.contains(dep) <==> exists|i: int|
            0 <= i < deps.len() && (#[trigger] deps[i]).kind is IfChange && buildable[i]
                && deps[i].dep->0 == dep),
{
    let p = paired(deps, buildable);
    let fb = |e: (DepView, bool)| build_dep(e);
    let b = p.filter_map(fb);
    assert(plan_of(row, exists, deps, buildable)[0] == (ItemView::Activate {
        deps: names(b),
        must: must_rebuild(row, exists, deps),
    }));
    if names(b).contains(dep) {
        let n = choose|n: int| 0 <= n < names(b).len() && names(b)[n] == dep;
        assert(b.contains(b[n]));
        lemma_mapped_back(p, fb, b[n]);
        let i = choose|i: int| 0 <= i < p.len() && fb(#[trigger] p[i]) == Some(b[n]);
        assert(deps[i].kind is IfChange && buildable[i]);
    }
    if exists|i: int|
        0 <= i < deps.len() && (#[trigger] deps[i]).kind is IfChange && buildable[i]
            && deps[i].dep->0 == dep {
        let i = choose|i: int|
            0 <= i < deps.len() && (#[trigger] deps[i]).kind is IfChange && buildable[i]
                && deps[i].dep->0 == dep;
        assert(p[i] == (deps[i], buildable[i]));
        assert(fb(p[i]) == Some((dep, deps[i].csum)));
        lemma_mapped(p, fb, i);
        let n = choose|n: int| 0 <= n < b.len() && b[n] == (dep, deps[i].csum);
        assert(names(b)[n] == dep);
    }
}

/// Checks are made one by one, in order, and no more once one failed: while all answers so
/// far were good the next check is asked for.
pub proof fn law_checks_go_in_order(plan: Seq<ItemView>, answers: Seq<Answer>, n: int)
    requires
        0 <= n <= answers.len(),
        plan.len() <= usize::MAX,
        n < plan.len(),
    ensures
        verdict_on(plan, answers.take(n)) == Verdict::Rebuild ==> verdict_on(plan, answers)
            == Verdict::Rebuild,
        verdict_on(plan, answers.take(n)) != Verdict::Rebuild ==> verdict_on(plan, answers.take(n))
            == Verdict::Ask(n as usize),
        verdict_on(plan, Seq::empty()) == Verdict::Ask(0usize),
{
    let part = answers.take(n);
    if verdict_on(plan, part) == Verdict::Rebuild {
        let i = choose|i: int|
            0 <= i < plan.len() && i < part.len() && !passes(#[trigger] plan[i], part[i]);
        assert(!passes(plan[i], answers[i]));
    }
}

/// A wait that entered the graph does not go unnoticed, so it is cleared.
pub proof fn law_inserted_waits_are_noticed(outcomes: Vec<SoftOutcome>, j: int)
    requires
        0 <= j < outcomes.len(),
        outcomes@[j] == SoftOutcome::Inserted,
    ensures
        recorded_wait(Answer::Edges(outcomes)),
{
    assert(outcomes@[j] is Inserted);
}

}
