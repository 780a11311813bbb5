//! Introspection: what redo knows about a project.
//!
//! The tree of recorded dependencies reflects the previous build, since
//! dependencies are discovered while do-files run; and a node's fan-out is an
//! upper bound on the parallelism there.

use crate::db::{
    dep_views, deps_of, file_row, generated, same_name, DepKind, DepView, FileView, Store,
    StoreView,
};
use crate::num::{digits, nat_text};
use crate::text::{cat, cat3, lists, lower, opt, same_folded, texts, to_lower};
use crate::order::{by_path, in_order, law_sorted, lemma_filter_in_order, sort_paths};
use crate::seqs::lemma_filter_step;
use vstd::prelude::*;

verus! {

/// The paths of the files that were built, or that were not, in the order of
/// their rows.
pub open spec fn paths_where(files: Seq<FileView>, built: bool) -> Seq<Seq<char>> {
    files.filter(|f: FileView| (f.dofile is Some) == built).map_values(|f: FileView| f.path)
}

fn list_files(store: &Store, built: bool) -> (out: Vec<String>)
    ensures
        texts(out@) == paths_where(store@.files, built),
{
    let ghost all = store@.files;
    let ghost p = |f: FileView| (f.dofile is Some) == built;
    let mut out: Vec<String> = Vec::new();
    assert(texts(out@) =~= all.take(0).filter(p).map_values(|f: FileView| f.path)) by {
        reveal(Seq::filter);
    }
    for i in 0..store.files.len()
        invariant
            all == store@.files,
            p == (|f: FileView| (f.dofile is Some) == built),
            texts(out@) == all.take(i as int).filter(p).map_values(|f: FileView| f.path),
    {
        let f = &store.files[i];
        let ghost before = texts(out@);
        proof {
            lemma_filter_step(all, i as int, p);
            assert(all[i as int] == f@);
        }
        if f.dofile.is_some() == built {
            out.push(f.path.clone());
            assert(texts(out@) =~= before.push(f@.path));
            assert(all.take(i + 1).filter(p).map_values(|f: FileView| f.path) =~= before.push(
                f@.path,
            ));
        }
    }
    assert(all.take(all.len() as int) =~= all);
    out
}

/// The known source files, in the order of their paths.
pub fn sources(store: &Store) -> (out: Vec<String>)
    ensures
        texts(out@) == by_path(paths_where(store@.files, false)),
{
    sort_paths(list_files(store, false).as_slice())
}

/// The known generated targets, in the order of their paths.
pub fn targets(store: &Store) -> (out: Vec<String>)
    ensures
        texts(out@) == by_path(paths_where(store@.files, true)),
{
    sort_paths(list_files(store, true).as_slice())
}

/// Whether some target depends on a path.
pub open spec fn depended_on(deps: Seq<DepView>, path: Seq<char>) -> bool {
    exists|i: int|
        0 <= i < deps.len() && (#[trigger] deps[i]).dep is Some && same_name(deps[i].dep->0, path)
}

/// The generated targets that no other target depends on, in the order of their
/// paths.
pub open spec fn tree_roots(st: StoreView) -> Seq<Seq<char>> {
    by_path(paths_where(st.files, true)).filter(|p: Seq<char>| !depended_on(st.deps, p))
}

fn is_dep(store: &Store, path: &str) -> (r: bool)
    ensures
        r == depended_on(store@.deps, path@),
{
    for i in 0..store.deps.len()
        invariant
            forall|k: int|
                0 <= k < i ==> !((#[trigger] store@.deps[k]).dep is Some && same_name(
                    store@.deps[k].dep->0,
                    path@,
                )),
    {
        assert(store@.deps[i as int] == store.deps@[i as int]@);
        if let Some(d) = &store.deps[i].dep {
            if same_folded(d.as_str(), path) {
                assert(store@.deps[i as int].dep == Some(d@));
                return true;
            }
        }
    }
    false
}

/// The generated targets that no other target depends on.
pub fn roots(store: &Store) -> (out: Vec<String>)
    ensures
        texts(out@) == tree_roots(store@),
{
    let built = targets(store);
    let ghost all = texts(built@);
    let ghost p = |p: Seq<char>| !depended_on(store@.deps, p);
    let mut out: Vec<String> = Vec::new();
    assert(all.take(0).filter(p) =~= Seq::<Seq<char>>::empty()) by {
        reveal(Seq::filter);
    }
    for i in 0..built.len()
        invariant
            all == texts(built@),
            p == (|p: Seq<char>| !depended_on(store@.deps, p)),
            texts(out@) == all.take(i as int).filter(p),
    {
        let ghost before = texts(out@);
        proof {
            lemma_filter_step(all, i as int, p);
            assert(all[i as int] == built@[i as int]@);
        }
        if !is_dep(store, built[i].as_str()) {
            out.push(built[i].clone());
            assert(texts(out@) =~= before.push(all[i as int]));
        }
    }
    assert(all.take(all.len() as int) =~= all);
    out
}

/// What is listed is in the order of its paths, in whatever order the files were
/// recorded.
pub proof fn law_listings_in_order(st: StoreView, built: bool)
    ensures
        in_order(by_path(paths_where(st.files, built))),
        in_order(tree_roots(st)),
{
    law_sorted(paths_where(st.files, built));
    law_sorted(paths_where(st.files, true));
    lemma_filter_in_order(
        by_path(paths_where(st.files, true)),
        |p: Seq<char>| !depended_on(st.deps, p),
    );
}

/// How many files a target depends on the content of.
pub open spec fn width(st: StoreView, target: Seq<char>) -> nat {
    deps_of(st.deps, target).filter(|d: DepView| d.kind is IfChange).len()
}

/// One node: the target, its do-file, and how many dependencies it has.
pub open spec fn node_line(st: StoreView, target: Seq<char>) -> Seq<char> {
    let w = digits(width(st, target));
    let head = target + match file_row(st.files, target) {
        Some(f) => match f.dofile {
            Some(d) => " ["@ + d + "]"@,
            None => Seq::empty(),
        },
        None => Seq::empty(),
    };
    if width(st, target) > 1 {
        head + (" ("@ + w + (" deps: parallel width up to "@ + w + ")"@))
    } else {
        head
    }
}

fn fan_out(store: &Store, target: &str) -> (n: usize)
    ensures
        n == width(store@, target@),
{
    let deps = store.read_deps(target);
    let ghost all = dep_views(deps@);
    let ghost p = |d: DepView| d.kind is IfChange;
    let mut n: usize = 0;
    assert(all.take(0).filter(p).len() == 0) by {
        reveal(Seq::filter);
    }
    for i in 0..deps.len()
        invariant
            all == dep_views(deps@),
            p == (|d: DepView| d.kind is IfChange),
            n <= i,
            n == all.take(i as int).filter(p).len(),
    {
        proof {
            lemma_filter_step(all, i as int, p);
            assert(all[i as int] == deps@[i as int]@);
        }
        if deps[i].kind == DepKind::IfChange {
            n = n + 1;
        }
    }
    assert(all.take(all.len() as int) =~= all);
    n
}

/// One node's display line.
pub fn tree_node_line(store: &Store, target: &str) -> (s: String)
    ensures
        s@ == node_line(store@, target@),
{
    let dofile = match store.file(target) {
        Some(f) => f.dofile,
        None => None,
    };
    let head = match dofile {
        Some(d) => {
            let tag = cat3(" [", d.as_str(), "]");
            cat(target, tag.as_str())
        },
        None => {
            assert(target@ + Seq::<char>::empty() =~= target@);
            target.to_owned()
        },
    };
    let n = fan_out(store, target);
    if n > 1 {
        let w = nat_text(n as u128);
        let tail = cat3(" deps: parallel width up to ", w.as_str(), ")");
        let tag = cat3(" (", w.as_str(), tail.as_str());
        cat(head.as_str(), tag.as_str())
    } else {
        head
    }
}

/// What is shown below a node.
pub struct Child {
    pub label: String,
    /// The target to go on with, if it is one.
    pub dep: Option<String>,
}

/// What is shown below a node, as a mathematical value.
pub struct ChildView {
    pub label: Seq<char>,
    pub dep: Option<Seq<char>>,
}

impl View for Child {
    type V = ChildView;

    open spec fn view(&self) -> ChildView {
        ChildView { label: self.label@, dep: opt(self.dep) }
    }
}

/// The views of a list of children.
pub open spec fn child_views(v: Seq<Child>) -> Seq<ChildView> {
    v.map_values(|c: Child| c@)
}

/// What an edge shows below its target. The do-file is shown on the node.
pub open spec fn edge_child(files: Seq<FileView>, d: DepView) -> Option<ChildView> {
    match d.kind {
        DepKind::DoFile => None,
        DepKind::Always => Some(
            ChildView { label: "(always: rebuilt every run)"@, dep: None },
        ),
        DepKind::Uncommitted => Some(
            ChildView { label: "(last build failed or crashed before committing)"@, dep: None },
        ),
        DepKind::IfCreate => Some(
            ChildView { label: d.dep->0 + " (must stay absent)"@, dep: None },
        ),
        DepKind::IfChange => if generated(files, d.dep->0) {
            Some(ChildView { label: d.dep->0, dep: Some(d.dep->0) })
        } else {
            Some(ChildView { label: d.dep->0 + " (source)"@, dep: None })
        },
    }
}

/// What is shown below a target.
pub open spec fn children_of(st: StoreView, target: Seq<char>) -> Seq<ChildView> {
    deps_of(st.deps, target).filter_map(|d: DepView| edge_child(st.files, d))
}

/// Whether every edge of a kind that has a dependency has one.
pub open spec fn complete(deps: Seq<DepView>) -> bool {
    forall|i: int| 0 <= i < deps.len() ==> crate::check::has_dep(#[trigger] deps[i])
}

fn children(store: &Store, target: &str) -> (out: Vec<Child>)
    requires
        complete(store@.deps),
    ensures
        child_views(out@) == children_of(store@, target@),
{
    let deps = store.read_deps(target);
    let ghost all = dep_views(deps@);
    let ghost f = |d: DepView| edge_child(store@.files, d);
    proof {
        crate::seqs::lemma_filter_holds(
            store@.deps,
            |d: DepView| same_name(d.target, target@),
        );
    }
    let mut out: Vec<Child> = Vec::new();
    assert(child_views(out@) =~= all.take(0).filter_map(f));
    for i in 0..deps.len()
        invariant
            complete(store@.deps),
            all == dep_views(deps@),
            forall|d: DepView| #[trigger] all.contains(d) ==> store@.deps.contains(d),
            f == (|d: DepView| edge_child(store@.files, d)),
            child_views(out@) == all.take(i as int).filter_map(f),
    {
        let d = &deps[i];
        let ghost before = child_views(out@);
        proof {
            all.lemma_filter_map_take_succ(f, i as int);
            assert(all[i as int] == d@);
            assert(all.contains(d@));
            let k = choose|k: int| 0 <= k < store@.deps.len() && store@.deps[k] == d@;
            assert(crate::check::has_dep(store@.deps[k]));
        }
        let name = match &d.dep {
            Some(s) => s.clone(),
            None => String::new(),
        };
        let child = match d.kind {
            DepKind::DoFile => None,
            DepKind::Always => Some(
                Child { label: "(always: rebuilt every run)".to_owned(), dep: None },
            ),
            DepKind::Uncommitted => Some(
                Child {
                    label: "(last build failed or crashed before committing)".to_owned(),
                    dep: None,
                },
            ),
            DepKind::IfCreate => Some(
                Child { label: cat(name.as_str(), " (must stay absent)"), dep: None },
            ),
            DepKind::IfChange => if store.is_generated(name.as_str()) {
                Some(Child { label: name.clone(), dep: Some(name) })
            } else {
                Some(Child { label: cat(name.as_str(), " (source)"), dep: None })
            },
        };
        match child {
            Some(c) => {
                let ghost cv = c@;
                assert(f(d@) == Some(cv));
                out.push(c);
                assert(child_views(out@) =~= before.push(cv));
            },
            None => {
                assert(f(d@) is None);
            },
        }
    }
    assert(all.take(all.len() as int) =~= all);
    out
}

/// The lines below a target, and the targets expanded so far. A target is
/// expanded once; later it is only referred to, which also ends the walk on
/// stale cyclic edges. `depth` bounds the nesting.
pub open spec fn below(
    st: StoreView,
    depth: nat,
    target: Seq<char>,
    prefix: Seq<char>,
    expanded: Seq<Seq<char>>,
) -> (Seq<Seq<char>>, Seq<Seq<char>>)
    decreases depth, 1nat, 0nat,
{
    if depth == 0 {
        (Seq::empty(), expanded)
    } else {
        let kids = children_of(st, target);
        each_child(st, depth, kids, kids.len(), prefix, expanded)
    }
}

/// The lines of the first `n` children.
pub open spec fn each_child(
    st: StoreView,
    depth: nat,
    kids: Seq<ChildView>,
    n: nat,
    prefix: Seq<char>,
    expanded: Seq<Seq<char>>,
) -> (Seq<Seq<char>>, Seq<Seq<char>>)
    decreases depth, 0nat, n,
    when depth > 0
{
    if n == 0 || n > kids.len() {
        (Seq::empty(), expanded)
    } else {
        let front = each_child(st, depth, kids, (n - 1) as nat, prefix, expanded);
        let kid = kids[n - 1];
        let branch = if n == kids.len() {
            "└── "@
        } else {
            "├── "@
        };
        let cont = if n == kids.len() {
            "    "@
        } else {
            "│   "@
        };
        match kid.dep {
            None => (front.0.push(prefix + branch + kid.label), front.1),
            Some(d) => if front.1.contains(lower(d)) {
                (front.0.push(prefix + branch + (kid.label + " (shown above)"@)), front.1)
            } else {
                let sub = below(
                    st,
                    (depth - 1) as nat,
                    d,
                    prefix + cont,
                    front.1.push(lower(d)),
                );
                (front.0.push(prefix + branch + node_line(st, d)) + sub.0, sub.1)
            },
        }
    }
}

fn append_lines(to: &mut Vec<String>, from: &mut Vec<String>)
    ensures
        texts(final(to)@) == texts(old(to)@) + texts(old(from)@),
{
    let ghost a = to@;
    let ghost b = from@;
    to.append(from);
    assert(texts(to@) =~= texts(a) + texts(b));
}

/// The lines below a target.
pub fn print_tree(
    store: &Store,
    depth: usize,
    target: &str,
    prefix: &str,
    expanded: &mut Vec<String>,
) -> (out: Vec<String>)
    requires
        complete(store@.deps),
    ensures
        (texts(out@), texts(final(expanded)@)) == below(
            store@,
            depth as nat,
            target@,
            prefix@,
            texts(old(expanded)@),
        ),
    decreases depth,
{
    let mut out: Vec<String> = Vec::new();
    assert(texts(out@) =~= Seq::<Seq<char>>::empty());
    if depth == 0 {
        return out;
    }
    let ghost start = texts(expanded@);
    let kids = children(store, target);
    let ghost kv = child_views(kids@);
    for i in 0..kids.len()
        invariant
            complete(store@.deps),
            depth > 0,
            kv == child_views(kids@),
            (texts(out@), texts(expanded@)) == each_child(
                store@,
                depth as nat,
                kv,
                i as nat,
                prefix@,
                start,
            ),
    {
        let kid = &kids[i];
        assert(kv[i as int] == kid@);
        let ghost before = texts(out@);
        let ghost seen = texts(expanded@);
        let last = i + 1 == kids.len();
        let branch = if last {
            "└── "
        } else {
            "├── "
        };
        let cont = if last {
            "    "
        } else {
            "│   "
        };
        match &kid.dep {
            None => {
                let line = cat3(prefix, branch, kid.label.as_str());
                let ghost lv = line@;
                out.push(line);
                assert(texts(out@) =~= before.push(lv));
            },
            Some(d) => {
                let folded = to_lower(d.as_str());
                if lists(expanded.as_slice(), folded.as_str()) {
                    let note = cat(kid.label.as_str(), " (shown above)");
                    let line = cat3(prefix, branch, note.as_str());
                    let ghost lv = line@;
                    out.push(line);
                    assert(texts(out@) =~= before.push(lv));
                } else {
                    expanded.push(folded);
                    assert(texts(expanded@) =~= seen.push(lower(d@)));
                    let node = tree_node_line(store, d.as_str());
                    let line = cat3(prefix, branch, node.as_str());
                    let ghost lv = line@;
                    out.push(line);
                    assert(texts(out@) =~= before.push(lv));
                    let deeper = cat(prefix, cont);
                    let mut sub = print_tree(
                        store,
                        depth - 1,
                        d.as_str(),
                        deeper.as_str(),
                        expanded,
                    );
                    append_lines(&mut out, &mut sub);
                }
            },
        }
    }
    out
}

/// Whether redo knows nothing of a target.
pub open spec fn unknown(st: StoreView, target: Seq<char>) -> bool {
    file_row(st.files, target) is None && deps_of(st.deps, target).len() == 0
}

/// How deep a tree can nest: each level expands a target that an edge leads to.
pub open spec fn depth_bound(st: StoreView) -> nat {
    st.deps.len() + 1
}

/// The lines of the trees of some targets, with an empty line between them, and
/// the targets expanded.
pub open spec fn forest(st: StoreView, list: Seq<Seq<char>>) -> (Seq<Seq<char>>, Seq<Seq<char>>)
    decreases list.len(),
{
    if list.len() == 0 {
        (Seq::empty(), Seq::empty())
    } else {
        let front = forest(st, list.drop_last());
        let t = list.last();
        let head = if list.len() > 1 {
            front.0.push(Seq::empty())
        } else {
            front.0
        };
        if unknown(st, t) {
            (head.push(t + " (nothing recorded: never built by redo)"@), front.1)
        } else {
            let sub = below(st, depth_bound(st), t, Seq::empty(), front.1.push(lower(t)));
            (head.push(node_line(st, t)) + sub.0, sub.1)
        }
    }
}

/// The dependency trees that the last run recorded, as lines.
pub fn cmd_tree(store: &Store, list: &[String]) -> (out: Vec<String>)
    requires
        complete(store@.deps),
        store.deps.len() < usize::MAX,
    ensures
        texts(out@) == forest(store@, texts(list@)).0,
{
    let mut out: Vec<String> = Vec::new();
    let mut expanded: Vec<String> = Vec::new();
    let depth: usize = store.deps.len() + 1;
    let ghost all = texts(list@);
    assert(texts(out@) =~= Seq::<Seq<char>>::empty());
    assert(texts(expanded@) =~= Seq::<Seq<char>>::empty());
    assert(store@.deps.len() == store.deps.len());
    for i in 0..list.len()
        invariant
            complete(store@.deps),
            all == texts(list@),
            depth == depth_bound(store@),
            (texts(out@), texts(expanded@)) == forest(store@, all.take(i as int)),
    {
        let t = list[i].as_str();
        let ghost part = all.take(i + 1);
        assert(part.drop_last() =~= all.take(i as int));
        assert(part.last() == t@);
        let ghost before = texts(out@);
        if i > 0 {
            out.push(String::new());
            assert(texts(out@) =~= before.push(Seq::<char>::empty()));
        }
        let ghost head = texts(out@);
        let deps = store.read_deps(t);
        assert(dep_views(deps@).len() == deps.len());
        if store.files_row(t).is_none() && deps.len() == 0 {
            let line = cat(t, " (nothing recorded: never built by redo)");
            let ghost lv = line@;
            out.push(line);
            assert(texts(out@) =~= head.push(lv));
        } else {
            let ghost seen = texts(expanded@);
            expanded.push(to_lower(t));
            assert(texts(expanded@) =~= seen.push(lower(t@)));
            let line = tree_node_line(store, t);
            let ghost lv = line@;
            out.push(line);
            assert(texts(out@) =~= head.push(lv));
            proof {
                reveal_strlit("");
                assert(""@ =~= Seq::<char>::empty());
            }
            let mut sub = print_tree(store, depth, t, "", &mut expanded);
            append_lines(&mut out, &mut sub);
        }
    }
    assert(all.take(all.len() as int) =~= all);
    out
}

/// The folded names that edges lead to.
spec fn edge_names(st: StoreView) -> Seq<Seq<char>> {
    st.deps.map_values(
        |d: DepView|
            match d.dep {
                Some(n) => lower(n),
                None => Seq::empty(),
            },
    )
}

/// The names that edges lead to and that were not expanded yet.
spec fn remaining(st: StoreView, expanded: Seq<Seq<char>>) -> Set<Seq<char>> {
    edge_names(st).to_set().filter(|n: Seq<char>| !expanded.contains(n))
}

/// Whether every child to go on with is a name that an edge leads to.
spec fn lead_on(st: StoreView, kids: Seq<ChildView>) -> bool {
    forall|i: int|
        0 <= i < kids.len() ==> ((#[trigger] kids[i]).dep is Some ==> edge_names(st).contains(
            lower(kids[i].dep->0),
        ))
}

proof fn lemma_children_lead_on(st: StoreView, target: Seq<char>)
    requires
        complete(st.deps),
    ensures
        lead_on(st, children_of(st, target)),
{
    let deps = deps_of(st.deps, target);
    let f = |d: DepView| edge_child(st.files, d);
    let kids = children_of(st, target);
    crate::seqs::lemma_filter_holds(st.deps, |d: DepView| same_name(d.target, target));
    assert forall|i: int| 0 <= i < kids.len() && (#[trigger] kids[i]).dep is Some implies edge_names(
        st,
    ).contains(lower(kids[i].dep->0)) by {
        assert(kids.contains(kids[i]));
        deps.lemma_filter_map_contains(f, kids[i]);
        let d = choose|d: DepView| #[trigger] deps.contains(d) && f(d) == Some(kids[i]);
        assert(st.deps.contains(d));
        let k = choose|k: int| 0 <= k < st.deps.len() && st.deps[k] == d;
        assert(crate::check::has_dep(st.deps[k]));
        assert(edge_names(st)[k] == lower(kids[i].dep->0));
    }
}

/// What is left to expand only shrinks.
proof fn lemma_remaining_shrinks(st: StoreView, a: Seq<Seq<char>>, b: Seq<Seq<char>>)
    requires
        forall|x: Seq<char>| #[trigger] a.contains(x) ==> b.contains(x),
    ensures
        remaining(st, a).finite(),
        remaining(st, b).len() <= remaining(st, a).len(),
        remaining(st, a).len() <= st.deps.len(),
{
    let names = edge_names(st);
    vstd::seq_lib::seq_to_set_is_finite(names);
    names.lemma_cardinality_of_set();
    assert(remaining(st, b).subset_of(remaining(st, a)));
    assert(remaining(st, a).subset_of(names.to_set()));
    vstd::set_lib::lemma_len_subset(remaining(st, a), names.to_set());
    vstd::set_lib::lemma_len_subset(remaining(st, b), remaining(st, a));
}

/// A name that is expanded is no longer left.
proof fn lemma_remaining_drops(st: StoreView, a: Seq<Seq<char>>, x: Seq<char>)
    requires
        edge_names(st).contains(x),
        !a.contains(x),
    ensures
        remaining(st, a.push(x)).len() + 1 <= remaining(st, a).len(),
{
    assert forall|y: Seq<char>| #[trigger] a.contains(y) implies a.push(x).contains(y) by {
        let k = choose|k: int| 0 <= k < a.len() && a[k] == y;
        assert(a.push(x)[k] == y);
    }
    lemma_remaining_shrinks(st, a, a);
    assert(a.push(x)[a.len() as int] == x);
    assert(a.push(x).contains(x));
    let r = remaining(st, a);
    assert(r.contains(x));
    assert(remaining(st, a.push(x)).subset_of(r.remove(x)));
    vstd::set_lib::lemma_len_subset(remaining(st, a.push(x)), r.remove(x));
}

proof fn lemma_below_stable(
    st: StoreView,
    depth: nat,
    target: Seq<char>,
    prefix: Seq<char>,
    expanded: Seq<Seq<char>>,
)
    requires
        complete(st.deps),
        depth > remaining(st, expanded).len(),
    ensures
        below(st, depth, target, prefix, expanded) == below(
            st,
            depth + 1,
            target,
            prefix,
            expanded,
        ),
        forall|x: Seq<char>| #[trigger]
            expanded.contains(x) ==> below(st, depth, target, prefix, expanded).1.contains(x),
    decreases depth, 1nat, 0nat,
{
    let kids = children_of(st, target);
    lemma_children_lead_on(st, target);
    lemma_each_stable(st, depth, kids, kids.len(), prefix, expanded);
}

proof fn lemma_each_stable(
    st: StoreView,
    depth: nat,
    kids: Seq<ChildView>,
    n: nat,
    prefix: Seq<char>,
    expanded: Seq<Seq<char>>,
)
    requires
        complete(st.deps),
        lead_on(st, kids),
        depth > remaining(st, expanded).len(),
    ensures
        each_child(st, depth, kids, n, prefix, expanded) == each_child(
            st,
            depth + 1,
            kids,
            n,
            prefix,
            expanded,
        ),
        forall|x: Seq<char>| #[trigger]
            expanded.contains(x) ==> each_child(
                st,
                depth,
                kids,
                n,
                prefix,
                expanded,
            ).1.contains(x),
    decreases depth, 0nat, n,
{
    if n > 0 && n <= kids.len() {
        lemma_each_stable(st, depth, kids, (n - 1) as nat, prefix, expanded);
        let front = each_child(st, depth, kids, (n - 1) as nat, prefix, expanded);
        let kid = kids[n - 1];
        match kid.dep {
            Some(d) => {
                if !front.1.contains(lower(d)) {
                    let cont = if n == kids.len() {
                        "    "@
                    } else {
                        "│   "@
                    };
                    let seen = front.1.push(lower(d));
                    lemma_remaining_shrinks(st, expanded, front.1);
                    assert(edge_names(st).contains(lower(kids[n - 1].dep->0)));
                    lemma_remaining_drops(st, front.1, lower(d));
                    lemma_below_stable(st, (depth - 1) as nat, d, prefix + cont, seen);
                    let sub = below(st, (depth - 1) as nat, d, prefix + cont, seen);
                    assert(sub == below(st, depth, d, prefix + cont, seen));
                    assert forall|x: Seq<char>| #[trigger] expanded.contains(x) implies sub.1.contains(
                        x,
                    ) by {
                        assert(front.1.contains(x));
                        let k = choose|k: int| 0 <= k < front.1.len() && front.1[k] == x;
                        assert(seen[k] == x);
                        assert(seen.contains(x));
                    }
                }
            },
            None => {},
        }
    }
}

/// The bound on the nesting cuts nothing off: a tree is the same with any
/// greater bound, whatever cycles the edges have.
pub proof fn law_tree_is_whole(
    st: StoreView,
    target: Seq<char>,
    prefix: Seq<char>,
    expanded: Seq<Seq<char>>,
    more: nat,
)
    requires
        complete(st.deps),
    ensures
        below(st, depth_bound(st), target, prefix, expanded) == below(
            st,
            depth_bound(st) + more,
            target,
            prefix,
            expanded,
        ),
    decreases more,
{
    lemma_remaining_shrinks(st, expanded, expanded);
    if more > 0 {
        law_tree_is_whole(st, target, prefix, expanded, (more - 1) as nat);
        lemma_below_stable(
            st,
            depth_bound(st) + (more - 1) as nat,
            target,
            prefix,
            expanded,
        );
    }
}

/// What is listed is what is recorded: a path is among the sources if it has a row without a
/// do-file, among the targets if it has one with; and a target is a root of the tree if no edge
/// leads to it, under whatever casing.
pub proof fn law_listings_are_complete(st: StoreView, built: bool, path: Seq<char>)
    ensures
        by_path(paths_where(st.files, built)).contains(path) <==> exists|i: int|
            0 <= i < st.files.len() && (#[trigger] st.files[i]).path == path
                && st.files[i].dofile is Some == built,
        tree_roots(st).contains(path) <==> by_path(paths_where(st.files, true)).contains(path)
            && forall|k: int|
            0 <= k < st.deps.len() && (#[trigger] st.deps[k]).dep is Some ==> lower(
                st.deps[k].dep->0,
            ) != lower(path),
        by_path(paths_where(st.files, true)).len() + by_path(paths_where(st.files, false)).len()
            == st.files.len(),
{
    let p = |f: FileView| (f.dofile is Some) == built;
    let kept = st.files.filter(p);
    let list = paths_where(st.files, built);
    lemma_by_path_holds(list, path);
    crate::seqs::lemma_filter_holds(st.files, p);
    if list.contains(path) {
        let k = choose|k: int| 0 <= k < list.len() && list[k] == path;
        assert(kept.contains(kept[k]));
        let i = choose|i: int| 0 <= i < st.files.len() && st.files[i] == kept[k];
        assert(st.files[i].path == path);
    }
    if exists|i: int|
        0 <= i < st.files.len() && (#[trigger] st.files[i]).path == path && st.files[i].dofile
            is Some == built {
        let i = choose|i: int|
            0 <= i < st.files.len() && (#[trigger] st.files[i]).path == path && st.files[i].dofile
                is Some == built;
        assert(st.files.contains(st.files[i]));
        assert(kept.contains(st.files[i]));
        let k = choose|k: int| 0 <= k < kept.len() && kept[k] == st.files[i];
        assert(list[k] == path);
    }
    let q = |p: Seq<char>| !depended_on(st.deps, p);
    crate::seqs::lemma_filter_holds(by_path(paths_where(st.files, true)), q);
    if !depended_on(st.deps, path) {
        assert forall|k: int| 0 <= k < st.deps.len() && (#[trigger] st.deps[k]).dep
            is Some implies lower(st.deps[k].dep->0) != lower(path) by {}
    }
    lemma_by_path_holds(paths_where(st.files, true), path);
    lemma_by_path_holds(paths_where(st.files, false), path);
    lemma_filter_sizes(st.files);
}

proof fn lemma_by_path_holds(list: Seq<Seq<char>>, path: Seq<char>)
    ensures
        by_path(list).contains(path) <==> list.contains(path),
        by_path(list).len() == list.len(),
{
    law_sorted(list);
    list.to_multiset_ensures();
    by_path(list).to_multiset_ensures();
    assert(list.contains(path) <==> list.to_multiset().count(path) > 0);
    assert(by_path(list).contains(path) <==> by_path(list).to_multiset().count(path) > 0);
}

proof fn lemma_filter_sizes(files: Seq<FileView>)
    ensures
        files.filter(|f: FileView| (f.dofile is Some) == true).len() + files.filter(
            |f: FileView| (f.dofile is Some) == false,
        ).len() == files.len(),
    decreases files.len(),
{
    reveal(Seq::filter);
    if files.len() > 0 {
        lemma_filter_sizes(files.drop_last());
    }
}

/// What a node shows of its edges: a dependency on a content is shown, to go on with if it is a
/// target; one on an absence, and what makes the target always outdated, are shown and lead no
/// further; the do-file is not shown below.
pub proof fn law_edges_show_as(files: Seq<FileView>, d: DepView)
    ensures
        d.kind is DoFile <==> edge_child(files, d) is None,
        d.kind is IfChange ==> edge_child(files, d) is Some,
        d.kind is IfChange && generated(files, d.dep->0) ==> edge_child(files, d)->0.label
            == d.dep->0 && edge_child(files, d)->0.dep == Some(d.dep->0),
        d.kind is IfChange && !generated(files, d.dep->0) ==> edge_child(files, d)->0.label
            == d.dep->0 + " (source)"@ && edge_child(files, d)->0.dep is None,
        d.kind is IfCreate ==> edge_child(files, d)->0.label == d.dep->0 + " (must stay absent)"@
            && edge_child(files, d)->0.dep is None,
        d.kind is Always || d.kind is Uncommitted ==> edge_child(files, d)->0.dep is None,
{
}

/// Every child of a node is shown below it: under the node's prefix and a branch, as what it is
/// if it leads no further, as a node of its own, or, where it was shown before, with a note of
/// that.
pub proof fn law_children_are_shown(
    st: StoreView,
    depth: nat,
    target: Seq<char>,
    prefix: Seq<char>,
    expanded: Seq<Seq<char>>,
    i: int,
)
    requires
        depth > 0,
        0 <= i < children_of(st, target).len(),
    ensures
        ({
            let kid = children_of(st, target)[i];
            let branch = if i == children_of(st, target).len() - 1 {
                "└── "@
            } else {
                "├── "@
            };
            let lines = below(st, depth, target, prefix, expanded).0;
            match kid.dep {
                None => lines.contains(prefix + branch + kid.label),
                Some(d) => lines.contains(prefix + branch + node_line(st, d)) || lines.contains(
                    prefix + branch + (kid.label + " (shown above)"@),
                ),
            }
        }),
{
    let kids = children_of(st, target);
    lemma_child_line(st, depth, kids, kids.len(), prefix, expanded, i);
}

proof fn lemma_child_line(
    st: StoreView,
    depth: nat,
    kids: Seq<ChildView>,
    n: nat,
    prefix: Seq<char>,
    expanded: Seq<Seq<char>>,
    i: int,
)
    requires
        depth > 0,
        0 <= i < n <= kids.len(),
    ensures
        ({
            let kid = kids[i];
            let branch = if i == kids.len() - 1 {
                "└── "@
            } else {
                "├── "@
            };
            let lines = each_child(st, depth, kids, n, prefix, expanded).0;
            match kid.dep {
                None => lines.contains(prefix + branch + kid.label),
                Some(d) => lines.contains(prefix + branch + node_line(st, d)) || lines.contains(
                    prefix + branch + (kid.label + " (shown above)"@),
                ),
            }
        }),
    decreases n,
{
    let front = each_child(st, depth, kids, (n - 1) as nat, prefix, expanded);
    let lines = each_child(st, depth, kids, n, prefix, expanded).0;
    let branch = if i == kids.len() - 1 {
        "└── "@
    } else {
        "├── "@
    };
    let m = front.0.len() as int;
    if i == n - 1 {
        match kids[i].dep {
            None => {
                assert(lines[m] == prefix + branch + kids[i].label);
            },
            Some(d) => {
                if front.1.contains(lower(d)) {
                    assert(lines[m] == prefix + branch + (kids[i].label + " (shown above)"@));
                } else {
                    assert(lines[m] == prefix + branch + node_line(st, d));
                }
            },
        }
    } else {
        lemma_child_line(st, depth, kids, (n - 1) as nat, prefix, expanded, i);
        assert forall|x: Seq<char>| #[trigger] front.0.contains(x) implies lines.contains(x) by {
            let k = choose|k: int| 0 <= k < front.0.len() && front.0[k] == x;
            assert(lines[k] == x);
        }
    }
}

proof fn lemma_expanded_stays(
    st: StoreView,
    depth: nat,
    kids: Seq<ChildView>,
    n: nat,
    prefix: Seq<char>,
    expanded: Seq<Seq<char>>,
    x: Seq<char>,
)
    requires
        depth > 0,
        n <= kids.len(),
        expanded.contains(x),
    ensures
        each_child(st, depth, kids, n, prefix, expanded).1.contains(x),
    decreases depth, n,
{
    reveal_with_fuel(below, 2);
    reveal_with_fuel(each_child, 2);
    if n > 0 {
        lemma_expanded_stays(st, depth, kids, (n - 1) as nat, prefix, expanded, x);
        let front = each_child(st, depth, kids, (n - 1) as nat, prefix, expanded);
        if let Some(d) = kids[n - 1].dep {
            if !front.1.contains(lower(d)) && depth > 1 {
                let more = front.1.push(lower(d));
                let k = choose|k: int| 0 <= k < front.1.len() && front.1[k] == x;
                assert(more[k] == x);
                let below_kids = children_of(st, d);
                let cont = if n == kids.len() {
                    "    "@
                } else {
                    "│   "@
                };
                lemma_expanded_stays(
                    st,
                    (depth - 1) as nat,
                    below_kids,
                    below_kids.len(),
                    prefix + cont,
                    more,
                    x,
                );
            } else if !front.1.contains(lower(d)) {
                let more = front.1.push(lower(d));
                let k = choose|k: int| 0 <= k < front.1.len() && front.1[k] == x;
                assert(more[k] == x);
            }
        }
    }
}

/// A target is shown in full once, the first time the tree comes to it; from then on, under
/// whatever casing, it is only referred to.
pub proof fn law_targets_are_expanded_once(
    st: StoreView,
    depth: nat,
    kids: Seq<ChildView>,
    i: int,
    prefix: Seq<char>,
    expanded: Seq<Seq<char>>,
    d: Seq<char>,
)
    requires
        depth > 0,
        0 <= i < kids.len(),
        kids[i].dep == Some(d),
    ensures
        ({
            let before = each_child(st, depth, kids, i as nat, prefix, expanded);
            let after = each_child(st, depth, kids, (i + 1) as nat, prefix, expanded);
            let branch = if i == kids.len() - 1 {
                "└── "@
            } else {
                "├── "@
            };
            &&& before.1.contains(lower(d)) ==> after.0 == before.0.push(
                prefix + branch + (kids[i].label + " (shown above)"@),
            ) && after.1 == before.1
            &&& !before.1.contains(lower(d)) ==> after.0.len() > before.0.len()
                && after.0[before.0.len() as int] == prefix + branch + node_line(st, d)
            &&& after.1.contains(lower(d))
            &&& forall|x: Seq<char>| #[trigger]
                expanded.contains(x) ==> before.1.contains(x)
        }),
{
    reveal_with_fuel(below, 2);
    reveal_with_fuel(each_child, 2);
    let before = each_child(st, depth, kids, i as nat, prefix, expanded);
    if !before.1.contains(lower(d)) {
        let more = before.1.push(lower(d));
        assert(more[before.1.len() as int] == lower(d));
        if depth > 1 {
            let cont = if i + 1 == kids.len() {
                "    "@
            } else {
                "│   "@
            };
            let below_kids = children_of(st, d);
            lemma_expanded_stays(
                st,
                (depth - 1) as nat,
                below_kids,
                below_kids.len(),
                prefix + cont,
                more,
                lower(d),
            );
        }
    }
    assert forall|x: Seq<char>| #[trigger] expanded.contains(x) implies before.1.contains(x) by {
        lemma_expanded_stays(st, depth, kids, i as nat, prefix, expanded, x);
    }
}

/// Each target that is named is shown: as a node, or with a note that nothing is recorded of it.
pub proof fn law_named_targets_are_shown(st: StoreView, list: Seq<Seq<char>>, i: int)
    requires
        0 <= i < list.len(),
    ensures
        ({
            let lines = forest(st, list).0;
            let known = (exists|k: int|
                0 <= k < st.files.len() && lower((#[trigger] st.files[k]).path) == lower(list[i]))
                || exists|k: int|
                0 <= k < st.deps.len() && lower((#[trigger] st.deps[k]).target) == lower(list[i]);
            &&& known ==> lines.contains(node_line(st, list[i]))
            &&& !known ==> lines.contains(
                list[i] + " (nothing recorded: never built by redo)"@,
            )
        }),
    decreases list.len(),
{
    let init = list.drop_last();
    let front = forest(st, init).0;
    let lines = forest(st, list).0;
    let t = list[i];
    lemma_unknown(st, t);
    if i < init.len() {
        law_named_targets_are_shown(st, init, i);
        assert(init[i] == t);
        assert forall|x: Seq<char>| #[trigger] front.contains(x) implies lines.contains(x) by {
            let k = choose|k: int| 0 <= k < front.len() && front[k] == x;
            assert(lines[k] == x);
        }
    } else {
        let head = if list.len() > 1 {
            front.push(Seq::empty())
        } else {
            front
        };
        if unknown(st, t) {
            assert(lines[head.len() as int] == t + " (nothing recorded: never built by redo)"@);
        } else {
            assert(lines[head.len() as int] == node_line(st, t));
        }
    }
}

proof fn lemma_unknown(st: StoreView, t: Seq<char>)
    ensures
        !unknown(st, t) <==> (exists|k: int|
            0 <= k < st.files.len() && lower((#[trigger] st.files[k]).path) == lower(t))
            || exists|k: int|
            0 <= k < st.deps.len() && lower((#[trigger] st.deps[k]).target) == lower(t),
{
    crate::db::law_row_is_found(st.files, t);
    let p = |d: DepView| crate::db::same_name(d.target, t);
    crate::seqs::lemma_filter_holds(st.deps, p);
    let own = deps_of(st.deps, t);
    if let Some(f) = file_row(st.files, t) {
        let k = choose|k: int| 0 <= k < st.files.len() && st.files[k] == f;
        assert(lower(st.files[k].path) == lower(t));
    }
    if own.len() > 0 {
        assert(own.contains(own[0]));
        let k = choose|k: int| 0 <= k < st.deps.len() && st.deps[k] == own[0];
        assert(lower(st.deps[k].target) == lower(t));
    }
    if exists|k: int| 0 <= k < st.deps.len() && lower((#[trigger] st.deps[k]).target) == lower(t) {
        let k = choose|k: int|
            0 <= k < st.deps.len() && lower((#[trigger] st.deps[k]).target) == lower(t);
        assert(st.deps.contains(st.deps[k]));
        assert(own.contains(st.deps[k]));
    }
}

/// A node says its target, the do-file that built it, and, if it waits for more than one file, for
/// how many.
pub proof fn law_nodes_say_how_they_are_built(st: StoreView, target: Seq<char>, f: FileView)
    requires
        file_row(st.files, target) == Some(f),
    ensures
        crate::text::starts(node_line(st, target), target),
        f.dofile matches Some(d) ==> crate::text::starts(
            node_line(st, target),
            target + (" ["@ + d + "]"@),
        ),
        width(st, target) <= 1 && f.dofile is None ==> node_line(st, target) == target,
        width(st, target) == 0 <==> forall|k: int|
            0 <= k < st.deps.len() && lower((#[trigger] st.deps[k]).target) == lower(target)
                ==> !(st.deps[k].kind is IfChange),
{
    let line = node_line(st, target);
    assert(line.take(target.len() as int) =~= target);
    if let Some(d) = f.dofile {
        let head = target + (" ["@ + d + "]"@);
        assert(line.take(head.len() as int) =~= head);
    }
    let own = deps_of(st.deps, target);
    let p = |d: DepView| crate::db::same_name(d.target, target);
    let q = |d: DepView| d.kind is IfChange;
    crate::seqs::lemma_filter_holds(st.deps, p);
    crate::seqs::lemma_filter_holds(own, q);
    let wide = own.filter(q);
    if wide.len() > 0 {
        assert(wide.contains(wide[0]));
        assert(own.contains(wide[0]));
        let k = choose|k: int| 0 <= k < st.deps.len() && st.deps[k] == wide[0];
        assert(lower(st.deps[k].target) == lower(target));
    }
    if exists|k: int|
        0 <= k < st.deps.len() && lower((#[trigger] st.deps[k]).target) == lower(target)
            && st.deps[k].kind is IfChange {
        let k = choose|k: int|
            0 <= k < st.deps.len() && lower((#[trigger] st.deps[k]).target) == lower(target)
                && st.deps[k].kind is IfChange;
        assert(st.deps.contains(st.deps[k]));
        assert(own.contains(st.deps[k]));
        assert(wide.contains(st.deps[k]));
    }
    assert(target + Seq::<char>::empty() =~= target);
}

}
