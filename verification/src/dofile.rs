//! Do-file resolution.
//!
//! Search order for target `sub/app.txt` under root `R`:
//!   1. `R/sub/app.txt.do` (exact, in the target's directory);
//!   2. `R/sub/default.txt.do`, `R/sub/default.do` (defaults, in the target's
//!      directory, longest extension first);
//!   3. `R/default.txt.do`, `R/default.do` (defaults, in each ancestor up to the
//!      root), with the arguments carrying the subdirectory.
//!
//! The ascent stops at the **project root**, so a project embedded in another
//! never escapes its own root. Every candidate that does *not* exist becomes an
//! `ifcreate` dependency of the target: creating a more specific do-file later
//! invalidates it.

use crate::paths::{joined, parsed, FsPath};
use crate::root::Root;
use crate::text::{cat, cat3, count, join, join_with, lists, split, split_on, texts};
use vstd::prelude::*;

verus! {

/// A resolved do-file and the arguments to invoke it with.
#[derive(Debug, Clone)]
pub struct DoFile {
    /// Absolute path of the do-file.
    pub dofile_abs: FsPath,
    /// Root-relative path of the do-file.
    pub dofile_rel: String,
    /// The directory the do-file runs in: the one that contains it.
    pub dodir_abs: FsPath,
    /// `$1`: the target relative to that directory.
    pub arg_target: String,
    /// `$2`: `$1` with the matched extension removed.
    pub arg_base: String,
}

/// A candidate considered during resolution.
#[derive(Debug, Clone, PartialEq, Eq)]
pub struct Candidate {
    pub dofile_rel: String,
    /// Root-relative directory of the do-file; empty for the root.
    pub dodir_rel: String,
    pub arg_target: String,
    pub arg_base: String,
}

/// A candidate, as a mathematical value.
#[verifier::ext_equal]
pub struct CandView {
    pub dofile_rel: Seq<char>,
    pub dodir_rel: Seq<char>,
    pub arg_target: Seq<char>,
    pub arg_base: Seq<char>,
}

impl View for Candidate {
    type V = CandView;

    open spec fn view(&self) -> CandView {
        CandView {
            dofile_rel: self.dofile_rel@,
            dodir_rel: self.dodir_rel@,
            arg_target: self.arg_target@,
            arg_base: self.arg_base@,
        }
    }
}

/// The views of a list of candidates.
pub open spec fn cands(v: Seq<Candidate>) -> Seq<CandView> {
    v.map_values(|c: Candidate| c@)
}

/// `b` below `a`, where either may be empty.
pub open spec fn rel_join(a: Seq<char>, b: Seq<char>) -> Seq<char> {
    if a.len() == 0 {
        b
    } else if b.len() == 0 {
        a
    } else {
        a + "/"@ + b
    }
}

/// A name, which may be empty, in a directory, which may be the current one.
pub open spec fn name_in(dir: Seq<char>, name: Seq<char>) -> Seq<char> {
    if dir.len() == 0 {
        name
    } else {
        dir + "/"@ + name
    }
}

/// The parts of a root-relative path.
pub open spec fn path_parts(target: Seq<char>) -> Seq<Seq<char>> {
    split(target, '/').filter(|p: Seq<char>| p.len() > 0)
}

/// The `i`-th default do-file for a name: it matches what follows the `i`-th
/// dot.
pub open spec fn default_name(name: Seq<char>, i: int) -> Seq<char> {
    let parts = split(name, '.');
    if i == parts.len() {
        "default.do"@
    } else {
        "default."@ + join(parts.skip(i), "."@) + ".do"@
    }
}

/// What precedes the extension that the `i`-th default matches.
pub open spec fn default_base(name: Seq<char>, i: int) -> Seq<char> {
    join(split(name, '.').take(i), "."@)
}

/// The extension that the `i`-th default matches, with its dot; empty for the
/// default that matches every name.
pub open spec fn default_ext(name: Seq<char>, i: int) -> Seq<char> {
    let parts = split(name, '.');
    if i == parts.len() {
        Seq::empty()
    } else {
        "."@ + join(parts.skip(i), "."@)
    }
}

/// The exact candidate.
pub open spec fn exact_cand(dirs: Seq<Seq<char>>, name: Seq<char>) -> CandView {
    CandView {
        dofile_rel: rel_join(join(dirs, "/"@), name + ".do"@),
        dodir_rel: join(dirs, "/"@),
        arg_target: name,
        arg_base: name,
    }
}

/// The `i`-th default candidate in the ancestor directory made of the first `k`
/// parts.
pub open spec fn default_cand(
    dirs: Seq<Seq<char>>,
    name: Seq<char>,
    k: int,
    i: int,
) -> CandView {
    let dodir = join(dirs.take(k), "/"@);
    let subdir = join(dirs.skip(k), "/"@);
    CandView {
        dofile_rel: rel_join(dodir, default_name(name, i)),
        dodir_rel: dodir,
        arg_target: rel_join(subdir, name),
        arg_base: name_in(subdir, default_base(name, i)),
    }
}

/// The default candidates in one directory, longest extension first.
pub open spec fn level_cands(dirs: Seq<Seq<char>>, name: Seq<char>, k: int) -> Seq<CandView> {
    Seq::new(split(name, '.').len(), |i: int| default_cand(dirs, name, k, i + 1))
}

/// The default candidates in a directory and its ancestors up to the root,
/// nearest first.
pub open spec fn default_cands(dirs: Seq<Seq<char>>, name: Seq<char>, k: int) -> Seq<CandView>
    decreases k,
{
    if k <= 0 {
        level_cands(dirs, name, 0)
    } else {
        level_cands(dirs, name, k) + default_cands(dirs, name, k - 1)
    }
}

/// The candidates for a target, in order.
pub open spec fn candidates_of(target: Seq<char>) -> Seq<CandView> {
    let parts = path_parts(target);
    if parts.len() == 0 {
        Seq::empty()
    } else {
        let dirs = parts.drop_last();
        seq![exact_cand(dirs, parts.last())] + default_cands(
            dirs,
            parts.last(),
            dirs.len() as int,
        )
    }
}

/// The do-file names of a list of candidates.
pub open spec fn dofiles(c: Seq<CandView>) -> Seq<Seq<char>> {
    c.map_values(|c: CandView| c.dofile_rel)
}

fn join_rel(a: &str, b: &str) -> (s: String)
    ensures
        s@ == rel_join(a@, b@),
{
    if a.unicode_len() == 0 {
        b.to_owned()
    } else if b.unicode_len() == 0 {
        a.to_owned()
    } else {
        cat3(a, "/", b)
    }
}

fn join_name(dir: &str, name: &str) -> (s: String)
    ensures
        s@ == name_in(dir@, name@),
{
    if dir.unicode_len() == 0 {
        name.to_owned()
    } else {
        cat3(dir, "/", name)
    }
}

/// A piece of a list of texts, joined.
fn join_part(v: &[String], from: usize, to: usize, sep: &str) -> (s: String)
    requires
        from <= to <= v.len(),
    ensures
        s@ == join(texts(v@).subrange(from as int, to as int), sep@),
{
    let mut part: Vec<String> = Vec::new();
    for i in from..to
        invariant
            to <= v.len(),
            texts(part@) == texts(v@).subrange(from as int, i as int),
    {
        let ghost before = texts(part@);
        part.push(v[i].clone());
        assert(texts(part@) =~= before.push(texts(v@)[i as int]));
    }
    join_with(part.as_slice(), sep)
}

/// The default forms of a name, longest extension first: the do-file, what
/// precedes the extension that it matches, and the extension. For `app.txt` these
/// are (`default.txt.do`, `app`, `.txt`) and (`default.do`, `app.txt`, nothing).
pub fn default_do_files(filename: &str) -> (out: Vec<(String, String, String)>)
    ensures
        out.len() == split(filename@, '.').len(),
        forall|i: int|
            0 <= i < out.len() ==> (#[trigger] out@[i]).0@ == default_name(filename@, i + 1)
                && out@[i].1@ == default_base(filename@, i + 1) && out@[i].2@ == default_ext(
                filename@,
                i + 1,
            ),
{
    let parts = split_on(filename, '.');
    let ghost all = texts(parts@);
    let mut out: Vec<(String, String, String)> = Vec::new();
    for i in 0..parts.len()
        invariant
            all == texts(parts@),
            all == split(filename@, '.'),
            out.len() == i,
            forall|j: int|
                0 <= j < out.len() ==> (#[trigger] out@[j]).0@ == default_name(filename@, j + 1)
                    && out@[j].1@ == default_base(filename@, j + 1) && out@[j].2@ == default_ext(
                    filename@,
                    j + 1,
                ),
    {
        let base = join_part(parts.as_slice(), 0, i + 1, ".");
        assert(all.subrange(0, i + 1) =~= all.take(i + 1));
        assert(all.subrange(i + 1, all.len() as int) =~= all.skip(i + 1));
        if i + 1 == parts.len() {
            out.push(("default.do".to_owned(), base, String::new()));
        } else {
            let rest = join_part(parts.as_slice(), i + 1, parts.len(), ".");
            out.push((cat3("default.", rest.as_str(), ".do"), base, cat(".", rest.as_str())));
        }
    }
    out
}

/// The parts of a root-relative path.
fn parts_of(target_rel: &str) -> (out: Vec<String>)
    ensures
        texts(out@) == path_parts(target_rel@),
{
    let pieces = split_on(target_rel, '/');
    let ghost all = texts(pieces@);
    let ghost p = |p: Seq<char>| p.len() > 0;
    let mut out: Vec<String> = Vec::new();
    assert(all.take(0).filter(p) =~= Seq::<Seq<char>>::empty()) by {
        reveal(Seq::filter);
    }
    for i in 0..pieces.len()
        invariant
            all == texts(pieces@),
            p == (|p: Seq<char>| p.len() > 0),
            texts(out@) == all.take(i as int).filter(p),
    {
        let ghost before = texts(out@);
        proof {
            crate::seqs::lemma_filter_step(all, i as int, p);
            assert(all[i as int] == pieces@[i as int]@);
        }
        if pieces[i].as_str().unicode_len() > 0 {
            out.push(pieces[i].clone());
            assert(texts(out@) =~= before.push(all[i as int]));
        }
    }
    assert(all.take(all.len() as int) =~= all);
    out
}

/// Ordered list of candidate do-files for a root-relative target.
pub fn candidates(target_rel: &str) -> (out: Vec<Candidate>)
    ensures
        cands(out@) == candidates_of(target_rel@),
{
    let mut dirs = parts_of(target_rel);
    let ghost parts = texts(dirs@);
    let mut out: Vec<Candidate> = Vec::new();
    if dirs.len() == 0 {
        assert(cands(out@) =~= Seq::<CandView>::empty());
        return out;
    }
    let name = dirs[dirs.len() - 1].clone();
    dirs.pop();
    assert(texts(dirs@) =~= parts.drop_last());
    assert(name@ == parts.last());
    let here = join_with(dirs.as_slice(), "/");
    out.push(
        Candidate {
            dofile_rel: join_rel(here.as_str(), cat(name.as_str(), ".do").as_str()),
            dodir_rel: here,
            arg_target: name.clone(),
            arg_base: name.clone(),
        },
    );
    let ghost dv = texts(dirs@);
    let ghost first = cands(out@);
    assert(first =~= seq![exact_cand(dv, name@)]);
    let forms = default_do_files(name.as_str());
    let mut k: usize = dirs.len();
    let mut more = true;
    assert(first + default_cands(dv, name@, k as int) =~= first + default_cands(
        dv,
        name@,
        dv.len() as int,
    ));
    let ghost whole = first + default_cands(dv, name@, dv.len() as int);
    while more
        invariant
            dv == texts(dirs@),
            k <= dirs.len(),
            forms.len() == split(name@, '.').len(),
            forall|i: int|
                0 <= i < forms.len() ==> (#[trigger] forms@[i]).0@ == default_name(name@, i + 1)
                    && forms@[i].1@ == default_base(name@, i + 1),
            more ==> whole == cands(out@) + default_cands(dv, name@, k as int),
            !more ==> whole == cands(out@),
        decreases (if more { k + 1 } else { 0 }),
    {
        let dodir = join_part(dirs.as_slice(), 0, k, "/");
        let subdir = join_part(dirs.as_slice(), k, dirs.len(), "/");
        proof {
            assert(dv.subrange(0, k as int) =~= dv.take(k as int));
            assert(dv.subrange(k as int, dv.len() as int) =~= dv.skip(k as int));
        }
        let ghost before = cands(out@);
        let ghost level = level_cands(dv, name@, k as int);
        for i in 0..forms.len()
            invariant
                dodir@ == join(dv.take(k as int), "/"@),
                subdir@ == join(dv.skip(k as int), "/"@),
                forms.len() == split(name@, '.').len(),
                forall|i: int|
                    0 <= i < forms.len() ==> (#[trigger] forms@[i]).0@ == default_name(
                        name@,
                        i + 1,
                    ) && forms@[i].1@ == default_base(name@, i + 1),
                level == level_cands(dv, name@, k as int),
                cands(out@) == before + level.take(i as int),
        {
            let ghost held = cands(out@);
            let c = Candidate {
                dofile_rel: join_rel(dodir.as_str(), forms[i].0.as_str()),
                dodir_rel: dodir.clone(),
                arg_target: join_rel(subdir.as_str(), name.as_str()),
                arg_base: join_name(subdir.as_str(), forms[i].1.as_str()),
            };
            let ghost cv = c@;
            assert(cv == default_cand(dv, name@, k as int, i + 1));
            out.push(c);
            assert(cands(out@) =~= held.push(cv));
            assert(level.take(i + 1) =~= level.take(i as int).push(cv));
        }
        assert(level.take(level.len() as int) =~= level);
        if k == 0 {
            more = false;
        } else {
            assert(before + default_cands(dv, name@, k as int) =~= before + level
                + default_cands(dv, name@, k - 1));
            k = k - 1;
        }
    }
    out
}

/// Find the do-file for a target: the first candidate that is among `present`,
/// the root-relative names of the candidates that exist as regular files; and
/// the candidates that come before it, all absent.
pub fn find(root: &Root, target_rel: &str, present: &[String]) -> (r: (
    Option<DoFile>,
    Vec<String>,
))
    ensures
        ({
            let all = candidates_of(target_rel@);
            let here = texts(present@);
            match r.0 {
                Some(df) => exists|i: int|
                    0 <= i < all.len() && here.contains((#[trigger] all[i]).dofile_rel) && (
                    forall|j: int|
                        0 <= j < i ==> !here.contains((#[trigger] all[j]).dofile_rel)) && texts(
                        r.1@,
                    ) == dofiles(all.take(i)) && chosen(root, all[i], df),
                None => (forall|j: int|
                    0 <= j < all.len() ==> !here.contains((#[trigger] all[j]).dofile_rel))
                    && texts(r.1@) == dofiles(all),
            }
        }),
{
    let list = candidates(target_rel);
    let ghost all = cands(list@);
    let mut absent: Vec<String> = Vec::new();
    for i in 0..list.len()
        invariant
            all == cands(list@),
            all == candidates_of(target_rel@),
            texts(absent@) == dofiles(all.take(i as int)),
            forall|j: int|
                0 <= j < i ==> !texts(present@).contains((#[trigger] all[j]).dofile_rel),
    {
        let c = &list[i];
        assert(all[i as int] == c@);
        if lists(present, c.dofile_rel.as_str()) {
            let df = DoFile {
                dofile_abs: root.dir.join(&FsPath::parse(c.dofile_rel.as_str())),
                dofile_rel: c.dofile_rel.clone(),
                dodir_abs: root.dir.join(&FsPath::parse(c.dodir_rel.as_str())),
                arg_target: c.arg_target.clone(),
                arg_base: c.arg_base.clone(),
            };
            assert(chosen(root, all[i as int], df));
            return (Some(df), absent);
        }
        let ghost before = texts(absent@);
        absent.push(c.dofile_rel.clone());
        assert(texts(absent@) =~= before.push(all[i as int].dofile_rel));
        assert(dofiles(all.take(i + 1)) =~= dofiles(all.take(i as int)).push(
            all[i as int].dofile_rel,
        ));
    }
    assert(all.take(all.len() as int) =~= all);
    (None, absent)
}

/// Whether a do-file is what a candidate resolves to.
pub open spec fn chosen(root: &Root, c: CandView, df: DoFile) -> bool {
    &&& df.dofile_rel@ == c.dofile_rel
    &&& df.dofile_abs@ == joined(root@, parsed(c.dofile_rel))
    &&& df.dodir_abs@ == joined(root@, parsed(c.dodir_rel))
    &&& df.arg_target@ == c.arg_target
    &&& df.arg_base@ == c.arg_base
}

/// Every default candidate is a default of one of the directories.
proof fn lemma_default_cands(dirs: Seq<Seq<char>>, name: Seq<char>, k: int, n: int)
    requires
        0 <= k <= dirs.len(),
        0 <= n < default_cands(dirs, name, k).len(),
    ensures
        exists|l: int, i: int|
            0 <= l <= k && 1 <= i <= split(name, '.').len() && default_cands(dirs, name, k)[n]
                == #[trigger] default_cand(dirs, name, l, i),
    decreases k,
{
    let level = level_cands(dirs, name, k);
    if n < level.len() {
        assert(default_cands(dirs, name, k)[n] == default_cand(dirs, name, k, n + 1));
    } else {
        lemma_default_cands(dirs, name, k - 1, n - level.len());
        let (l, i) = choose|l: int, i: int|
            0 <= l <= k - 1 && 1 <= i <= split(name, '.').len() && default_cands(
                dirs,
                name,
                k - 1,
            )[n - level.len()] == #[trigger] default_cand(dirs, name, l, i);
        assert(default_cands(dirs, name, k)[n] == default_cand(dirs, name, l, i));
    }
}

/// A directory made of the first parts, and the rest below it, are the whole.
proof fn lemma_rel_join_parts(dirs: Seq<Seq<char>>, name: Seq<char>, k: int)
    requires
        0 <= k <= dirs.len(),
        name.len() > 0,
        forall|i: int| 0 <= i < dirs.len() ==> (#[trigger] dirs[i]).len() > 0,
    ensures
        rel_join(join(dirs.take(k), "/"@), rel_join(join(dirs.skip(k), "/"@), name)) == join(
            dirs.push(name),
            "/"@,
        ),
{
    let a = dirs.take(k);
    let b = dirs.skip(k);
    let sep = "/"@;
    reveal_strlit("/");
    let last = seq![name];
    assert(join(last, sep) == name);
    assert forall|i: int| 0 <= i < a.len() implies (#[trigger] a[i]).len() > 0 by {
        assert(a[i] == dirs[i]);
    }
    assert forall|i: int| 0 <= i < b.len() implies (#[trigger] b[i]).len() > 0 by {
        assert(b[i] == dirs[k + i]);
    }
    let low = b + last;
    if b.len() > 0 {
        crate::text::lemma_join_concat(b, last, sep);
        crate::text::lemma_join_nonempty(b, sep);
    } else {
        assert(low =~= last);
        assert(join(b, sep).len() == 0);
    }
    assert(rel_join(join(b, sep), name) == join(low, sep));
    assert forall|i: int| 0 <= i < low.len() implies (#[trigger] low[i]).len() > 0 by {
        if i < b.len() {
            assert(low[i] == b[i]);
        }
    }
    crate::text::lemma_join_nonempty(low, sep);
    assert(dirs.push(name) =~= a + low);
    if a.len() > 0 {
        crate::text::lemma_join_concat(a, low, sep);
        crate::text::lemma_join_nonempty(a, sep);
    } else {
        assert(a + low =~= low);
        assert(join(a, sep).len() == 0);
    }
}

/// The search never leaves the root: the directory of every candidate is one of
/// those on the way from the root to the target. The first argument, taken
/// relative to that directory, denotes the target.
pub proof fn law_candidates_lead_to_target(target: Seq<char>, n: int)
    requires
        0 <= n < candidates_of(target).len(),
    ensures
        ({
            let c = candidates_of(target)[n];
            let parts = path_parts(target);
            &&& exists|k: int|
                0 <= k < parts.len() && c.dodir_rel == join(#[trigger] parts.take(k), "/"@)
            &&& rel_join(c.dodir_rel, c.arg_target) == join(parts, "/"@)
        }),
{
    let parts = path_parts(target);
    let dirs = parts.drop_last();
    let name = parts.last();
    let c = candidates_of(target)[n];
    crate::seqs::lemma_filter_holds(split(target, '/'), |p: Seq<char>| p.len() > 0);
    assert forall|i: int| 0 <= i < parts.len() implies (#[trigger] parts[i]).len() > 0 by {
        assert(parts.contains(parts[i]));
    }
    assert(name == parts[parts.len() - 1]);
    assert forall|i: int| 0 <= i < dirs.len() implies (#[trigger] dirs[i]).len() > 0 by {
        assert(dirs[i] == parts[i]);
    }
    assert(dirs.push(name) =~= parts);
    if n == 0 {
        lemma_rel_join_parts(dirs, name, dirs.len() as int);
        assert(dirs.take(dirs.len() as int) =~= dirs);
        assert(dirs.skip(dirs.len() as int) =~= Seq::<Seq<char>>::empty());
        assert(parts.take(dirs.len() as int) =~= dirs);
    } else {
        lemma_default_cands(dirs, name, dirs.len() as int, n - 1);
        let (k, i) = choose|k: int, i: int|
            0 <= k <= dirs.len() && 1 <= i <= split(name, '.').len() && default_cands(
                dirs,
                name,
                dirs.len() as int,
            )[n - 1] == #[trigger] default_cand(dirs, name, k, i);
        assert(c == default_cand(dirs, name, k, i));
        lemma_rel_join_parts(dirs, name, k);
        assert(parts.take(k) =~= dirs.take(k));
    }
}

/// A name is what precedes the extension that a default matches, and the extension.
proof fn lemma_base_and_ext(name: Seq<char>, i: int)
    requires
        1 <= i <= split(name, '.').len(),
    ensures
        default_base(name, i) + default_ext(name, i) == name,
{
    let parts = split(name, '.');
    let sep = "."@;
    reveal_strlit(".");
    assert(sep =~= seq!['.']);
    crate::text::law_join_of_split(name, '.');
    assert(parts.take(i) + parts.skip(i) =~= parts);
    if i < parts.len() {
        crate::text::lemma_join_concat(parts.take(i), parts.skip(i), sep);
        assert(join(parts.take(i), sep) + (sep + join(parts.skip(i), sep)) =~= join(parts, sep));
    } else {
        assert(parts.take(i) =~= parts);
        assert(join(parts, sep) + Seq::<char>::empty() =~= join(parts, sep));
    }
}

/// The second argument is the first with the matched extension removed: the
/// extension of one of the default forms of the target's name, or nothing.
pub proof fn law_base_lacks_the_extension(target: Seq<char>, n: int)
    requires
        0 <= n < candidates_of(target).len(),
    ensures
        ({
            let c = candidates_of(target)[n];
            let name = path_parts(target).last();
            if n == 0 {
                c.arg_base == c.arg_target
            } else {
                exists|i: int|
                    1 <= i <= split(name, '.').len() && c.arg_base + #[trigger] default_ext(name, i)
                        == c.arg_target && c.dofile_rel == rel_join(
                        c.dodir_rel,
                        default_name(name, i),
                    )
            }
        }),
{
    let parts = path_parts(target);
    let dirs = parts.drop_last();
    let name = parts.last();
    if n > 0 {
        crate::seqs::lemma_filter_holds(split(target, '/'), |p: Seq<char>| p.len() > 0);
        assert(parts.contains(parts[parts.len() - 1]));
        lemma_default_cands(dirs, name, dirs.len() as int, n - 1);
        let (k, i) = choose|k: int, i: int|
            0 <= k <= dirs.len() && 1 <= i <= split(name, '.').len() && default_cands(
                dirs,
                name,
                dirs.len() as int,
            )[n - 1] == #[trigger] default_cand(dirs, name, k, i);
        let c = candidates_of(target)[n];
        assert(c == default_cand(dirs, name, k, i));
        lemma_base_and_ext(name, i);
        let subdir = join(dirs.skip(k), "/"@);
        if subdir.len() > 0 {
            assert(c.arg_base + default_ext(name, i) =~= subdir + "/"@ + (default_base(name, i)
                + default_ext(name, i)));
        }
    }
}

/// A target that has a name always has `default.do` at the root as its last
/// candidate.
pub proof fn law_last_resort(target: Seq<char>)
    requires
        path_parts(target).len() > 0,
    ensures
        candidates_of(target).last().dofile_rel == "default.do"@,
        candidates_of(target).last().dodir_rel.len() == 0,
{
    let parts = path_parts(target);
    let dirs = parts.drop_last();
    let name = parts.last();
    lemma_last_default(dirs, name, dirs.len() as int);
    assert(candidates_of(target).last() == default_cands(dirs, name, dirs.len() as int).last());
}

proof fn lemma_last_default(dirs: Seq<Seq<char>>, name: Seq<char>, k: int)
    requires
        0 <= k <= dirs.len(),
    ensures
        default_cands(dirs, name, k).len() > 0,
        default_cands(dirs, name, k).last() == default_cand(
            dirs,
            name,
            0,
            split(name, '.').len() as int,
        ),
        default_cands(dirs, name, k).last().dofile_rel == "default.do"@,
        default_cands(dirs, name, k).last().dodir_rel.len() == 0,
    decreases k,
{
    crate::text::lemma_split_nonempty(name, '.');
    if k > 0 {
        lemma_last_default(dirs, name, k - 1);
    } else {
        assert(dirs.take(0) =~= Seq::<Seq<char>>::empty());
    }
}

/// Where a default do-file comes among the candidates of a target that lies `depth`
/// directories deep: the one in the directory `k` levels below the root, for the extension
/// that begins at the dot at `d`.
pub open spec fn place(depth: int, name: Seq<char>, k: int, d: int) -> int {
    1 + (depth - k) * (count(name, '.') + 1) + count(name.take(d), '.')
}

proof fn lemma_extension_at(name: Seq<char>, d: int)
    requires
        0 <= d <= name.len(),
        d < name.len() ==> name[d] == '.',
    ensures
        ({
            let i = count(name.take(d), '.') + 1;
            &&& 1 <= i <= split(name, '.').len()
            &&& split(name, '.').len() == count(name, '.') + 1
            &&& default_base(name, i as int) == name.take(d)
            &&& default_name(name, i as int) == "default"@ + name.skip(d) + ".do"@
        }),
{
    let a = name.take(d);
    let i = count(a, '.') + 1;
    let sep = "."@;
    reveal_strlit(".");
    reveal_strlit("default");
    reveal_strlit("default.");
    reveal_strlit(".do");
    reveal_strlit("default.do");
    assert(sep =~= seq!['.']);
    assert("default."@ =~= "default"@ + sep);
    assert("default.do"@ =~= "default"@ + ".do"@);
    crate::text::law_fields_lie_between_separators(name, name, '.');
    crate::text::law_fields_lie_between_separators(a, name, '.');
    crate::text::law_join_of_split(a, '.');
    let parts = split(name, '.');
    if d == name.len() {
        assert(a =~= name);
        assert(parts.take(i as int) =~= parts);
        assert(name.skip(d) =~= Seq::<char>::empty());
        assert("default"@ + name.skip(d) + ".do"@ =~= "default.do"@);
    } else {
        let b = name.skip(d + 1);
        assert(name =~= a + seq!['.'] + b);
        crate::text::law_fields_lie_between_separators(a, b, '.');
        crate::text::law_join_of_split(b, '.');
        crate::text::lemma_split_nonempty(b, '.');
        assert(parts.take(i as int) =~= split(a, '.'));
        assert(parts.skip(i as int) =~= split(b, '.'));
        assert(name.skip(d) =~= sep + b);
        assert("default."@ + b + ".do"@ =~= "default"@ + name.skip(d) + ".do"@);
    }
}

proof fn lemma_default_place(dirs: Seq<Seq<char>>, name: Seq<char>, top: int, k: int, i: int)
    requires
        0 <= k <= top <= dirs.len(),
        1 <= i <= split(name, '.').len(),
    ensures
        ({
            let n = split(name, '.').len() as int;
            let at = (top - k) * n + i - 1;
            &&& default_cands(dirs, name, top).len() == (top + 1) * n
            &&& 0 <= at < default_cands(dirs, name, top).len()
            &&& default_cands(dirs, name, top)[at] == default_cand(dirs, name, k, i)
        }),
    decreases top,
{
    let n = split(name, '.').len() as int;
    let level = level_cands(dirs, name, top);
    assert(level.len() == n);
    if top == 0 {
        assert((top + 1) * n == n && (top - k) * n == 0) by (nonlinear_arith)
            requires
                top == 0,
                k == 0,
        ;
    } else {
        if k < top {
            lemma_default_place(dirs, name, top - 1, k, i);
        } else {
            lemma_default_place(dirs, name, top - 1, top - 1, i);
        }
        assert((top + 1) * n == n + top * n) by (nonlinear_arith);
        assert(top * n == (top - 1 + 1) * n);
        if k == top {
            assert((top - k) * n == 0) by (nonlinear_arith)
                requires
                    k == top,
            ;
            assert(top * n >= 0) by (nonlinear_arith)
                requires
                    top >= 0,
                    n >= 0,
            ;
            assert(level[i - 1] == default_cand(dirs, name, top, i));
        } else {
            assert((top - k) * n == n + (top - 1 - k) * n) by (nonlinear_arith);
        }
    }
}

proof fn lemma_parts_of_key(dirs: Seq<Seq<char>>, name: Seq<char>)
    requires
        plain_name(name),
        forall|i: int| 0 <= i < dirs.len() ==> plain_name(#[trigger] dirs[i]),
    ensures
        path_parts(join(dirs.push(name), "/"@)) == dirs.push(name),
{
    let parts = dirs.push(name);
    reveal_strlit("/");
    assert("/"@ =~= seq!['/']);
    assert forall|i: int| 0 <= i < parts.len() implies !crate::text::occurs(
        #[trigger] parts[i],
        '/',
    ) by {
        if i < dirs.len() {
            assert(plain_name(dirs[i]));
        }
    }
    crate::text::lemma_split_join(parts, '/');
    let p = |p: Seq<char>| p.len() > 0;
    assert forall|i: int| 0 <= i < parts.len() implies p(#[trigger] parts[i]) by {
        if i < dirs.len() {
            assert(plain_name(dirs[i]));
        }
    }
    crate::seqs::lemma_filter_all(parts, p);
}

/// Whether a text is the name of one file or directory.
pub open spec fn plain_name(s: Seq<char>) -> bool {
    s.len() > 0 && !s.contains('/')
}

/// The candidates are all the do-files that can build a target, each at its place. First comes
/// the do-file of exactly its name, in its directory. Then, for each directory from its own up
/// to the root, for each dot in its name and for none, there is the default do-file for what
/// begins at that dot; it is called with the target's path from that directory, and with that
/// path up to the dot. There is no other.
pub proof fn law_candidates_are_complete(dirs: Seq<Seq<char>>, name: Seq<char>, k: int, d: int)
    requires
        plain_name(name),
        forall|i: int| 0 <= i < dirs.len() ==> plain_name(#[trigger] dirs[i]),
        0 <= k <= dirs.len(),
        0 <= d <= name.len(),
        d < name.len() ==> name[d] == '.',
    ensures
        ({
            let all = candidates_of(join(dirs.push(name), "/"@));
            let n = place(dirs.len() as int, name, k, d);
            &&& all.len() == 1 + (dirs.len() + 1) * (count(name, '.') + 1)
            &&& all[0].dofile_rel == join(dirs.push(name + ".do"@), "/"@)
            &&& all[0].dodir_rel == join(dirs, "/"@)
            &&& all[0].arg_target == name
            &&& all[0].arg_base == name
            &&& 0 < n < all.len()
            &&& all[n].dofile_rel == join(
                dirs.take(k).push("default"@ + name.skip(d) + ".do"@),
                "/"@,
            )
            &&& all[n].dodir_rel == join(dirs.take(k), "/"@)
            &&& all[n].arg_target == join(dirs.skip(k).push(name), "/"@)
            &&& all[n].arg_base == join(dirs.skip(k).push(name.take(d)), "/"@)
        }),
{
    let top = dirs.len() as int;
    let parts = dirs.push(name);
    let target = join(parts, "/"@);
    let all = candidates_of(target);
    lemma_parts_of_key(dirs, name);
    assert(parts.drop_last() =~= dirs);
    assert(parts.last() == name);
    lemma_extension_at(name, d);
    let i = (count(name.take(d), '.') + 1) as int;
    lemma_default_place(dirs, name, top, k, i);
    let rest = default_cands(dirs, name, top);
    assert(all =~= seq![exact_cand(dirs, name)] + rest);
    let n = place(top, name, k, d);
    assert(split(name, '.').len() == count(name, '.') + 1);
    assert(n - 1 == (top - k) * (split(name, '.').len() as int) + i - 1);
    assert(all[n] == rest[n - 1]);
    let a = dirs.take(k);
    let b = dirs.skip(k);
    let sep = "/"@;
    reveal_strlit(".do");
    let file = "default"@ + name.skip(d) + ".do"@;
    assert(file.len() > 0);
    lemma_below(dirs, name + ".do"@);
    assert forall|j: int| 0 <= j < a.len() implies plain_name(#[trigger] a[j]) by {
        assert(plain_name(dirs[j]));
    }
    assert forall|j: int| 0 <= j < b.len() implies plain_name(#[trigger] b[j]) by {
        assert(plain_name(dirs[k + j]));
    }
    lemma_below(a, file);
    lemma_below(b, name);
    lemma_below(b, name.take(d));
}

/// A name below a directory, made of the directory's parts.
proof fn lemma_below(dirs: Seq<Seq<char>>, name: Seq<char>)
    requires
        forall|i: int| 0 <= i < dirs.len() ==> plain_name(#[trigger] dirs[i]),
    ensures
        name.len() > 0 ==> rel_join(join(dirs, "/"@), name) == join(dirs.push(name), "/"@),
        name_in(join(dirs, "/"@), name) == join(dirs.push(name), "/"@),
{
    crate::text::lemma_join_push(dirs, name, "/"@);
    if dirs.len() > 0 {
        assert forall|i: int| 0 <= i < dirs.len() implies (#[trigger] dirs[i]).len() > 0 by {
            assert(plain_name(dirs[i]));
        }
        crate::text::lemma_join_nonempty(dirs, "/"@);
    }
}

/// The more specific do-file comes first: one in a directory that is nearer to the target
/// before one that is farther, and in one directory one for a longer extension before one for
/// a shorter; the do-file of exactly the target's name before all.
pub proof fn law_nearer_and_longer_first(
    depth: int,
    name: Seq<char>,
    k1: int,
    d1: int,
    k2: int,
    d2: int,
)
    requires
        0 <= k1 <= depth,
        0 <= k2 <= depth,
        0 <= d1 <= name.len(),
        0 <= d2 <= name.len(),
        d1 < name.len() ==> name[d1] == '.',
        k1 > k2 || (k1 == k2 && d1 < d2),
    ensures
        0 < place(depth, name, k1, d1) < place(depth, name, k2, d2),
{
    let per = count(name, '.') + 1;
    crate::text::lemma_count_take(name, '.', d1, name.len() as int);
    assert(name.take(name.len() as int) =~= name);
    assert((depth - k1) * per >= 0) by (nonlinear_arith)
        requires
            depth >= k1,
            per >= 0,
    ;
    if k1 > k2 {
        assert((depth - k1) * per + per <= (depth - k2) * per) by (nonlinear_arith)
            requires
                k1 >= k2 + 1,
                per >= 0,
        ;
    } else {
        crate::text::lemma_count_take(name, '.', d1, d2);
    }
}

/// A do-file that is found is called as its candidate says, in the directory it lies in.
pub proof fn law_found_is_called_as_listed(root: &Root, c: CandView, df: DoFile)
    requires
        chosen(root, c, df),
    ensures
        df.dofile_rel@ == c.dofile_rel,
        df.arg_target@ == c.arg_target,
        df.arg_base@ == c.arg_base,
        df.dofile_abs@ == joined(root@, parsed(c.dofile_rel)),
        df.dodir_abs@ == joined(root@, parsed(c.dodir_rel)),
{
}

}
