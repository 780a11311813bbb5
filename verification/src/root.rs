//! Project root discovery.
//!
//! The project root is the nearest ancestor directory, starting at the current
//! one, that either already has `.redom/redo-msh.db`, or is a `.git` root. So
//! an explicit database wins when it is at least as close as a `.git`
//! directory.

use crate::paths::{cleaned, comps, joined, lexical_clean, Comp, Component, FsPath};
use crate::text::cat3;
use vstd::prelude::*;

verus! {

pub const REDO_DIR: &'static str = ".redom";

pub const DB_NAME: &'static str = "redo-msh.db";

/// A project root.
#[derive(Debug, Clone)]
pub struct Root {
    pub dir: FsPath,
}

impl View for Root {
    type V = Seq<Comp>;

    open spec fn view(&self) -> Seq<Comp> {
        self.dir@
    }
}

/// The state directory of a root.
pub open spec fn redo_dir_of(root: Seq<Comp>) -> Seq<Comp> {
    root.push(Comp::Normal(REDO_DIR@))
}

/// The directory of lock files of a root.
pub open spec fn locks_dir_of(root: Seq<Comp>) -> Seq<Comp> {
    redo_dir_of(root).push(Comp::Normal("locks"@))
}

/// What makes a directory a project root.
#[derive(Debug, Clone, Copy, PartialEq, Eq, Structural)]
pub struct Mark {
    /// It holds the database as a regular file.
    pub db: bool,
    /// It holds a `.git` entry.
    pub git: bool,
}

/// Whether a path ends in a component that has a parent.
pub open spec fn has_parent(s: Seq<Comp>) -> bool {
    s.len() > 0 && !(s.last() is RootDir) && !(s.last() is Prefix)
}

/// A path and its ancestors, nearest first.
pub open spec fn ancestors(s: Seq<Comp>) -> Seq<Seq<Comp>>
    decreases s.len(),
{
    if has_parent(s) {
        seq![s] + ancestors(s.drop_last())
    } else {
        seq![s]
    }
}

/// Whether the `i`-th directory is marked as a root.
pub open spec fn marked(marks: Seq<Mark>, i: int) -> bool {
    0 <= i < marks.len() && (marks[i].db || marks[i].git)
}

/// No directory at or above the start is a project root.
#[derive(Debug, Clone)]
pub struct NoRoot {
    /// Where the search started.
    pub start: FsPath,
}

/// The views of a list of paths.
pub open spec fn path_views(v: Seq<FsPath>) -> Seq<Seq<Comp>> {
    v.map_values(|p: FsPath| p@)
}

/// The directories to search for a root from `start`, nearest first.
pub fn search_dirs(cwd: &FsPath, start: &FsPath) -> (out: Vec<FsPath>)
    ensures
        path_views(out@) == ancestors(cleaned(joined(cwd@, start@))),
{
    let mut dir = lexical_clean(&cwd.join(start));
    let ghost whole = ancestors(dir@);
    let mut out: Vec<FsPath> = Vec::new();
    assert(path_views(out@) + ancestors(dir@) =~= whole);
    loop
        invariant_except_break
            path_views(out@) + ancestors(dir@) == whole,
        ensures
            path_views(out@) == whole,
        decreases dir.comps.len(),
    {
        let ghost before = path_views(out@);
        let ghost here = dir@;
        out.push(dir.copy());
        assert(path_views(out@) =~= before.push(here));
        let n = dir.comps.len();
        if n == 0 {
            assert(path_views(out@) =~= whole);
            break;
        }
        assert(here.last() == dir.comps@[n - 1]@);
        let ends = match &dir.comps[n - 1] {
            Component::RootDir => true,
            Component::Prefix(_) => true,
            _ => false,
        };
        if ends {
            assert(path_views(out@) =~= whole);
            break;
        }
        dir.comps.pop();
        assert(dir@ =~= here.drop_last());
        assert(path_views(out@) + ancestors(dir@) =~= whole);
    }
    out
}

impl Root {
    /// The state directory.
    pub fn redo_dir(&self) -> (p: FsPath)
        ensures
            p@ == redo_dir_of(self@),
    {
        self.dir.child(REDO_DIR)
    }

    /// The database.
    pub fn db_path(&self) -> (p: FsPath)
        ensures
            p@ == redo_dir_of(self@).push(Comp::Normal(DB_NAME@)),
    {
        self.redo_dir().child(DB_NAME)
    }

    /// The directory of lock files.
    pub fn locks_dir(&self) -> (p: FsPath)
        ensures
            p@ == locks_dir_of(self@),
    {
        self.redo_dir().child("locks")
    }

    /// Discover the root by walking up from `start`: the nearest directory that
    /// is marked, where `marks` tells of each of [`search_dirs`] what it holds.
    pub fn discover(cwd: &FsPath, start: &FsPath, marks: &[Mark]) -> (r: Result<Root, NoRoot>)
        ensures
            ({
                let dirs = ancestors(cleaned(joined(cwd@, start@)));
                match r {
                    Ok(root) => exists|i: int|
                        0 <= i < dirs.len() && #[trigger] dirs[i] == root@ && marked(marks@, i)
                            && forall|j: int| 0 <= j < i ==> !#[trigger] marked(marks@, j),
                    Err(e) => e.start@ == cleaned(joined(cwd@, start@)) && forall|i: int|
                        0 <= i < dirs.len() ==> !#[trigger] marked(marks@, i),
                }
            }),
    {
        let dirs = search_dirs(cwd, start);
        let ghost all = path_views(dirs@);
        for i in 0..dirs.len()
            invariant
                all == path_views(dirs@),
                all == ancestors(cleaned(joined(cwd@, start@))),
                forall|j: int| 0 <= j < i ==> !#[trigger] marked(marks@, j),
        {
            if i < marks.len() && (marks[i].db || marks[i].git) {
                let dir = dirs[i].copy();
                assert(all[i as int] == dir@);
                assert(marked(marks@, i as int));
                return Ok(Root { dir });
            }
        }
        Err(NoRoot { start: lexical_clean(&cwd.join(start)) })
    }
}

impl NoRoot {
    /// What went wrong, in words.
    pub fn message(&self) -> (s: String)
        ensures
            s@ == "no project root found at or above "@ + crate::paths::path_text(self.start@)
                + ". Run `redo-msh root` to create one, or work inside a git repository."@,
    {
        cat3(
            "no project root found at or above ",
            self.start.to_text().as_str(),
            ". Run `redo-msh root` to create one, or work inside a git repository.",
        )
    }
}

/// An ancestor of a path contains it.
pub proof fn law_ancestors_contain(s: Seq<Comp>, i: int)
    requires
        0 <= i < ancestors(s).len(),
    ensures
        crate::paths::is_within(ancestors(s)[i], s),
    decreases s.len(),
{
    if has_parent(s) {
        if i > 0 {
            let rest = ancestors(s.drop_last());
            assert(ancestors(s)[i] == rest[i - 1]);
            law_ancestors_contain(s.drop_last(), i - 1);
            let a = rest[i - 1];
            assert(s.take(a.len() as int) =~= s.drop_last().take(a.len() as int));
        } else {
            assert(s.take(s.len() as int) =~= s);
        }
    } else {
        assert(s.take(s.len() as int) =~= s);
    }
}

/// The ancestors of a path are the path without its last components, one less each time, up to
/// where it cannot go higher.
pub proof fn law_ancestors_go_up_one_by_one(s: Seq<Comp>, i: int)
    ensures
        0 <= i < ancestors(s).len() ==> i <= s.len() && ancestors(s)[i] == s.take(s.len() - i),
        ancestors(s).len() >= 1,
        ({
            let top = ancestors(s).last();
            top.len() == 0 || top.last() is RootDir || top.last() is Prefix
        }),
        0 <= i < ancestors(s).len() - 1 ==> ({
            let a = ancestors(s)[i];
            a.len() > 0 && !(a.last() is RootDir) && !(a.last() is Prefix)
        }),
    decreases s.len(),
{
    assert(s.take(s.len() as int) =~= s);
    if has_parent(s) {
        let rest = ancestors(s.drop_last());
        law_ancestors_go_up_one_by_one(s.drop_last(), i - 1);
        assert(ancestors(s).last() == rest.last());
        if 0 < i < ancestors(s).len() {
            assert(ancestors(s)[i] == rest[i - 1]);
            assert(s.drop_last().take(s.drop_last().len() - (i - 1)) =~= s.take(s.len() - i));
        }
    }
}

/// A directory is a root if it holds the database or a repository.
pub proof fn law_marks_of_a_root(marks: Seq<Mark>, i: int)
    requires
        0 <= i < marks.len(),
    ensures
        marks[i].db ==> marked(marks, i),
        marks[i].git ==> marked(marks, i),
        !marks[i].db && !marks[i].git ==> !marked(marks, i),
{
}

/// The state of a project lies in one directory of its root.
pub proof fn law_state_lies_below_the_root(root: Seq<Comp>)
    ensures
        redo_dir_of(root) == root + seq![Comp::Normal(".redom"@)],
        locks_dir_of(root) == root + seq![Comp::Normal(".redom"@), Comp::Normal("locks"@)],
{
    assert(redo_dir_of(root) =~= root + seq![Comp::Normal(".redom"@)]);
    assert(locks_dir_of(root) =~= root + seq![Comp::Normal(".redom"@), Comp::Normal("locks"@)]);
}

}
