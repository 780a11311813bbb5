//! Path normalization.
//!
//! Dependency identity in the database is a path **relative to the project
//! root**, always using `/` as the separator, so a build tree is portable
//! across operating systems and the same file always has the same key.
//!
//! Normalization is *lexical*: targets routinely do not exist yet, so the
//! filesystem is never asked. A possibly-relative input is resolved against a
//! base directory and then cleaned of `.` and `..` components.

use crate::text::{cat, join, join_with, occurs, same, split, split_on, texts};
use vstd::prelude::*;

verus! {

/// One component of a path.
#[derive(Debug, Clone, PartialEq, Eq)]
pub enum Component {
    /// A drive or share prefix.
    Prefix(String),
    /// The root directory.
    RootDir,
    /// `.`, which occurs at the start of a relative path only.
    CurDir,
    /// `..`.
    ParentDir,
    /// A file or directory name.
    Normal(String),
}

/// One component of a path, as a mathematical value.
pub enum Comp {
    Prefix(Seq<char>),
    RootDir,
    CurDir,
    ParentDir,
    Normal(Seq<char>),
}

impl View for Component {
    type V = Comp;

    open spec fn view(&self) -> Comp {
        match self {
            Component::Prefix(s) => Comp::Prefix(s@),
            Component::RootDir => Comp::RootDir,
            Component::CurDir => Comp::CurDir,
            Component::ParentDir => Comp::ParentDir,
            Component::Normal(s) => Comp::Normal(s@),
        }
    }
}

impl Component {
    fn copy(&self) -> (r: Component)
        ensures
            r@ == self@,
    {
        match self {
            Component::Prefix(s) => Component::Prefix(s.clone()),
            Component::RootDir => Component::RootDir,
            Component::CurDir => Component::CurDir,
            Component::ParentDir => Component::ParentDir,
            Component::Normal(s) => Component::Normal(s.clone()),
        }
    }

    fn same_as(&self, other: &Component) -> (r: bool)
        ensures
            r == (self@ == other@),
    {
        match (self, other) {
            (Component::Prefix(a), Component::Prefix(b)) => *a == *b,
            (Component::RootDir, Component::RootDir) => true,
            (Component::CurDir, Component::CurDir) => true,
            (Component::ParentDir, Component::ParentDir) => true,
            (Component::Normal(a), Component::Normal(b)) => *a == *b,
            _ => false,
        }
    }
}

/// A path, as its components.
#[derive(Debug, Clone, PartialEq, Eq)]
pub struct FsPath {
    pub comps: Vec<Component>,
}

/// The views of a list of components.
pub open spec fn comps(s: Seq<Component>) -> Seq<Comp> {
    s.map_values(|c: Component| c@)
}

impl View for FsPath {
    type V = Seq<Comp>;

    open spec fn view(&self) -> Seq<Comp> {
        comps(self.comps@)
    }
}

/// What a piece of text between slashes is as a component. Empty pieces and
/// `.` are no components.
pub open spec fn piece_comp(p: Seq<char>) -> Option<Comp> {
    if p.len() == 0 || p == seq!['.'] {
        None
    } else if p == seq!['.', '.'] {
        Some(Comp::ParentDir)
    } else {
        Some(Comp::Normal(p))
    }
}

/// What a path text starts with: the root directory, `.`, or neither.
pub open spec fn path_start(s: Seq<char>) -> Seq<Comp> {
    if s.len() > 0 && s[0] == '/' {
        seq![Comp::RootDir]
    } else if split(s, '/')[0] == seq!['.'] {
        seq![Comp::CurDir]
    } else {
        Seq::empty()
    }
}

/// The components of a path text.
pub open spec fn parsed(s: Seq<char>) -> Seq<Comp> {
    path_start(s) + split(s, '/').filter_map(|p: Seq<char>| piece_comp(p))
}

/// The text of one component.
pub open spec fn comp_text(c: Comp) -> Seq<char> {
    match c {
        Comp::Prefix(s) => s,
        Comp::RootDir => Seq::empty(),
        Comp::CurDir => seq!['.'],
        Comp::ParentDir => seq!['.', '.'],
        Comp::Normal(s) => s,
    }
}

/// The texts of a list of components.
pub open spec fn comp_texts(s: Seq<Comp>) -> Seq<Seq<char>> {
    s.map_values(|c: Comp| comp_text(c))
}

/// The text of a path without a prefix, with `/` between components.
pub open spec fn posix_text(s: Seq<Comp>) -> Seq<char> {
    if s.len() == 1 && s[0] is RootDir {
        seq!['/']
    } else {
        join(comp_texts(s), seq!['/'])
    }
}

/// The text of a path: its prefix, if it has one, and the rest of it.
pub open spec fn path_text(s: Seq<Comp>) -> Seq<char> {
    if s.len() > 0 && s[0] is Prefix {
        comp_text(s[0]) + posix_text(s.skip(1))
    } else {
        posix_text(s)
    }
}

/// Whether a text can be a name: not empty, without a slash, and neither `.`
/// nor `..`.
pub open spec fn is_name(s: Seq<char>) -> bool {
    s.len() > 0 && !occurs(s, '/') && s != seq!['.'] && s != seq!['.', '.']
}

/// Whether components are those of a path without a prefix: the root directory
/// or `.` at the start only, and names that can be names.
pub open spec fn is_posix(s: Seq<Comp>) -> bool {
    forall|i: int|
        0 <= i < s.len() ==> match #[trigger] s[i] {
            Comp::Prefix(_) => false,
            Comp::RootDir => i == 0,
            Comp::CurDir => i == 0,
            Comp::ParentDir => true,
            Comp::Normal(n) => is_name(n),
        }
}

/// One step of cleaning: what a further component does to a clean path.
pub open spec fn clean_step(out: Seq<Comp>, c: Comp) -> Seq<Comp> {
    match c {
        Comp::CurDir => out,
        Comp::ParentDir => if out.len() == 0 || out.last() is ParentDir {
            out.push(c)
        } else if out.last() is Normal {
            out.drop_last()
        } else {
            out
        },
        _ => out.push(c),
    }
}

/// A path cleaned of `.` and, as far as possible, of `..`.
pub open spec fn cleaned(s: Seq<Comp>) -> Seq<Comp>
    decreases s.len(),
{
    if s.len() == 0 {
        s
    } else {
        clean_step(cleaned(s.drop_last()), s.last())
    }
}

/// Whether a path does not depend on a base directory.
pub open spec fn is_rooted(s: Seq<Comp>) -> bool {
    s.len() > 0 && (s[0] is RootDir || s[0] is Prefix)
}

/// `b` taken relative to `a`.
pub open spec fn joined(a: Seq<Comp>, b: Seq<Comp>) -> Seq<Comp> {
    if b.len() > 0 && b[0] is Prefix {
        b
    } else if b.len() > 0 && b[0] is RootDir {
        if a.len() > 0 && a[0] is Prefix {
            seq![a[0]] + b
        } else {
            b
        }
    } else if a.len() > 0 && b.len() > 0 && b[0] is CurDir {
        a + b.skip(1)
    } else {
        a + b
    }
}

/// Whether `s` lies at or below `root`.
pub open spec fn is_within(root: Seq<Comp>, s: Seq<Comp>) -> bool {
    root.len() <= s.len() && s.take(root.len() as int) == root
}

/// The name that a component is, if it is one.
pub open spec fn name_of(c: Comp) -> Option<Seq<char>> {
    match c {
        Comp::Normal(s) => Some(s),
        _ => None,
    }
}

/// The database key of what lies below the root: its names, with `/` between
/// them.
pub open spec fn key_of(rel: Seq<Comp>) -> Seq<char> {
    join(rel.filter_map(|c: Comp| name_of(c)), seq!['/'])
}

/// The database key of an absolute path, if it lies within `root`.
pub open spec fn root_key(root: Seq<Comp>, s: Seq<Comp>) -> Option<Seq<char>> {
    if is_within(root, s) {
        Some(key_of(s.skip(root.len() as int)))
    } else {
        None
    }
}

impl FsPath {
    /// The path that a `/`-separated text denotes.
    pub fn parse(s: &str) -> (p: FsPath)
        ensures
            p@ == parsed(s@),
    {
        proof {
            reveal_strlit("");
            reveal_strlit(".");
            reveal_strlit("..");
            assert(""@ =~= Seq::<char>::empty());
            assert("."@ =~= seq!['.']);
            assert(".."@ =~= seq!['.', '.']);
        }
        let mut out: Vec<Component> = Vec::new();
        let cs = crate::text::to_chars(s);
        let pieces = split_on(s, '/');
        assert(texts(pieces@)[0] == pieces@[0]@);
        if cs.len() > 0 && cs[0] == '/' {
            out.push(Component::RootDir);
        } else if same(pieces[0].as_str(), ".") {
            out.push(Component::CurDir);
        }
        let ghost start = comps(out@);
        let ghost f = |p: Seq<char>| piece_comp(p);
        assert(start =~= path_start(s@));
        assert(start + texts(pieces@).take(0).filter_map(f) =~= start);
        for i in 0..pieces.len()
            invariant
                f == (|p: Seq<char>| piece_comp(p)),
                comps(out@) == start + texts(pieces@).take(i as int).filter_map(f),
                ""@ == Seq::<char>::empty(),
                "."@ == seq!['.'],
                ".."@ == seq!['.', '.'],
        {
            let ghost before = comps(out@);
            proof {
                texts(pieces@).lemma_filter_map_take_succ(f, i as int);
            }
            let piece = pieces[i].as_str();
            assert(texts(pieces@)[i as int] == piece@);
            assert(piece@.len() == 0 ==> piece@ =~= Seq::<char>::empty());
            if same(piece, "") || same(piece, ".") {
                assert(piece_comp(piece@) is None);
            } else if same(piece, "..") {
                out.push(Component::ParentDir);
                assert(comps(out@) =~= before.push(Comp::ParentDir));
            } else {
                let name = piece.to_owned();
                out.push(Component::Normal(name));
                assert(comps(out@) =~= before.push(Comp::Normal(piece@)));
            }
            assert(comps(out@) =~= start + texts(pieces@).take(i + 1).filter_map(f));
        }
        assert(texts(pieces@).take(pieces.len() as int) =~= texts(pieces@));
        FsPath { comps: out }
    }

    /// The text of the components from the `from`-th on.
    fn text_from(&self, from: usize) -> (s: String)
        requires
            from <= self.comps.len(),
        ensures
            s@ == posix_text(self@.skip(from as int)),
    {
        proof {
            reveal_strlit("/");
            assert("/"@ =~= seq!['/']);
        }
        let ghost rest = self@.skip(from as int);
        let n = self.comps.len();
        if n - from == 1 {
            assert(rest[0] == self.comps[from as int]@);
            if let Component::RootDir = &self.comps[from] {
                return "/".to_owned();
            }
        }
        let mut parts: Vec<String> = Vec::new();
        for i in from..self.comps.len()
            invariant
                from <= self.comps.len(),
                rest == self@.skip(from as int),
                texts(parts@) == comp_texts(rest).take(i - from),
        {
            let ghost before = texts(parts@);
            let part = match &self.comps[i] {
                Component::Prefix(s) => s.clone(),
                Component::RootDir => String::new(),
                Component::CurDir => ".".to_owned(),
                Component::ParentDir => "..".to_owned(),
                Component::Normal(s) => s.clone(),
            };
            proof {
                reveal_strlit(".");
                reveal_strlit("..");
                assert("."@ =~= seq!['.']);
                assert(".."@ =~= seq!['.', '.']);
                assert(rest[i - from] == self.comps[i as int]@);
                assert(part@ == comp_text(rest[i - from]));
            }
            parts.push(part);
            assert(texts(parts@) =~= before.push(comp_text(rest[i - from])));
            assert(texts(parts@) =~= comp_texts(rest).take(i + 1 - from));
        }
        assert(comp_texts(rest).take(rest.len() as int) =~= comp_texts(rest));
        join_with(parts.as_slice(), "/")
    }

    /// The text of the path, with `/` between components.
    pub fn to_text(&self) -> (s: String)
        ensures
            s@ == path_text(self@),
    {
        assert(self@.skip(0) =~= self@);
        if self.comps.len() > 0 {
            assert(self@[0] == self.comps[0]@);
            if let Component::Prefix(p) = &self.comps[0] {
                return cat(p.as_str(), self.text_from(1).as_str());
            }
        }
        self.text_from(0)
    }

    /// The same path again.
    pub fn copy(&self) -> (p: FsPath)
        ensures
            p@ == self@,
    {
        self.part(0, self.comps.len())
    }

    /// A piece of the path.
    fn part(&self, from: usize, to: usize) -> (p: FsPath)
        requires
            from <= to <= self.comps.len(),
        ensures
            p@ == self@.subrange(from as int, to as int),
    {
        let mut out: Vec<Component> = Vec::new();
        for i in from..to
            invariant
                to <= self.comps.len(),
                comps(out@) == self@.subrange(from as int, i as int),
        {
            let ghost before = comps(out@);
            out.push(self.comps[i].copy());
            assert(comps(out@) =~= before.push(self@[i as int]));
        }
        FsPath { comps: out }
    }

    /// Whether a path does not depend on a base directory.
    pub fn is_absolute(&self) -> (r: bool)
        ensures
            r == is_rooted(self@),
    {
        if self.comps.len() == 0 {
            return false;
        }
        assert(self@[0] == self.comps[0]@);
        match &self.comps[0] {
            Component::RootDir => true,
            Component::Prefix(_) => true,
            _ => false,
        }
    }

    /// Add the components of `other` from the `from`-th on.
    fn extend(&mut self, other: &FsPath, from: usize)
        requires
            from <= other.comps.len(),
        ensures
            final(self)@ == old(self)@ + other@.skip(from as int),
    {
        let ghost before = self@;
        for i in from..other.comps.len()
            invariant
                from <= other.comps.len(),
                self@ == before + other@.subrange(from as int, i as int),
        {
            let ghost held = self@;
            self.comps.push(other.comps[i].copy());
            assert(self@ =~= held.push(other@[i as int]));
            assert(other@.subrange(from as int, i + 1) =~= other@.subrange(
                from as int,
                i as int,
            ).push(other@[i as int]));
        }
        assert(other@.subrange(from as int, other.comps.len() as int) =~= other@.skip(
            from as int,
        ));
    }

    /// `other` taken relative to this path.
    pub fn join(&self, other: &FsPath) -> (p: FsPath)
        ensures
            p@ == joined(self@, other@),
    {
        let n = other.comps.len();
        if n > 0 {
            assert(other@[0] == other.comps[0]@);
            match &other.comps[0] {
                Component::Prefix(_) => {
                    return other.copy();
                },
                Component::RootDir => {
                    if self.comps.len() > 0 {
                        assert(self@[0] == self.comps[0]@);
                        if let Component::Prefix(_) = &self.comps[0] {
                            let mut p = self.part(0, 1);
                            p.extend(other, 0);
                            assert(p@ =~= seq![self@[0]] + other@);
                            return p;
                        }
                    }
                    return other.copy();
                },
                Component::CurDir => {
                    if self.comps.len() > 0 {
                        let mut p = self.copy();
                        p.extend(other, 1);
                        return p;
                    }
                },
                _ => {},
            }
        }
        let mut p = self.copy();
        p.extend(other, 0);
        assert(p@ =~= self@ + other@);
        p
    }

    /// A name directly below this path.
    pub fn child(&self, name: &str) -> (p: FsPath)
        ensures
            p@ == self@.push(Comp::Normal(name@)),
    {
        let mut p = self.copy();
        p.comps.push(Component::Normal(name.to_owned()));
        assert(p@ =~= self@.push(Comp::Normal(name@)));
        p
    }

    /// Whether this path lies at or below `root`.
    pub fn starts_with(&self, root: &FsPath) -> (r: bool)
        ensures
            r == is_within(root@, self@),
    {
        if root.comps.len() > self.comps.len() {
            return false;
        }
        for i in 0..root.comps.len()
            invariant
                root.comps.len() <= self.comps.len(),
                forall|k: int| 0 <= k < i ==> #[trigger] self@[k] == root@[k],
        {
            if !self.comps[i].same_as(&root.comps[i]) {
                assert(self@[i as int] != root@[i as int]);
                assert(self@.take(root@.len() as int)[i as int] == self@[i as int]);
                return false;
            }
        }
        assert(self@.take(root@.len() as int) =~= root@);
        true
    }

    /// The last component, if it is a name.
    pub fn file_name(&self) -> (r: Option<String>)
        ensures
            match r {
                Some(s) => self@.len() > 0 && self@.last() == Comp::Normal(s@),
                None => self@.len() == 0 || !(self@.last() is Normal),
            },
    {
        let n = self.comps.len();
        if n == 0 {
            return None;
        }
        assert(self@.last() == self.comps[n - 1]@);
        match &self.comps[n - 1] {
            Component::Normal(s) => Some(s.clone()),
            _ => None,
        }
    }
}

/// Lexically clean a path: drop `.`, resolve `..` against prior components.
pub fn lexical_clean(path: &FsPath) -> (p: FsPath)
    ensures
        p@ == cleaned(path@),
{
    let mut out: Vec<Component> = Vec::new();
    assert(comps(out@) =~= cleaned(path@.take(0)));
    for i in 0..path.comps.len()
        invariant
            comps(out@) == cleaned(path@.take(i as int)),
    {
        let ghost before = comps(out@);
        let ghost c = path@[i as int];
        assert(path@.take(i + 1).drop_last() =~= path@.take(i as int));
        assert(path@.take(i + 1).last() == c);
        match &path.comps[i] {
            Component::CurDir => {},
            Component::ParentDir => {
                let n = out.len();
                if n > 0 {
                    assert(before.last() == out@[n - 1]@);
                }
                let last = if n == 0 {
                    None
                } else {
                    Some(&out[n - 1])
                };
                match last {
                    Some(Component::Normal(_)) => {
                        out.pop();
                        assert(comps(out@) =~= before.drop_last());
                    },
                    Some(Component::ParentDir) | None => {
                        out.push(Component::ParentDir);
                        assert(comps(out@) =~= before.push(c));
                    },
                    _ => {
                        proof {
                            lemma_cleaned_no_dot(path@.take(i as int));
                        }
                    },
                }
            },
            other => {
                out.push(other.copy());
                assert(comps(out@) =~= before.push(c));
            },
        }
    }
    assert(path@.take(path.comps.len() as int) =~= path@);
    FsPath { comps: out }
}

/// Resolve `input`, relative to `base` if it is not absolute, and clean it.
pub fn resolve(base: &FsPath, input: &FsPath) -> (p: FsPath)
    ensures
        p@ == cleaned(joined(base@, input@)),
{
    lexical_clean(&base.join(input))
}

/// The root-relative database key of an absolute, cleaned path. `None` if the
/// path is not within `root`.
pub fn to_root_relative(root: &FsPath, abs: &FsPath) -> (r: Option<String>)
    ensures
        match r {
            Some(k) => root_key(root@, abs@) == Some(k@),
            None => root_key(root@, abs@) is None,
        },
{
    if !abs.starts_with(root) {
        return None;
    }
    let ghost f = |c: Comp| name_of(c);
    let ghost rel = abs@.skip(root@.len() as int);
    let mut parts: Vec<String> = Vec::new();
    for i in root.comps.len()..abs.comps.len()
        invariant
            root.comps.len() <= abs.comps.len(),
            f == (|c: Comp| name_of(c)),
            rel == abs@.skip(root@.len() as int),
            texts(parts@) == rel.take(i - root.comps.len()).filter_map(f),
    {
        let ghost before = texts(parts@);
        proof {
            rel.lemma_filter_map_take_succ(f, i - root.comps.len());
            assert(rel[i - root.comps.len()] == abs.comps@[i as int]@);
        }
        match &abs.comps[i] {
            Component::Normal(s) => {
                parts.push(s.clone());
                assert(texts(parts@) =~= before.push(s@));
            },
            _ => {},
        }
    }
    proof {
        assert(rel.take(rel.len() as int) =~= rel);
        reveal_strlit("/");
        assert("/"@ =~= seq!['/']);
    }
    Some(join_with(parts.as_slice(), "/"))
}

/// Normalize an `input` path, relative to `cwd`, into a root-relative key.
/// `None` if it denotes something outside the root.
pub fn normalize(root: &FsPath, cwd: &FsPath, input: &FsPath) -> (r: Option<String>)
    ensures
        match r {
            Some(k) => root_key(root@, cleaned(joined(cwd@, input@))) == Some(k@),
            None => root_key(root@, cleaned(joined(cwd@, input@))) is None,
        },
{
    to_root_relative(root, &resolve(cwd, input))
}

/// Whether a path is clean: no `.`, and `..` only at the very start.
pub open spec fn is_clean(s: Seq<Comp>) -> bool {
    forall|i: int|
        0 <= i < s.len() ==> match #[trigger] s[i] {
            Comp::CurDir => false,
            Comp::ParentDir => forall|j: int| 0 <= j < i ==> #[trigger] s[j] is ParentDir,
            _ => true,
        }
}

/// A cleaned path holds no `.`.
proof fn lemma_cleaned_no_dot(s: Seq<Comp>)
    ensures
        forall|i: int| 0 <= i < cleaned(s).len() ==> !(#[trigger] cleaned(s)[i] is CurDir),
    decreases s.len(),
{
    if s.len() > 0 {
        lemma_cleaned_no_dot(s.drop_last());
    }
}

/// In a cleaned path `..` stands at the start or after another `..`.
proof fn lemma_cleaned_parents(s: Seq<Comp>)
    ensures
        forall|i: int|
            0 < i < cleaned(s).len() && (#[trigger] cleaned(s)[i] is ParentDir) ==> cleaned(s)[i
                - 1] is ParentDir,
    decreases s.len(),
{
    if s.len() > 0 {
        lemma_cleaned_parents(s.drop_last());
        let out = cleaned(s.drop_last());
        let new = cleaned(s);
        assert forall|i: int| 0 < i < new.len() && (#[trigger] new[i] is ParentDir) implies new[i
            - 1] is ParentDir by {
            if i < out.len() {
                assert(new[i] == out[i]);
                assert(new[i - 1] == out[i - 1]);
            }
        }
    }
}

/// A path in which `..` follows only `..`, and which holds no `.`, is left as
/// it is by cleaning.
proof fn lemma_clean_fixed(s: Seq<Comp>)
    requires
        forall|i: int| 0 <= i < s.len() ==> !(#[trigger] s[i] is CurDir),
        forall|i: int| 0 < i < s.len() && (#[trigger] s[i] is ParentDir) ==> s[i - 1] is ParentDir,
    ensures
        cleaned(s) == s,
    decreases s.len(),
{
    if s.len() > 0 {
        let front = s.drop_last();
        assert forall|i: int| 0 <= i < front.len() implies !(#[trigger] front[i] is CurDir) by {
            assert(front[i] == s[i]);
        }
        assert forall|i: int|
            0 < i < front.len() && (#[trigger] front[i] is ParentDir) implies front[i
            - 1] is ParentDir by {
            assert(s[i] is ParentDir);
        }
        lemma_clean_fixed(front);
        assert(!(s[s.len() - 1] is CurDir));
        if s.len() > 1 && s.last() is ParentDir {
            assert(s[s.len() - 1] is ParentDir);
            assert(front.last() == s[s.len() - 2]);
        }
        assert(front.push(s.last()) =~= s);
    }
}

/// Cleaning yields a clean path, and cleaning again changes nothing.
pub proof fn law_clean_idempotent(s: Seq<Comp>)
    ensures
        is_clean(cleaned(s)),
        cleaned(cleaned(s)) == cleaned(s),
{
    lemma_cleaned_no_dot(s);
    lemma_cleaned_parents(s);
    lemma_clean_fixed(cleaned(s));
    let c = cleaned(s);
    assert forall|i: int| 0 <= i < c.len() implies match #[trigger] c[i] {
        Comp::CurDir => false,
        Comp::ParentDir => forall|j: int| 0 <= j < i ==> #[trigger] c[j] is ParentDir,
        _ => true,
    } by {
        if c[i] is ParentDir {
            assert forall|j: int| 0 <= j < i implies #[trigger] c[j] is ParentDir by {
                lemma_parents_down(c, i, j);
            }
        }
    }
}

proof fn lemma_parents_down(c: Seq<Comp>, i: int, j: int)
    requires
        0 <= j < i < c.len(),
        c[i] is ParentDir,
        forall|k: int| 0 < k < c.len() && (#[trigger] c[k] is ParentDir) ==> c[k - 1] is ParentDir,
    ensures
        c[j] is ParentDir,
    decreases i - j,
{
    assert(c[i - 1] is ParentDir);
    if j < i - 1 {
        lemma_parents_down(c, i - 1, j);
    }
}

/// Cleaning keeps the start of a rooted path.
proof fn lemma_cleaned_rooted(s: Seq<Comp>)
    requires
        is_rooted(s),
    ensures
        is_rooted(cleaned(s)),
        cleaned(s)[0] == s[0],
    decreases s.len(),
{
    let front = s.drop_last();
    if s.len() == 1 {
        assert(cleaned(front) =~= Seq::<Comp>::empty());
    } else {
        assert(front[0] == s[0]);
        lemma_cleaned_rooted(front);
    }
}

/// Cleaning an absolute path leaves neither `.` nor `..`: the cleaned path is
/// the start it had, followed by names only.
pub proof fn law_clean_absolute(s: Seq<Comp>)
    requires
        is_rooted(s),
    ensures
        is_rooted(cleaned(s)),
        cleaned(s)[0] == s[0],
        forall|i: int|
            0 <= i < cleaned(s).len() ==> !(#[trigger] cleaned(s)[i] is CurDir) && !(
            cleaned(s)[i] is ParentDir),
{
    lemma_cleaned_rooted(s);
    law_clean_idempotent(s);
    let c = cleaned(s);
    assert forall|i: int| 0 <= i < c.len() implies !(#[trigger] c[i] is CurDir) && !(
    c[i] is ParentDir) by {
        if c[i] is ParentDir && i > 0 {
            assert(c[0] is ParentDir);
        }
    }
}

/// The components that a list of names makes.
pub open spec fn as_names(names: Seq<Seq<char>>) -> Seq<Comp> {
    names.map_values(|n: Seq<char>| Comp::Normal(n))
}

proof fn lemma_names_back(names: Seq<Seq<char>>)
    ensures
        as_names(names).filter_map(|c: Comp| name_of(c)) == names,
    decreases names.len(),
{
    let f = |c: Comp| name_of(c);
    let s = as_names(names);
    if names.len() > 0 {
        lemma_names_back(names.drop_last());
        assert(s.drop_last() =~= as_names(names.drop_last()));
        assert(f(s.last()) == Some(names.last()));
        assert(s.filter_map(f) =~= names);
    } else {
        assert(s.filter_map(f) =~= names);
    }
}

/// The key of what lies under the root along some names is those names with
/// `/` between them.
pub proof fn law_key_below_root(root: Seq<Comp>, names: Seq<Seq<char>>)
    ensures
        root_key(root, root + as_names(names)) == Some(join(names, seq!['/'])),
{
    let s = root + as_names(names);
    assert(s.take(root.len() as int) =~= root);
    assert(s.skip(root.len() as int) =~= as_names(names));
    lemma_names_back(names);
}

/// The components that the texts of a posix path parse to.
proof fn lemma_pieces(s: Seq<Comp>)
    requires
        is_posix(s),
    ensures
        comp_texts(s).filter_map(|p: Seq<char>| piece_comp(p)) == if s.len() > 0 && (
        s[0] is RootDir || s[0] is CurDir) {
            s.skip(1)
        } else {
            s
        },
    decreases s.len(),
{
    let f = |p: Seq<char>| piece_comp(p);
    let t = comp_texts(s);
    if s.len() == 0 {
        assert(t.filter_map(f) =~= s);
    } else {
        let front = s.drop_last();
        assert forall|i: int| 0 <= i < front.len() implies match #[trigger] front[i] {
            Comp::Prefix(_) => false,
            Comp::RootDir => i == 0,
            Comp::CurDir => i == 0,
            Comp::ParentDir => true,
            Comp::Normal(n) => is_name(n),
        } by {
            assert(front[i] == s[i]);
        }
        lemma_pieces(front);
        assert(t.drop_last() =~= comp_texts(front));
        let last = s[s.len() - 1];
        assert(t.last() == comp_text(last));
        match last {
            Comp::Normal(n) => {
                assert(is_name(n));
            },
            Comp::ParentDir => {
                assert(seq!['.', '.'].len() != seq!['.'].len());
            },
            _ => {
                assert(front.len() == 0);
            },
        }
        if s.len() > 1 {
            assert(front[0] == s[0]);
        }
        assert(t.filter_map(f) =~= if s[0] is RootDir || s[0] is CurDir {
            s.skip(1)
        } else {
            s
        });
    }
}

/// Writing a path as text and reading it back gives the same components.
pub proof fn law_path_text_roundtrip(s: Seq<Comp>)
    requires
        is_posix(s),
    ensures
        parsed(path_text(s)) == s,
{
    let f = |p: Seq<char>| piece_comp(p);
    let text = path_text(s);
    if s.len() == 1 && s[0] is RootDir {
        let e = Seq::<char>::empty();
        assert(text =~= e + seq!['/'] + e);
        crate::text::lemma_split_free(e, '/');
        crate::text::lemma_split_append(e, e, '/');
        assert(split(text, '/') =~= seq![e, e]);
        let two = seq![e, e];
        assert(two.drop_last() =~= seq![e]);
        assert(two.drop_last().drop_last() =~= Seq::<Seq<char>>::empty());
        assert(f(e) is None);
        reveal_with_fuel(Seq::filter_map, 3);
        assert(two.filter_map(f) =~= Seq::<Comp>::empty());
        assert(parsed(text) =~= s);
    } else if s.len() == 0 {
        assert(text =~= Seq::<char>::empty());
        let one = seq![Seq::<char>::empty()];
        assert(split(text, '/') =~= one);
        assert(one.drop_last() =~= Seq::<Seq<char>>::empty());
        assert(f(one.last()) is None);
        reveal_with_fuel(Seq::filter_map, 2);
        assert(Seq::<char>::empty() != seq!['.']) by {
            assert(seq!['.'].len() == 1);
        }
        assert(parsed(text) =~= s);
    } else {
        let t = comp_texts(s);
        assert forall|i: int| 0 <= i < t.len() implies !occurs(#[trigger] t[i], '/') by {
            match s[i] {
                Comp::Normal(n) => {
                    assert(is_name(n));
                },
                _ => {},
            }
        }
        assert(s[0] == s[0] && !(s[0] is Prefix));
        crate::text::lemma_split_join(t, '/');
        lemma_pieces(s);
        lemma_join_start(t);
        match s[0] {
            Comp::RootDir => {
                assert(t[0] =~= Seq::<char>::empty());
                assert(text[0] == '/');
            },
            Comp::Normal(n) => {
                assert(is_name(n));
                assert(t[0] == n);
                assert(text[0] == n[0]);
                assert(n[0] != '/');
            },
            Comp::CurDir => {
                assert(t[0] == seq!['.']);
                assert(text[0] == t[0][0]);
            },
            _ => {
                assert(t[0] == seq!['.', '.']);
                assert(seq!['.', '.'].len() != seq!['.'].len());
                assert(text[0] == t[0][0]);
            },
        }
        assert(parsed(text) =~= s);
    }
}

/// What a joined text starts with: its first part, or the separator if that is
/// empty and another part follows.
proof fn lemma_join_start(t: Seq<Seq<char>>)
    requires
        t.len() > 0,
    ensures
        t[0].len() > 0 ==> join(t, seq!['/']).len() > 0 && join(t, seq!['/'])[0] == t[0][0],
        t[0].len() == 0 && t.len() > 1 ==> join(t, seq!['/']).len() > 0 && join(t, seq!['/'])[0]
            == '/',
    decreases t.len(),
{
    if t.len() > 1 {
        let front = t.drop_last();
        assert(front[0] == t[0]);
        lemma_join_start(front);
        if front.len() == 1 {
            assert(join(front, seq!['/']) == t[0]);
        }
    }
}

/// A key identifies the path it was made from: appended to the root, it gives
/// the path back.
pub proof fn law_key_identifies(root: Seq<Comp>, names: Seq<Seq<char>>)
    requires
        forall|i: int| 0 <= i < names.len() ==> is_name(#[trigger] names[i]),
        is_rooted(root),
    ensures
        joined(root, parsed(join(names, seq!['/']))) == root + as_names(names),
{
    let s = as_names(names);
    assert forall|i: int| 0 <= i < s.len() implies match #[trigger] s[i] {
        Comp::Prefix(_) => false,
        Comp::RootDir => i == 0,
        Comp::CurDir => i == 0,
        Comp::ParentDir => true,
        Comp::Normal(n) => is_name(n),
    } by {
        assert(is_name(names[i]));
    }
    law_path_text_roundtrip(s);
    assert(comp_texts(s) =~= names);
    assert(path_text(s) == join(names, seq!['/']));
}

/// What follows a path is cleaned alike after every path that is the same once cleaned.
proof fn lemma_clean_after(a: Seq<Comp>, b: Seq<Comp>, rest: Seq<Comp>)
    requires
        cleaned(a) == cleaned(b),
    ensures
        cleaned(a + rest) == cleaned(b + rest),
    decreases rest.len(),
{
    if rest.len() == 0 {
        assert(a + rest =~= a);
        assert(b + rest =~= b);
    } else {
        lemma_clean_after(a, b, rest.drop_last());
        assert((a + rest).drop_last() =~= a + rest.drop_last());
        assert((b + rest).drop_last() =~= b + rest.drop_last());
        assert((a + rest).last() == rest.last() && (b + rest).last() == rest.last());
    }
}

/// What `.` and `..` mean, wherever they stand: `.` is as if it were not there; `..` takes back
/// the name before it, and at the root directory leads nowhere. What holds neither is left as it
/// is.
pub proof fn law_dots_mean(before: Seq<Comp>, name: Seq<char>, after: Seq<Comp>)
    ensures
        cleaned(before + seq![Comp::CurDir] + after) == cleaned(before + after),
        cleaned(before + seq![Comp::Normal(name), Comp::ParentDir] + after) == cleaned(
            before + after,
        ),
        cleaned(seq![Comp::RootDir, Comp::ParentDir] + after) == cleaned(
            seq![Comp::RootDir] + after,
        ),
        cleaned(seq![Comp::Prefix(name), Comp::RootDir, Comp::ParentDir] + after) == cleaned(
            seq![Comp::Prefix(name), Comp::RootDir] + after,
        ),
        is_clean(before) ==> cleaned(before) == before,
{
    let dot = before + seq![Comp::CurDir];
    assert(dot.drop_last() =~= before);
    assert(dot.last() == Comp::CurDir);
    lemma_clean_after(dot, before, after);
    let two = before + seq![Comp::Normal(name), Comp::ParentDir];
    let one = before + seq![Comp::Normal(name)];
    assert(two.drop_last() =~= one);
    assert(one.drop_last() =~= before);
    assert(one.last() == Comp::Normal(name));
    assert(two.last() == Comp::ParentDir);
    assert(cleaned(one) == cleaned(before).push(Comp::Normal(name)));
    assert(cleaned(before).push(Comp::Normal(name)).drop_last() =~= cleaned(before));
    lemma_clean_after(two, before, after);
    let up = seq![Comp::RootDir, Comp::ParentDir];
    let top = seq![Comp::RootDir];
    assert(up.drop_last() =~= top);
    assert(top.drop_last() =~= Seq::<Comp>::empty());
    assert(cleaned(Seq::<Comp>::empty()) =~= Seq::<Comp>::empty());
    assert(cleaned(top) =~= top);
    lemma_clean_after(up, top, after);
    let drive = seq![Comp::Prefix(name)];
    let far = seq![Comp::Prefix(name), Comp::RootDir];
    let high = seq![Comp::Prefix(name), Comp::RootDir, Comp::ParentDir];
    assert(drive.drop_last() =~= Seq::<Comp>::empty());
    assert(far.drop_last() =~= drive);
    assert(high.drop_last() =~= far);
    assert(cleaned(drive) =~= drive);
    assert(cleaned(far) =~= far);
    assert(high.last() is ParentDir && far.last() is RootDir);
    lemma_clean_after(high, far, after);
    if is_clean(before) {
        lemma_clean_is_fixed(before);
    }
}

proof fn lemma_clean_is_fixed(s: Seq<Comp>)
    requires
        is_clean(s),
    ensures
        cleaned(s) == s,
    decreases s.len(),
{
    if s.len() > 0 {
        let front = s.drop_last();
        let n = s.len() - 1;
        assert forall|i: int| 0 <= i < front.len() implies match #[trigger] front[i] {
            Comp::CurDir => false,
            Comp::ParentDir => forall|j: int| 0 <= j < i ==> #[trigger] front[j] is ParentDir,
            _ => true,
        } by {
            assert(front[i] == s[i]);
            if s[i] is ParentDir {
                assert forall|j: int| 0 <= j < i implies #[trigger] front[j] is ParentDir by {
                    assert(s[j] is ParentDir);
                }
            }
        }
        lemma_clean_is_fixed(front);
        assert(s[n] == s.last());
        if s[n] is ParentDir && n > 0 {
            assert(s[n - 1] is ParentDir);
            assert(front.last() is ParentDir);
        }
        assert(front.push(s.last()) =~= s);
    }
}

/// A path is taken relative to another only if it is not absolute: an absolute one stands for
/// itself, but for the drive of the other, which it keeps, and a relative one follows.
pub proof fn law_relative_follows(a: Seq<Comp>, b: Seq<Comp>, rest: Seq<Comp>)
    ensures
        b == seq![Comp::RootDir] + rest && !(a.len() > 0 && a[0] is Prefix) ==> joined(a, b) == b,
        b.len() > 0 && b[0] is Prefix ==> joined(a, b) == b,
        b.len() > 0 && b[0] is RootDir && a.len() > 0 && a[0] is Prefix ==> joined(a, b) == seq![
            a[0],
        ] + b,
        b.len() == 0 || b[0] is Normal || b[0] is ParentDir ==> joined(a, b) == a + b,
        a.len() > 0 ==> joined(a, seq![Comp::CurDir] + rest) == a + rest,
{
    assert((seq![Comp::CurDir] + rest).skip(1) =~= rest);
}

/// A path has a key exactly if it lies at or below the root: if it is the root followed by
/// something.
pub proof fn law_keys_are_for_what_lies_below(root: Seq<Comp>, s: Seq<Comp>)
    ensures
        root_key(root, s) is Some <==> exists|rest: Seq<Comp>| s == #[trigger] (root + rest),
        is_within(root, s) <==> exists|rest: Seq<Comp>| s == #[trigger] (root + rest),
{
    if is_within(root, s) {
        assert(s =~= root + s.skip(root.len() as int));
    }
    if exists|rest: Seq<Comp>| s == #[trigger] (root + rest) {
        let rest = choose|rest: Seq<Comp>| s == #[trigger] (root + rest);
        assert(s.take(root.len() as int) =~= root);
    }
}

/// What is typed in a directory of the project is found there: names typed below a directory give
/// the key of the directory's names and the typed ones.
pub proof fn law_typed_names_have_a_key(
    root: Seq<Comp>,
    dirs: Seq<Seq<char>>,
    names: Seq<Seq<char>>,
)
    requires
        is_rooted(root),
        is_clean(root),
        forall|i: int| 0 <= i < dirs.len() ==> is_name(#[trigger] dirs[i]),
        forall|i: int| 0 <= i < names.len() ==> is_name(#[trigger] names[i]),
    ensures
        root_key(
            root,
            cleaned(joined(root + as_names(dirs), parsed(join(names, seq!['/'])))),
        ) == Some(join(dirs + names, seq!['/'])),
{
    let here = root + as_names(dirs);
    assert(here[0] == root[0]);
    law_key_identifies(here, names);
    let s = here + as_names(names);
    assert(s =~= root + as_names(dirs + names));
    assert forall|i: int| 0 <= i < s.len() implies match #[trigger] s[i] {
        Comp::CurDir => false,
        Comp::ParentDir => forall|j: int| 0 <= j < i ==> #[trigger] s[j] is ParentDir,
        _ => true,
    } by {
        if i < root.len() {
            assert(s[i] == root[i]);
            if root[i] is ParentDir && i > 0 {
                assert(root[0] is ParentDir);
            }
        } else if i < here.len() {
            assert(s[i] == as_names(dirs)[i - root.len()]);
        } else {
            assert(s[i] == as_names(names)[i - here.len()]);
        }
    }
    lemma_clean_is_fixed(s);
    law_key_below_root(root, dirs + names);
}

/// A path text is its pieces: a name is a component, `..` leads up, and neither `.` nor an
/// empty piece counts, but for a slash at the start, which is the root directory, and a `.` there.
pub proof fn law_text_of_pieces(a: Seq<char>, b: Seq<char>, name: Seq<char>)
    requires
        a.len() > 0,
    ensures
        parsed(a + seq!['/'] + b) == parsed(a) + split(b, '/').filter_map(
            |p: Seq<char>| piece_comp(p),
        ),
        is_name(name) ==> parsed(name) == seq![Comp::Normal(name)],
        is_name(name) ==> parsed(a + seq!['/'] + name) == parsed(a).push(Comp::Normal(name)),
        parsed(a + seq!['/'] + seq!['.', '.']) == parsed(a).push(Comp::ParentDir),
        parsed(a + seq!['/'] + seq!['.']) == parsed(a),
        parsed(a + seq!['/']) == parsed(a),
        parsed(seq!['/']) == seq![Comp::RootDir],
        parsed(seq!['.']) == seq![Comp::CurDir],
        parsed(seq!['.', '.']) == seq![Comp::ParentDir],
        parsed(Seq::empty()) == Seq::<Comp>::empty(),
{
    let f = |p: Seq<char>| piece_comp(p);
    lemma_text_after(a, b);
    let none = Seq::<char>::empty();
    let dot = seq!['.'];
    let up = seq!['.', '.'];
    lemma_piece(none);
    lemma_piece(dot);
    lemma_piece(up);
    lemma_text_after(a, dot);
    lemma_text_after(a, up);
    lemma_text_after(a, none);
    assert(a + seq!['/'] + none =~= a + seq!['/']);
    assert(parsed(a) + Seq::<Comp>::empty() =~= parsed(a));
    assert(parsed(a) + seq![Comp::ParentDir] =~= parsed(a).push(Comp::ParentDir));
    assert(parsed(dot) =~= seq![Comp::CurDir]);
    assert(up != dot) by {
        assert(up.len() == 2 && dot.len() == 1);
    }
    assert(parsed(up) =~= seq![Comp::ParentDir]);
    assert(parsed(none) =~= Seq::<Comp>::empty()) by {
        assert(none.len() == 0 && dot.len() == 1);
    }
    let slash = seq!['/'];
    assert(slash =~= none + seq!['/'] + none);
    crate::text::lemma_split_concat(none, none, '/');
    crate::seqs::lemma_mapped_concat(split(none, '/'), split(none, '/'), f);
    assert(parsed(slash) =~= seq![Comp::RootDir]);
    if is_name(name) {
        lemma_piece(name);
        lemma_text_after(a, name);
        assert(parsed(a) + seq![Comp::Normal(name)] =~= parsed(a).push(Comp::Normal(name)));
        assert(!(name[0] == '/'));
        assert(parsed(name) =~= seq![Comp::Normal(name)]);
    }
}

proof fn lemma_text_after(a: Seq<char>, b: Seq<char>)
    requires
        a.len() > 0,
    ensures
        parsed(a + seq!['/'] + b) == parsed(a) + split(b, '/').filter_map(
            |p: Seq<char>| piece_comp(p),
        ),
{
    let f = |p: Seq<char>| piece_comp(p);
    let s = a + seq!['/'] + b;
    crate::text::lemma_split_concat(a, b, '/');
    crate::text::lemma_split_nonempty(a, '/');
    crate::seqs::lemma_mapped_concat(split(a, '/'), split(b, '/'), f);
    assert(s[0] == a[0]);
    assert(split(s, '/')[0] == split(a, '/')[0]);
    assert(path_start(s) == path_start(a));
    assert(parsed(s) =~= parsed(a) + split(b, '/').filter_map(f));
}

proof fn lemma_piece(p: Seq<char>)
    requires
        !occurs(p, '/'),
    ensures
        split(p, '/') == seq![p],
        split(p, '/').filter_map(|p: Seq<char>| piece_comp(p)) == (match piece_comp(p) {
            Some(c) => seq![c],
            None => Seq::empty(),
        }),
{
    let f = |p: Seq<char>| piece_comp(p);
    crate::text::lemma_split_free(p, '/');
    let one = seq![p];
    assert(one.take(0) =~= Seq::<Seq<char>>::empty());
    assert(one.take(1) =~= one);
    one.lemma_filter_map_take_succ(f, 0);
    assert(one.take(0).filter_map(f).len() == 0) by {
        reveal(Seq::filter_map);
    }
    assert(split(p, '/').filter_map(f) =~= match piece_comp(p) {
        Some(c) => seq![c],
        None => Seq::empty(),
    });
}

}
