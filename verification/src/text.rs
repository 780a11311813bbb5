//! Character-level text: the vocabulary in which every other module states
//! what a name, a line or a path says.
//!
//! Texts are viewed as sequences of characters. Splitting and joining are
//! inverse to each other as long as no part holds the separator, and letter
//! case is folded for ASCII only, which is the identity under which targets are
//! compared everywhere.

use vstd::prelude::*;

verus! {

/// `String::push` appends one character to the text.
pub assume_specification[ String::push ](s: &mut String, c: char)
    ensures
        final(s)@ == old(s)@.push(c),
;

/// The views of a list of texts.
pub open spec fn texts(v: Seq<String>) -> Seq<Seq<char>> {
    v.map_values(|s: String| s@)
}

/// ASCII lower case of one character.
pub open spec fn lower_char(c: char) -> char {
    if 'A' <= c && c <= 'Z' {
        ((c as u8) + 32) as char
    } else {
        c
    }
}

/// ASCII lower case of a text.
pub open spec fn lower(s: Seq<char>) -> Seq<char> {
    s.map_values(|c: char| lower_char(c))
}

/// The fields of `s` between occurrences of `sep`; never empty.
pub open spec fn split(s: Seq<char>, sep: char) -> Seq<Seq<char>>
    decreases s.len(),
{
    if s.len() == 0 {
        seq![Seq::<char>::empty()]
    } else {
        let front = split(s.drop_last(), sep);
        if s.last() == sep {
            front.push(Seq::<char>::empty())
        } else {
            front.drop_last().push(front.last().push(s.last()))
        }
    }
}

/// The parts one after the other, with `sep` between neighbours.
pub open spec fn join(parts: Seq<Seq<char>>, sep: Seq<char>) -> Seq<char>
    decreases parts.len(),
{
    if parts.len() == 0 {
        Seq::empty()
    } else if parts.len() == 1 {
        parts[0]
    } else {
        join(parts.drop_last(), sep) + sep + parts.last()
    }
}

/// Whether `s` begins with `p`.
pub open spec fn starts(s: Seq<char>, p: Seq<char>) -> bool {
    p.len() <= s.len() && s.take(p.len() as int) == p
}

/// Whether `s` ends with `p`.
pub open spec fn ends(s: Seq<char>, p: Seq<char>) -> bool {
    p.len() <= s.len() && s.skip(s.len() - p.len()) == p
}

/// Whether a character occurs in a text.
pub open spec fn occurs(s: Seq<char>, c: char) -> bool {
    s.contains(c)
}

/// Where `pat` first occurs in `s` at or after `from`.
pub open spec fn find_from(s: Seq<char>, pat: Seq<char>, from: int) -> Option<int>
    decreases s.len() + 1 - from,
{
    if from < 0 || from + pat.len() > s.len() {
        None
    } else if s.subrange(from, from + pat.len()) == pat {
        Some(from)
    } else {
        find_from(s, pat, from + 1)
    }
}

/// What precedes and what follows the first occurrence of `pat`.
pub open spec fn cut_once(s: Seq<char>, pat: Seq<char>) -> Option<(Seq<char>, Seq<char>)> {
    match find_from(s, pat, 0) {
        Some(i) => Some((s.take(i), s.skip(i + pat.len()))),
        None => None,
    }
}

/// If `pat` occurs nowhere in between, its first occurrence is the given one.
pub proof fn lemma_find_at(s: Seq<char>, pat: Seq<char>, from: int, at: int)
    requires
        0 <= from <= at,
        at + pat.len() <= s.len(),
        s.subrange(at, at + pat.len()) == pat,
        forall|i: int|
            from <= i < at ==> #[trigger] s.subrange(i, i + pat.len()) != pat,
    ensures
        find_from(s, pat, from) == Some(at),
    decreases at - from,
{
    if from < at {
        assert(s.subrange(from, from + pat.len()) != pat);
        lemma_find_at(s, pat, from + 1, at);
    }
}

/// A text is cut where a pattern follows a part that does not hold the
/// pattern's first character.
pub proof fn lemma_cut_once(a: Seq<char>, pat: Seq<char>, b: Seq<char>)
    requires
        pat.len() > 0,
        !occurs(a, pat[0]),
    ensures
        cut_once(a + pat + b, pat) == Some((a, b)),
{
    let s = a + pat + b;
    let at = a.len() as int;
    assert(s.subrange(at, at + pat.len()) =~= pat);
    assert forall|i: int| 0 <= i < at implies #[trigger] s.subrange(i, i + pat.len()) != pat by {
        assert(s.subrange(i, i + pat.len())[0] == a[i]);
    }
    lemma_find_at(s, pat, 0, at);
    assert(s.take(at) =~= a);
    assert(s.skip(at + pat.len()) =~= b);
}

/// Splitting yields at least one field.
pub proof fn lemma_split_nonempty(s: Seq<char>, sep: char)
    ensures
        split(s, sep).len() >= 1,
    decreases s.len(),
{
    if s.len() > 0 {
        lemma_split_nonempty(s.drop_last(), sep);
    }
}

/// No field of a split holds the separator.
pub proof fn law_fields_hold_no_separator(s: Seq<char>, sep: char)
    ensures
        forall|i: int| 0 <= i < split(s, sep).len() ==> !occurs(#[trigger] split(s, sep)[i], sep),
    decreases s.len(),
{
    lemma_split_nonempty(s, sep);
    if s.len() > 0 {
        let front = split(s.drop_last(), sep);
        lemma_split_nonempty(s.drop_last(), sep);
        law_fields_hold_no_separator(s.drop_last(), sep);
        let out = split(s, sep);
        assert forall|i: int| 0 <= i < out.len() implies !occurs(#[trigger] out[i], sep) by {
            if s.last() == sep {
                if i < front.len() {
                    assert(out[i] == front[i]);
                }
            } else if i < front.len() - 1 {
                assert(out[i] == front[i]);
            } else {
                assert(out[i] == front.last().push(s.last()));
                if occurs(out[i], sep) {
                    let k = choose|k: int| 0 <= k < out[i].len() && out[i][k] == sep;
                    assert(front.last()[k] == sep);
                    assert(occurs(front[front.len() - 1], sep));
                }
            }
        }
    }
}

/// Joining the fields of a split gives the text back.
pub proof fn law_join_of_split(s: Seq<char>, sep: char)
    ensures
        join(split(s, sep), seq![sep]) == s,
    decreases s.len(),
{
    if s.len() > 0 {
        let front = split(s.drop_last(), sep);
        lemma_split_nonempty(s.drop_last(), sep);
        law_join_of_split(s.drop_last(), sep);
        let out = split(s, sep);
        if s.last() == sep {
            assert(out.drop_last() == front);
            assert(join(out, seq![sep]) == s.drop_last() + seq![sep] + Seq::<char>::empty());
            assert(join(out, seq![sep]) =~= s);
        } else {
            assert(out.drop_last() == front.drop_last());
            if front.len() == 1 {
                assert(join(front, seq![sep]) == front[0]);
                assert(join(out, seq![sep]) =~= s);
            } else {
                let head = join(front.drop_last(), seq![sep]) + seq![sep];
                assert(join(front, seq![sep]) == head + front.last());
                assert(out.len() == front.len());
                assert(out.last() == front.last().push(s.last()));
                assert(join(out, seq![sep]) == head + front.last().push(s.last()));
                assert(head + front.last().push(s.last()) =~= s.drop_last().push(s.last()));
                assert(s.drop_last().push(s.last()) =~= s);
            }
        }
    } else {
        assert(join(split(s, sep), seq![sep]) =~= s);
    }
}

/// A separator-free text is its own single field.
pub proof fn lemma_split_free(s: Seq<char>, sep: char)
    requires
        !occurs(s, sep),
    ensures
        split(s, sep) == seq![s],
    decreases s.len(),
{
    if s.len() > 0 {
        assert forall|i: int| 0 <= i < s.drop_last().len() implies s.drop_last()[i] != sep by {
            assert(s[i] != sep);
        }
        lemma_split_free(s.drop_last(), sep);
        assert(s.last() == s[s.len() - 1]);
        assert(split(s, sep) =~= seq![s]) by {
            assert(s.drop_last().push(s.last()) =~= s);
        }
    } else {
        assert(s =~= Seq::<char>::empty());
    }
}

/// Splitting distributes over a separator followed by a separator-free text.
pub proof fn lemma_split_append(a: Seq<char>, b: Seq<char>, sep: char)
    requires
        !occurs(b, sep),
    ensures
        split(a + seq![sep] + b, sep) == split(a, sep).push(b),
    decreases b.len(),
{
    let s = a + seq![sep] + b;
    if b.len() == 0 {
        assert(s.drop_last() =~= a);
        assert(s.last() == sep);
        assert(b =~= Seq::<char>::empty());
        assert(split(s, sep) =~= split(a, sep).push(b));
    } else {
        assert forall|i: int| 0 <= i < b.drop_last().len() implies b.drop_last()[i] != sep by {
            assert(b[i] != sep);
        }
        assert(s.drop_last() =~= a + seq![sep] + b.drop_last());
        lemma_split_append(a, b.drop_last(), sep);
        assert(s.last() == b[b.len() - 1]);
        assert(b.drop_last().push(b.last()) =~= b);
        assert(split(s, sep) =~= split(a, sep).push(b));
    }
}

/// Splitting a joined list of separator-free parts gives the parts back.
pub proof fn lemma_split_join(parts: Seq<Seq<char>>, sep: char)
    requires
        parts.len() >= 1,
        forall|i: int| 0 <= i < parts.len() ==> !occurs(#[trigger] parts[i], sep),
    ensures
        split(join(parts, seq![sep]), sep) == parts,
    decreases parts.len(),
{
    if parts.len() == 1 {
        lemma_split_free(parts[0], sep);
        assert(parts =~= seq![parts[0]]);
    } else {
        let front = parts.drop_last();
        assert forall|i: int| 0 <= i < front.len() implies !occurs(#[trigger] front[i], sep) by {
            assert(front[i] == parts[i]);
        }
        lemma_split_join(front, sep);
        lemma_split_append(join(front, seq![sep]), parts[parts.len() - 1], sep);
        assert(front.push(parts.last()) =~= parts);
    }
}

/// Joining two lists one after the other.
pub proof fn lemma_join_concat(a: Seq<Seq<char>>, b: Seq<Seq<char>>, sep: Seq<char>)
    requires
        a.len() > 0,
        b.len() > 0,
    ensures
        join(a + b, sep) == join(a, sep) + sep + join(b, sep),
    decreases b.len(),
{
    let s = a + b;
    if b.len() == 1 {
        assert(s.drop_last() =~= a);
        assert(s.last() == b[0]);
    } else {
        assert(s.drop_last() =~= a + b.drop_last());
        lemma_join_concat(a, b.drop_last(), sep);
        assert(s.last() == b.last());
        assert(join(s, sep) =~= join(a, sep) + sep + join(b, sep));
    }
}

/// Joining parts that are not empty gives a text that is not empty.
pub proof fn lemma_join_nonempty(a: Seq<Seq<char>>, sep: Seq<char>)
    requires
        a.len() > 0,
        forall|i: int| 0 <= i < a.len() ==> (#[trigger] a[i]).len() > 0,
    ensures
        join(a, sep).len() > 0,
{
    assert(a[a.len() - 1].len() > 0);
    assert(a.last() == a[a.len() - 1]);
}

/// The characters of a text, in order.
pub fn to_chars(s: &str) -> (out: Vec<char>)
    ensures
        out@ == s@,
{
    let mut out: Vec<char> = Vec::new();
    for c in it: s.chars()
        invariant
            out@ == it.seq().take(it.index()),
            it.seq() == s@,
    {
        out.push(c);
    }
    out
}

/// The text made of the given characters.
pub fn from_chars(cs: &[char]) -> (s: String)
    ensures
        s@ == cs@,
{
    let mut s = String::new();
    for i in 0..cs.len()
        invariant
            s@ == cs@.take(i as int),
    {
        s.push(cs[i]);
    }
    assert(cs@.take(cs.len() as int) == cs@);
    s
}

/// A piece of a character list.
pub fn piece(cs: &[char], from: usize, to: usize) -> (s: String)
    requires
        from <= to <= cs.len(),
    ensures
        s@ == cs@.subrange(from as int, to as int),
{
    let mut s = String::new();
    for i in from..to
        invariant
            to <= cs.len(),
            s@ == cs@.subrange(from as int, i as int),
    {
        s.push(cs[i]);
    }
    s
}

/// Whether two texts are equal.
pub fn same(a: &str, b: &str) -> (r: bool)
    ensures
        r == (a@ == b@),
{
    a.to_owned() == b.to_owned()
}

/// ASCII lower case of a text.
pub fn to_lower(s: &str) -> (out: String)
    ensures
        out@ == lower(s@),
{
    let cs = to_chars(s);
    let mut out = String::new();
    for i in 0..cs.len()
        invariant
            cs@ == s@,
            out@ == lower(cs@.take(i as int)),
    {
        let c = cs[i];
        let l = if 'A' <= c && c <= 'Z' {
            ((c as u8) + 32) as char
        } else {
            c
        };
        out.push(l);
        assert(lower(cs@.take(i + 1)) =~= lower(cs@.take(i as int)).push(lower_char(c)));
    }
    assert(cs@.take(cs.len() as int) =~= s@);
    out
}

/// Whether two texts are equal up to ASCII letter case.
pub fn same_folded(a: &str, b: &str) -> (r: bool)
    ensures
        r == (lower(a@) == lower(b@)),
{
    to_lower(a) == to_lower(b)
}

/// The fields of `s` between occurrences of `sep`.
pub fn split_on(s: &str, sep: char) -> (out: Vec<String>)
    ensures
        texts(out@) == split(s@, sep),
        out.len() >= 1,
{
    let cs = to_chars(s);
    let mut done: Vec<String> = Vec::new();
    let mut cur = String::new();
    assert(texts(done@).push(cur@) =~= split(cs@.take(0), sep));
    for i in 0..cs.len()
        invariant
            cs@ == s@,
            texts(done@).push(cur@) == split(cs@.take(i as int), sep),
    {
        let c = cs[i];
        let ghost before = texts(done@).push(cur@);
        assert(cs@.take(i + 1).drop_last() =~= cs@.take(i as int));
        if c == sep {
            let ghost d0 = done@;
            done.push(cur);
            cur = String::new();
            assert(texts(done@) =~= before);
            assert(texts(done@).push(cur@) =~= split(cs@.take(i + 1), sep));
        } else {
            cur.push(c);
            assert(texts(done@).push(cur@) =~= before.drop_last().push(before.last().push(c)));
        }
    }
    assert(cs@.take(cs.len() as int) =~= s@);
    let ghost last = cur@;
    let ghost front = texts(done@);
    done.push(cur);
    assert(texts(done@) =~= front.push(last));
    done
}

/// The parts one after the other, with `sep` between neighbours.
pub fn join_with(parts: &[String], sep: &str) -> (out: String)
    ensures
        out@ == join(texts(parts@), sep@),
{
    let mut out = String::new();
    for i in 0..parts.len()
        invariant
            out@ == join(texts(parts@).take(i as int), sep@),
    {
        if i > 0 {
            out.append(sep);
        }
        out.append(parts[i].as_str());
        let ghost t = texts(parts@).take(i + 1);
        assert(t.drop_last() =~= texts(parts@).take(i as int));
        assert(t.last() == parts@[i as int]@);
        if i == 0 {
            assert(out@ =~= t[0]);
        }
    }
    assert(texts(parts@).take(parts.len() as int) =~= texts(parts@));
    out
}

/// Whether `s` begins with `p`.
pub fn has_prefix(s: &str, p: &str) -> (r: bool)
    ensures
        r == starts(s@, p@),
{
    strip_prefix(s, p).is_some()
}

/// What follows the prefix `p`, if `s` begins with it.
pub fn strip_prefix(s: &str, p: &str) -> (r: Option<String>)
    ensures
        r is Some <==> starts(s@, p@),
        r matches Some(rest) ==> rest@ == s@.skip(p@.len() as int),
{
    let cs = to_chars(s);
    let ps = to_chars(p);
    if cs.len() < ps.len() {
        return None;
    }
    let head = piece(cs.as_slice(), 0, ps.len());
    assert(head@ =~= s@.take(p@.len() as int));
    if head == p.to_owned() {
        let rest = piece(cs.as_slice(), ps.len(), cs.len());
        assert(rest@ =~= s@.skip(p@.len() as int));
        Some(rest)
    } else {
        None
    }
}

/// What precedes the suffix `p`, if `s` ends with it.
pub fn strip_suffix(s: &str, p: &str) -> (r: Option<String>)
    ensures
        r is Some <==> ends(s@, p@),
        r matches Some(rest) ==> rest@ == s@.take(s@.len() - p@.len()),
{
    let cs = to_chars(s);
    let ps = to_chars(p);
    if cs.len() < ps.len() {
        return None;
    }
    let at = cs.len() - ps.len();
    let tail = piece(cs.as_slice(), at, cs.len());
    assert(tail@ =~= s@.skip(s@.len() - p@.len()));
    if tail == p.to_owned() {
        let rest = piece(cs.as_slice(), 0, at);
        assert(rest@ =~= s@.take(s@.len() - p@.len()));
        Some(rest)
    } else {
        None
    }
}

/// Whether a character occurs in a text.
pub fn holds(s: &str, c: char) -> (r: bool)
    ensures
        r == occurs(s@, c),
{
    let cs = to_chars(s);
    for i in 0..cs.len()
        invariant
            cs@ == s@,
            forall|j: int| 0 <= j < i ==> cs@[j] != c,
    {
        if cs[i] == c {
            assert(s@[i as int] == c);
            return true;
        }
    }
    false
}

/// Two texts, one after the other.
pub fn cat(a: &str, b: &str) -> (s: String)
    ensures
        s@ == a@ + b@,
{
    a.to_owned().concat(b)
}

/// Three texts, one after the other.
pub fn cat3(a: &str, b: &str, c: &str) -> (s: String)
    ensures
        s@ == a@ + b@ + c@,
{
    a.to_owned().concat(b).concat(c)
}

/// A copy of a list of texts.
pub fn copy_texts(v: &[String]) -> (out: Vec<String>)
    ensures
        texts(out@) == texts(v@),
{
    let mut out: Vec<String> = Vec::new();
    for i in 0..v.len()
        invariant
            texts(out@) == texts(v@).take(i as int),
    {
        let ghost before = texts(out@);
        out.push(v[i].clone());
        assert(texts(out@) =~= before.push(v@[i as int]@));
        assert(texts(out@) =~= texts(v@).take(i + 1));
    }
    assert(texts(v@).take(v.len() as int) =~= texts(v@));
    out
}

/// Whether a text occurs in a list.
pub fn lists(v: &[String], s: &str) -> (r: bool)
    ensures
        r == texts(v@).contains(s@),
{
    for i in 0..v.len()
        invariant
            forall|j: int| 0 <= j < i ==> texts(v@)[j] != s@,
    {
        if same(v[i].as_str(), s) {
            assert(texts(v@)[i as int] == s@);
            return true;
        }
    }
    false
}

/// What precedes and what follows the first occurrence of `pat`.
pub fn split_once(s: &str, pat: &str) -> (r: Option<(String, String)>)
    ensures
        match r {
            Some((a, b)) => cut_once(s@, pat@) == Some((a@, b@)),
            None => cut_once(s@, pat@) is None,
        },
{
    let cs = to_chars(s);
    let ps = to_chars(pat);
    let want = pat.to_owned();
    let mut i: usize = 0;
    while ps.len() <= cs.len() - i
        invariant
            cs@ == s@,
            ps@ == pat@,
            want@ == pat@,
            i <= cs.len(),
            find_from(s@, pat@, 0) == find_from(s@, pat@, i as int),
        decreases cs.len() - i,
    {
        let here = piece(cs.as_slice(), i, i + ps.len());
        if here == want {
            let a = piece(cs.as_slice(), 0, i);
            let b = piece(cs.as_slice(), i + ps.len(), cs.len());
            assert(a@ =~= s@.take(i as int));
            assert(b@ =~= s@.skip(i + pat@.len()));
            return Some((a, b));
        }
        assert(i < cs.len()) by {
            if i == cs.len() {
                assert(here@ =~= want@);
            }
        }
        i += 1;
    }
    None
}

/// The view of an optional text.
pub open spec fn opt(v: Option<String>) -> Option<Seq<char>> {
    match v {
        Some(s) => Some(s@),
        None => None,
    }
}

/// A copy of an optional text.
pub fn copy_opt(v: &Option<String>) -> (r: Option<String>)
    ensures
        opt(r) == opt(*v),
{
    match v {
        Some(s) => Some(s.clone()),
        None => None,
    }
}

/// Whether two optional texts are equal.
pub fn same_opt(a: &Option<String>, b: &Option<String>) -> (r: bool)
    ensures
        r == (opt(*a) == opt(*b)),
{
    match (a, b) {
        (Some(x), Some(y)) => same(x.as_str(), y.as_str()),
        (None, None) => true,
        _ => false,
    }
}

/// Only the capital letters of ASCII have a lower case of their own, the letter 32 further on.
pub proof fn lemma_lower_char(c: char)
    ensures
        'A' <= c && c <= 'Z' ==> lower_char(c) as int == c as int + 32,
        !('A' <= c && c <= 'Z') ==> lower_char(c) == c,
{
}

/// Splitting distributes over a separator.
pub proof fn lemma_split_concat(a: Seq<char>, b: Seq<char>, sep: char)
    ensures
        split(a + seq![sep] + b, sep) == split(a, sep) + split(b, sep),
    decreases b.len(),
{
    let s = a + seq![sep] + b;
    if b.len() == 0 {
        assert(s.drop_last() =~= a);
        assert(s.last() == sep);
        assert(split(s, sep) =~= split(a, sep) + split(b, sep));
    } else {
        let c = b.drop_last();
        assert(s.drop_last() =~= a + seq![sep] + c);
        assert(s.last() == b.last());
        lemma_split_concat(a, c, sep);
        lemma_split_nonempty(c, sep);
        let x = split(a, sep);
        let y = split(c, sep);
        assert((x + y).drop_last() =~= x + y.drop_last());
        assert((x + y).last() == y.last());
        assert(split(s, sep) =~= x + split(b, sep));
    }
}

/// How often a character occurs in a text.
pub open spec fn count(s: Seq<char>, c: char) -> nat
    decreases s.len(),
{
    if s.len() == 0 {
        0
    } else {
        count(s.drop_last(), c) + if s.last() == c {
            1nat
        } else {
            0nat
        }
    }
}

/// A text has one field more than separators, and the fields lie between them: what precedes
/// a separator and what follows it are split each on its own.
pub proof fn law_fields_lie_between_separators(a: Seq<char>, b: Seq<char>, sep: char)
    ensures
        split(a, sep).len() == count(a, sep) + 1,
        split(a + seq![sep] + b, sep) == split(a, sep) + split(b, sep),
        !occurs(a, sep) ==> split(a, sep) == seq![a],
    decreases a.len(),
{
    lemma_split_concat(a, b, sep);
    if !occurs(a, sep) {
        lemma_split_free(a, sep);
    }
    if a.len() > 0 {
        lemma_split_nonempty(a.drop_last(), sep);
        law_fields_lie_between_separators(a.drop_last(), b, sep);
    }
}

/// A longer beginning holds no fewer of a character, and more if it takes one in.
pub proof fn lemma_count_take(s: Seq<char>, c: char, i: int, j: int)
    requires
        0 <= i <= j <= s.len(),
    ensures
        count(s.take(i), c) <= count(s.take(j), c),
        i < j && s[i] == c ==> count(s.take(i), c) < count(s.take(j), c),
    decreases j - i,
{
    if i < j {
        lemma_count_take(s, c, i, j - 1);
        assert(s.take(j).drop_last() =~= s.take(j - 1));
        assert(s.take(j).last() == s[j - 1]);
    }
}

/// Joining a list with one more part at its end.
pub proof fn lemma_join_push(parts: Seq<Seq<char>>, x: Seq<char>, sep: Seq<char>)
    ensures
        parts.len() > 0 ==> join(parts.push(x), sep) == join(parts, sep) + sep + x,
        parts.len() == 0 ==> join(parts.push(x), sep) == x,
{
    assert(parts.push(x).drop_last() =~= parts);
}

/// Texts are cut at the first occurrence of a pattern: the two parts with the pattern between
/// them are the text, and the pattern occurs no earlier. Only a text without the pattern is not
/// cut.
pub proof fn law_cut_at_the_first_occurrence(s: Seq<char>, pat: Seq<char>)
    ensures
        cut_once(s, pat) matches Some((a, b)) ==> s == a + pat + b,
        cut_once(s, pat) matches Some((a, _)) ==> forall|x: Seq<char>, y: Seq<char>|
            s == #[trigger] (x + pat + y) ==> x.len() >= a.len(),
        cut_once(s, pat) is None ==> forall|x: Seq<char>, y: Seq<char>|
            s != #[trigger] (x + pat + y),
{
    lemma_found_first(s, pat, 0);
    assert forall|x: Seq<char>, y: Seq<char>| s == #[trigger] (x + pat + y) implies (match find_from(
        s,
        pat,
        0,
    ) {
        Some(k) => x.len() >= k,
        None => false,
    }) by {
        let i = x.len() as int;
        assert(s.subrange(i, i + pat.len()) =~= pat);
    }
    if let Some(k) = find_from(s, pat, 0) {
        assert(s =~= s.take(k) + pat + s.skip(k + pat.len())) by {
            assert(s =~= s.take(k) + s.subrange(k, k + pat.len()) + s.skip(k + pat.len()));
        }
    }
}

proof fn lemma_found_first(s: Seq<char>, pat: Seq<char>, from: int)
    requires
        from >= 0,
    ensures
        find_from(s, pat, from) matches Some(k) ==> from <= k && k + pat.len() <= s.len()
            && s.subrange(k, k + pat.len()) == pat,
        forall|i: int|
            from <= i && i + pat.len() <= s.len() && #[trigger] s.subrange(i, i + pat.len()) == pat
                ==> (find_from(s, pat, from) matches Some(k) && k <= i),
    decreases s.len() + 1 - from,
{
    if from + pat.len() <= s.len() && s.subrange(from, from + pat.len()) != pat {
        lemma_found_first(s, pat, from + 1);
    }
}

/// A text begins with another if it is that text followed by something, and ends with it if it
/// is something followed by that text.
pub proof fn law_beginnings_and_ends(s: Seq<char>, p: Seq<char>)
    ensures
        starts(s, p) <==> exists|rest: Seq<char>| s == #[trigger] (p + rest),
        ends(s, p) <==> exists|rest: Seq<char>| s == #[trigger] (rest + p),
{
    if starts(s, p) {
        assert(s =~= p + s.skip(p.len() as int));
    }
    if ends(s, p) {
        assert(s =~= s.take(s.len() - p.len()) + p);
    }
    if exists|rest: Seq<char>| s == #[trigger] (p + rest) {
        let rest = choose|rest: Seq<char>| s == #[trigger] (p + rest);
        assert(s.take(p.len() as int) =~= p);
    }
    if exists|rest: Seq<char>| s == #[trigger] (rest + p) {
        let rest = choose|rest: Seq<char>| s == #[trigger] (rest + p);
        assert(s.skip(s.len() - p.len()) =~= p);
    }
}

}
