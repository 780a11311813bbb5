//! The order in which paths are listed: by their characters, with case folded.

use crate::text::{lower, texts, to_chars, to_lower};
use vstd::prelude::*;

verus! {

/// Whether a text comes before another: at the first place where they differ it has
/// the smaller character, or it ends there.
pub open spec fn text_before(a: Seq<char>, b: Seq<char>) -> bool
    decreases b.len(),
{
    if b.len() == 0 {
        false
    } else if a.len() == 0 {
        true
    } else if a[0] != b[0] {
        a[0] < b[0]
    } else {
        text_before(a.skip(1), b.skip(1))
    }
}

/// Whether a path is listed before another.
pub open spec fn path_before(a: Seq<char>, b: Seq<char>) -> bool {
    text_before(lower(a), lower(b))
}

/// Whether a list is in the order of its paths.
pub open spec fn in_order(s: Seq<Seq<char>>) -> bool {
    forall|i: int, j: int|
        0 <= i < j < s.len() ==> !path_before(#[trigger] s[j], #[trigger] s[i])
}

/// A list in the order of its paths with one more in its place: after those that do
/// not come later.
pub open spec fn placed(s: Seq<Seq<char>>, x: Seq<char>) -> Seq<Seq<char>>
    decreases s.len(),
{
    if s.len() > 0 && path_before(x, s.last()) {
        placed(s.drop_last(), x).push(s.last())
    } else {
        s.push(x)
    }
}

/// A list brought into the order of its paths.
pub open spec fn by_path(s: Seq<Seq<char>>) -> Seq<Seq<char>>
    decreases s.len(),
{
    if s.len() == 0 {
        Seq::empty()
    } else {
        placed(by_path(s.drop_last()), s.last())
    }
}

/// Whether a path is listed before another.
pub fn is_before(a: &str, b: &str) -> (r: bool)
    ensures
        r == path_before(a@, b@),
{
    let x = to_chars(to_lower(a).as_str());
    let y = to_chars(to_lower(b).as_str());
    let mut i: usize = 0;
    assert(x@.skip(0) =~= x@);
    assert(y@.skip(0) =~= y@);
    while i < x.len() && i < y.len() && x[i] == y[i]
        invariant
            i <= x.len(),
            i <= y.len(),
            text_before(x@, y@) == text_before(x@.skip(i as int), y@.skip(i as int)),
        decreases x.len() - i,
    {
        assert(x@.skip(i as int)[0] == x@[i as int]);
        assert(y@.skip(i as int)[0] == y@[i as int]);
        assert(x@.skip(i as int).skip(1) =~= x@.skip(i + 1));
        assert(y@.skip(i as int).skip(1) =~= y@.skip(i + 1));
        i = i + 1;
    }
    if i >= y.len() {
        return false;
    }
    if i >= x.len() {
        return true;
    }
    assert(x@.skip(i as int)[0] == x@[i as int]);
    assert(y@.skip(i as int)[0] == y@[i as int]);
    x[i] < y[i]
}

/// Bring a list into the order of its paths.
pub fn sort_paths(list: &[String]) -> (out: Vec<String>)
    ensures
        texts(out@) == by_path(texts(list@)),
{
    let ghost all = texts(list@);
    let mut out: Vec<String> = Vec::new();
    assert(texts(out@) =~= Seq::<Seq<char>>::empty());
    for i in 0..list.len()
        invariant
            all == texts(list@),
            texts(out@) == by_path(all.take(i as int)),
    {
        let ghost held = texts(out@);
        assert(all.take(i + 1).drop_last() =~= all.take(i as int));
        assert(all.take(i + 1).last() == list@[i as int]@);
        let x = list[i].clone();
        let mut k: usize = out.len();
        assert(held.take(k as int) =~= held);
        assert(held.skip(k as int) =~= Seq::<Seq<char>>::empty());
        assert(placed(held, x@) =~= placed(held.take(k as int), x@) + held.skip(k as int));
        while k > 0 && is_before(x.as_str(), out[k - 1].as_str())
            invariant
                k <= out.len(),
                held == texts(out@),
                placed(held, x@) == placed(held.take(k as int), x@) + held.skip(k as int),
            decreases k,
        {
            let ghost part = held.take(k as int);
            assert(part.last() == out@[k - 1]@);
            assert(part.drop_last() =~= held.take(k - 1));
            assert(placed(held.take(k - 1), x@).push(part.last()) + held.skip(k as int) =~= placed(
                held.take(k - 1),
                x@,
            ) + held.skip(k - 1));
            k = k - 1;
        }
        let ghost xv = x@;
        proof {
            let part = held.take(k as int);
            if k > 0 {
                assert(part.last() == out@[k - 1]@);
            }
            assert(placed(part, xv) == part.push(xv));
        }
        out.insert(k, x);
        assert(texts(out@) =~= held.insert(k as int, xv));
        assert(held.insert(k as int, xv) =~= held.take(k as int).push(xv) + held.skip(k as int));
    }
    assert(all.take(all.len() as int) =~= all);
    out
}

proof fn lemma_not_both(a: Seq<char>, b: Seq<char>)
    ensures
        !(text_before(a, b) && text_before(b, a)),
    decreases b.len(),
{
    if a.len() > 0 && b.len() > 0 && a[0] == b[0] {
        lemma_not_both(a.skip(1), b.skip(1));
    }
}

proof fn lemma_transitive(a: Seq<char>, b: Seq<char>, c: Seq<char>)
    requires
        !text_before(b, a),
        !text_before(c, b),
    ensures
        !text_before(c, a),
    decreases a.len(),
{
    if a.len() > 0 && b.len() > 0 && c.len() > 0 && a[0] == b[0] && b[0] == c[0] {
        lemma_transitive(a.skip(1), b.skip(1), c.skip(1));
    }
}

proof fn lemma_placed(s: Seq<Seq<char>>, x: Seq<char>)
    requires
        in_order(s),
    ensures
        in_order(placed(s, x)),
        placed(s, x).to_multiset() == s.to_multiset().insert(x),
        forall|i: int|
            0 <= i < placed(s, x).len() ==> s.contains(#[trigger] placed(s, x)[i])
                || placed(s, x)[i] == x,
    decreases s.len(),
{
    broadcast use vstd::seq_lib::group_to_multiset_ensures;

    let out = placed(s, x);
    if s.len() > 0 && path_before(x, s.last()) {
        let front = s.drop_last();
        let low = placed(front, x);
        assert(in_order(front)) by {
            assert forall|i: int, j: int| 0 <= i < j < front.len() implies !path_before(
                #[trigger] front[j],
                #[trigger] front[i],
            ) by {
                assert(!path_before(s[j], s[i]));
            }
        }
        lemma_placed(front, x);
        lemma_not_both(lower(x), lower(s.last()));
        assert forall|i: int| 0 <= i < out.len() implies s.contains(#[trigger] out[i]) || out[i]
            == x by {
            if i < low.len() {
                assert(out[i] == low[i]);
                if front.contains(low[i]) {
                    let k = choose|k: int| 0 <= k < front.len() && front[k] == low[i];
                    assert(s[k] == out[i]);
                }
            } else {
                assert(out[i] == s[s.len() - 1]);
            }
        }
        assert forall|i: int, j: int| 0 <= i < j < out.len() implies !path_before(
            #[trigger] out[j],
            #[trigger] out[i],
        ) by {
            if j < low.len() {
                assert(!path_before(low[j], low[i]));
            } else {
                assert(out[i] == low[i]);
                if front.contains(low[i]) {
                    let k = choose|k: int| 0 <= k < front.len() && front[k] == low[i];
                    assert(!path_before(s[s.len() - 1], s[k]));
                }
            }
        }
        assert(s =~= front.push(s.last()));
        assert(out.to_multiset() =~= s.to_multiset().insert(x));
    } else {
        assert forall|i: int, j: int| 0 <= i < j < out.len() implies !path_before(
            #[trigger] out[j],
            #[trigger] out[i],
        ) by {
            if j < s.len() {
                assert(!path_before(s[j], s[i]));
            } else if i < s.len() - 1 {
                assert(!path_before(s[s.len() - 1], s[i]));
                lemma_transitive(lower(s[i]), lower(s.last()), lower(x));
            }
        }
        assert forall|i: int| 0 <= i < out.len() implies s.contains(#[trigger] out[i]) || out[i]
            == x by {
            if i < s.len() {
                assert(s[i] == out[i]);
            }
        }
    }
}

/// Sorting a list brings it into the order of its paths, and changes nothing else.
pub proof fn law_sorted(s: Seq<Seq<char>>)
    ensures
        in_order(by_path(s)),
        by_path(s).to_multiset() == s.to_multiset(),
    decreases s.len(),
{
    if s.len() > 0 {
        broadcast use vstd::seq_lib::group_to_multiset_ensures;

        law_sorted(s.drop_last());
        lemma_placed(by_path(s.drop_last()), s.last());
        assert(s =~= s.drop_last().push(s.last()));
    } else {
        assert(s =~= Seq::<Seq<char>>::empty());
    }
}

/// What is left out of a list does not change the order of the rest.
pub proof fn lemma_filter_in_order(s: Seq<Seq<char>>, p: spec_fn(Seq<char>) -> bool)
    requires
        in_order(s),
    ensures
        in_order(s.filter(p)),
    decreases s.len(),
{
    reveal(Seq::filter);
    if s.len() > 0 {
        let front = s.drop_last();
        let kept = front.filter(p);
        assert(in_order(front)) by {
            assert forall|i: int, j: int| 0 <= i < j < front.len() implies !path_before(
                #[trigger] front[j],
                #[trigger] front[i],
            ) by {
                assert(!path_before(s[j], s[i]));
            }
        }
        lemma_filter_in_order(front, p);
        crate::seqs::lemma_filter_holds(front, p);
        let out = s.filter(p);
        assert forall|i: int, j: int| 0 <= i < j < out.len() implies !path_before(
            #[trigger] out[j],
            #[trigger] out[i],
        ) by {
            if j < kept.len() {
                assert(!path_before(kept[j], kept[i]));
            } else {
                assert(out[i] == kept[i]);
                assert(kept.contains(kept[i]));
                let k = choose|k: int| 0 <= k < front.len() && front[k] == kept[i];
                assert(!path_before(s[s.len() - 1], s[k]));
            }
        }
    }
}

/// What comes before means: up to some place two texts agree, and there the first ends, or has
/// the smaller character. Paths are compared so with their case folded.
pub proof fn law_order_of_texts(a: Seq<char>, b: Seq<char>)
    ensures
        text_before(a, b) <==> exists|i: int|
            0 <= i <= a.len() && i < b.len() && #[trigger] a.take(i) == b.take(i) && (i == a.len()
                || a[i] < b[i]),
        path_before(a, b) <==> text_before(lower(a), lower(b)),
        text_before(a, b) ==> !text_before(b, a),
        a != b ==> text_before(a, b) || text_before(b, a),
    decreases b.len(),
{
    if b.len() == 0 {
        if a.len() > 0 {
            assert(text_before(b, a));
        } else {
            assert(a =~= b);
        }
    } else if a.len() == 0 {
        assert(a.take(0) =~= b.take(0));
    } else if a[0] != b[0] {
        assert(a.take(0) =~= b.take(0));
        assert forall|i: int|
            0 <= i <= a.len() && i < b.len() && #[trigger] a.take(i) == b.take(i) && (i == a.len()
                || a[i] < b[i]) implies a[0] < b[0] by {
            if i > 0 {
                assert(a.take(i)[0] == b.take(i)[0]);
            }
        }
    } else {
        let x = a.skip(1);
        let y = b.skip(1);
        law_order_of_texts(x, y);
        if text_before(x, y) {
            let i = choose|i: int|
                0 <= i <= x.len() && i < y.len() && #[trigger] x.take(i) == y.take(i) && (i
                    == x.len() || x[i] < y[i]);
            assert(a.take(i + 1) =~= seq![a[0]] + x.take(i));
            assert(b.take(i + 1) =~= seq![b[0]] + y.take(i));
        }
        if exists|i: int|
            0 <= i <= a.len() && i < b.len() && #[trigger] a.take(i) == b.take(i) && (i == a.len()
                || a[i] < b[i]) {
            let i = choose|i: int|
                0 <= i <= a.len() && i < b.len() && #[trigger] a.take(i) == b.take(i) && (i
                    == a.len() || a[i] < b[i]);
            assert(x.take(i - 1) =~= a.take(i).skip(1));
            assert(y.take(i - 1) =~= b.take(i).skip(1));
        }
        if a != b && x == y {
            assert(a =~= seq![a[0]] + x);
            assert(b =~= seq![b[0]] + y);
        }
    }
}

}
