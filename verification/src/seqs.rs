//! Facts about sequences that the other modules rest on: what filtering,
//! mapping and pushing leave in a sequence.

use vstd::prelude::*;

verus! {

/// Filtering one item more.
pub proof fn lemma_filter_step<A>(s: Seq<A>, i: int, p: spec_fn(A) -> bool)
    requires
        0 <= i < s.len(),
    ensures
        s.take(i + 1).filter(p) == if p(s[i]) {
            s.take(i).filter(p).push(s[i])
        } else {
            s.take(i).filter(p)
        },
{
    reveal(Seq::filter);
    assert(s.take(i + 1).drop_last() =~= s.take(i));
    assert(s.take(i + 1).last() == s[i]);
}

/// Filtering keeps items of the list that satisfy the predicate, and only
/// those.
pub proof fn lemma_filter_holds<A>(s: Seq<A>, p: spec_fn(A) -> bool)
    ensures
        forall|x: A| #[trigger] s.filter(p).contains(x) <==> s.contains(x) && p(x),
    decreases s.len(),
{
    reveal(Seq::filter);
    if s.len() > 0 {
        let front = s.drop_last();
        lemma_filter_holds(front, p);
        assert forall|x: A| #[trigger] s.filter(p).contains(x) <==> s.contains(x) && p(x) by {
            if s.contains(x) {
                let k = choose|k: int| 0 <= k < s.len() && s[k] == x;
                if k < s.len() - 1 {
                    assert(front[k] == x);
                }
            }
            if front.contains(x) {
                let k = choose|k: int| 0 <= k < front.len() && front[k] == x;
                assert(s[k] == x);
            }
            assert(s[s.len() - 1] == s.last());
            let kept = front.filter(p);
            if p(s.last()) {
                assert(s.filter(p) == kept.push(s.last()));
                if kept.contains(x) {
                    let k = choose|k: int| 0 <= k < kept.len() && kept[k] == x;
                    assert(s.filter(p)[k] == x);
                }
                assert(s.filter(p)[kept.len() as int] == s.last());
                if s.filter(p).contains(x) {
                    let k = choose|k: int| 0 <= k < s.filter(p).len() && s.filter(p)[k] == x;
                    if k < kept.len() {
                        assert(kept[k] == x);
                    }
                }
            }
        }
    }
}

/// Filtering by what holds of every item changes nothing.
pub proof fn lemma_filter_all<A>(s: Seq<A>, p: spec_fn(A) -> bool)
    requires
        forall|i: int| 0 <= i < s.len() ==> p(#[trigger] s[i]),
    ensures
        s.filter(p) == s,
    decreases s.len(),
{
    reveal(Seq::filter);
    if s.len() > 0 {
        let front = s.drop_last();
        assert forall|i: int| 0 <= i < front.len() implies p(#[trigger] front[i]) by {
            assert(front[i] == s[i]);
        }
        lemma_filter_all(front, p);
        assert(p(s[s.len() - 1]));
        assert(front.push(s.last()) =~= s);
    }
}

/// Filtering a prefix keeps no more than filtering the whole.
pub proof fn lemma_filter_prefix<A>(s: Seq<A>, n: int, p: spec_fn(A) -> bool)
    requires
        0 <= n <= s.len(),
    ensures
        s.take(n).filter(p).len() <= s.filter(p).len(),
    decreases s.len() - n,
{
    if n == s.len() {
        assert(s.take(n) =~= s);
    } else {
        lemma_filter_step(s, n, p);
        lemma_filter_prefix(s, n + 1, p);
    }
}

/// What a pushed sequence holds.
pub proof fn lemma_push_contains<A>(s: Seq<A>, a: A, x: A)
    ensures
        s.push(a).contains(x) <==> s.contains(x) || x == a,
{
    if s.contains(x) {
        let k = choose|k: int| 0 <= k < s.len() && s[k] == x;
        assert(s.push(a)[k] == x);
    }
    assert(s.push(a)[s.len() as int] == a);
    if s.push(a).contains(x) {
        let k = choose|k: int| 0 <= k < s.push(a).len() && s.push(a)[k] == x;
        if k < s.len() {
            assert(s[k] == x);
        }
    }
}

/// What an item maps to is among the mapped.
pub proof fn lemma_mapped<A, B>(s: Seq<A>, f: spec_fn(A) -> Option<B>, i: int)
    requires
        0 <= i < s.len(),
        f(s[i]) is Some,
    ensures
        s.filter_map(f).contains(f(s[i])->0),
    decreases s.len(),
{
    let rest = s.drop_last().filter_map(f);
    if i == s.len() - 1 {
        assert(s.filter_map(f) == rest + seq![f(s[i])->0]);
        assert(s.filter_map(f)[rest.len() as int] == f(s[i])->0);
    } else {
        assert(s.drop_last()[i] == s[i]);
        lemma_mapped(s.drop_last(), f, i);
        let k = choose|k: int| 0 <= k < rest.len() && rest[k] == f(s[i])->0;
        assert(s.filter_map(f)[k] == f(s[i])->0);
    }
}

/// What a list holds, a longer one made of it and others holds too.
pub proof fn lemma_within<A>(a: Seq<A>, s: Seq<A>, c: Seq<A>, x: A)
    requires
        s.contains(x),
    ensures
        (a + s + c).contains(x),
{
    let k = choose|k: int| 0 <= k < s.len() && s[k] == x;
    assert((a + s + c)[a.len() + k] == x);
}

/// The order of two filters does not matter.
pub proof fn lemma_filter_swap<A>(s: Seq<A>, p: spec_fn(A) -> bool, q: spec_fn(A) -> bool)
    ensures
        s.filter(p).filter(q) == s.filter(q).filter(p),
    decreases s.len(),
{
    reveal(Seq::filter);
    if s.len() > 0 {
        let front = s.drop_last();
        lemma_filter_swap(front, p, q);
        let x = s.last();
        if p(x) {
            assert(front.filter(p).push(x).drop_last() =~= front.filter(p));
        }
        if q(x) {
            assert(front.filter(q).push(x).drop_last() =~= front.filter(q));
        }
    }
}

/// What a partial map keeps comes from something it was applied to.
pub proof fn lemma_mapped_back<A, B>(s: Seq<A>, f: spec_fn(A) -> Option<B>, x: B)
    requires
        s.filter_map(f).contains(x),
    ensures
        exists|i: int| 0 <= i < s.len() && f(#[trigger] s[i]) == Some(x),
    decreases s.len(),
{
    if s.len() > 0 {
        let front = s.drop_last();
        let n = s.len() - 1;
        s.lemma_filter_map_take_succ(f, n);
        assert(s.take(n) =~= front);
        assert(s.take(n + 1) =~= s);
        if f(s[n]) != Some(x) {
            let kept = s.filter_map(f);
            let k = choose|k: int| 0 <= k < kept.len() && kept[k] == x;
            assert(front.filter_map(f)[k] == x);
            lemma_mapped_back(front, f, x);
            let i = choose|i: int| 0 <= i < front.len() && f(#[trigger] front[i]) == Some(x);
            assert(f(s[i]) == Some(x));
        }
    } else {
        assert(s.filter_map(f).len() == 0) by {
            reveal(Seq::filter_map);
        }
    }
}

/// A partial map of two lists one after the other.
pub proof fn lemma_mapped_concat<A, B>(s: Seq<A>, t: Seq<A>, f: spec_fn(A) -> Option<B>)
    ensures
        (s + t).filter_map(f) == s.filter_map(f) + t.filter_map(f),
    decreases t.len(),
{
    if t.len() == 0 {
        assert(s + t =~= s);
        assert(t.filter_map(f).len() == 0) by {
            reveal(Seq::filter_map);
        }
        assert(s.filter_map(f) + t.filter_map(f) =~= s.filter_map(f));
    } else {
        let n = s.len() + t.len() - 1;
        let all = s + t;
        lemma_mapped_concat(s, t.drop_last(), f);
        assert(all.take(n) =~= s + t.drop_last());
        assert(all.take(n + 1) =~= all);
        all.lemma_filter_map_take_succ(f, n);
        assert(t.take(t.len() - 1) =~= t.drop_last());
        assert(t.take(t.len() as int) =~= t);
        t.lemma_filter_map_take_succ(f, t.len() - 1);
        assert(all[n] == t[t.len() - 1]);
        assert(all.filter_map(f) =~= s.filter_map(f) + t.filter_map(f));
    }
}

}
