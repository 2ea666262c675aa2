//! First and best elements of a sequence, and how the prefixes of a sequence
//! grow through them.
use vstd::prelude::*;

verus! {

/// The first element with a property.
pub open spec fn first<V>(s: Seq<V>, p: spec_fn(V) -> bool) -> Option<V>
    decreases s.len(),
{
    if s.len() == 0 {
        None
    } else {
        match first(s.drop_last(), p) {
            Some(v) => Some(v),
            None => if p(s.last()) {
                Some(s.last())
            } else {
                None
            },
        }
    }
}

/// The element of the highest rank; of several, the last.
pub open spec fn best<V>(s: Seq<V>, rank: spec_fn(V) -> int) -> Option<V>
    decreases s.len(),
{
    if s.len() == 0 {
        None
    } else {
        match best(s.drop_last(), rank) {
            Some(v) => if rank(s.last()) >= rank(v) {
                Some(s.last())
            } else {
                Some(v)
            },
            None => Some(s.last()),
        }
    }
}

pub proof fn lemma_take_step<V>(s: Seq<V>, i: int)
    requires
        0 <= i < s.len(),
    ensures
        s.take(i + 1) == s.take(i).push(s[i]),
        s.take(i + 1).drop_last() == s.take(i),
        s.take(i + 1).last() == s[i],
{
    assert(s.take(i + 1) =~= s.take(i).push(s[i]));
    assert(s.take(i + 1).drop_last() =~= s.take(i));
}

pub proof fn lemma_take_all<V>(s: Seq<V>)
    ensures
        s.take(s.len() as int) == s,
{
    assert(s.take(s.len() as int) =~= s);
}

pub proof fn lemma_first_step<V>(s: Seq<V>, p: spec_fn(V) -> bool, i: int)
    requires
        0 <= i < s.len(),
    ensures
        first(s.take(i + 1), p) == match first(s.take(i), p) {
            Some(v) => Some(v),
            None => if p(s[i]) {
                Some(s[i])
            } else {
                None
            },
        },
{
    lemma_take_step(s, i);
}

/// What a prefix has found stays found.
pub proof fn lemma_first_found<V>(s: Seq<V>, p: spec_fn(V) -> bool, i: int)
    requires
        0 <= i <= s.len(),
        first(s.take(i), p) is Some,
    ensures
        first(s, p) == first(s.take(i), p),
    decreases s.len() - i,
{
    if i < s.len() {
        lemma_first_step(s, p, i);
        lemma_first_found(s, p, i + 1);
    } else {
        lemma_take_all(s);
    }
}

/// The first element with a property has it; without one, none has.
pub proof fn lemma_first<V>(s: Seq<V>, p: spec_fn(V) -> bool)
    ensures
        match first(s, p) {
            Some(v) => s.contains(v) && p(v),
            None => forall|i: int| 0 <= i < s.len() ==> !p(#[trigger] s[i]),
        },
    decreases s.len(),
{
    if s.len() > 0 {
        lemma_first(s.drop_last(), p);
        match first(s.drop_last(), p) {
            Some(v) => {
                let k = choose|k: int| 0 <= k < s.drop_last().len() && s.drop_last()[k] == v;
                assert(s[k] == v);
            },
            None => {
                assert forall|i: int| 0 <= i < s.len() - 1 implies !p(#[trigger] s[i]) by {
                    assert(s.drop_last()[i] == s[i]);
                }
                assert(s[s.len() - 1] == s.last());
            },
        }
    }
}

/// The first of two sequences' elements is the first one's, else the second's.
pub proof fn lemma_first_add<V>(a: Seq<V>, b: Seq<V>, p: spec_fn(V) -> bool)
    ensures
        first(a + b, p) == match first(a, p) {
            Some(v) => Some(v),
            None => first(b, p),
        },
    decreases b.len(),
{
    if b.len() == 0 {
        assert(a + b =~= a);
    } else {
        assert((a + b).drop_last() =~= a + b.drop_last());
        lemma_first_add(a, b.drop_last(), p);
    }
}

/// The best element is one of them, and none ranks higher.
pub proof fn lemma_best<V>(s: Seq<V>, rank: spec_fn(V) -> int)
    ensures
        match best(s, rank) {
            Some(v) => s.contains(v) && forall|i: int| 0 <= i < s.len() ==> rank(#[trigger] s[i]) <= rank(v),
            None => s.len() == 0,
        },
    decreases s.len(),
{
    if s.len() > 0 {
        let d = s.drop_last();
        lemma_best(d, rank);
        match best(d, rank) {
            Some(v) => {
                let k = choose|k: int| 0 <= k < d.len() && d[k] == v;
                assert(s[k] == v);
                assert(s[s.len() - 1] == s.last());
                assert forall|i: int| 0 <= i < s.len() implies rank(#[trigger] s[i]) <= rank(
                    best(s, rank)->0,
                ) by {
                    if i < d.len() {
                        assert(d[i] == s[i]);
                    }
                }
            },
            None => {
                assert(s[0] == s.last());
            },
        }
    }
}

pub proof fn lemma_filter_step<V>(s: Seq<V>, p: spec_fn(V) -> bool, i: int)
    requires
        0 <= i < s.len(),
    ensures
        s.take(i + 1).filter(p) == if p(s[i]) {
            s.take(i).filter(p).push(s[i])
        } else {
            s.take(i).filter(p)
        },
{
    lemma_take_step(s, i);
    reveal(Seq::filter);
}

/// A filter keeps exactly the elements with the property.
pub proof fn lemma_filter<V>(s: Seq<V>, p: spec_fn(V) -> bool)
    ensures
        s.filter(p).len() <= s.len(),
        forall|i: int| 0 <= i < s.filter(p).len() ==> p(#[trigger] s.filter(p)[i]),
        forall|i: int| 0 <= i < s.filter(p).len() ==> s.contains(#[trigger] s.filter(p)[i]),
        forall|i: int| 0 <= i < s.len() && p(#[trigger] s[i]) ==> s.filter(p).contains(s[i]),
    decreases s.len(),
{
    reveal(Seq::filter);
    if s.len() > 0 {
        let d = s.drop_last();
        lemma_filter(d, p);
        let f = s.filter(p);
        let g = d.filter(p);
        assert forall|i: int| 0 <= i < f.len() implies p(#[trigger] f[i]) && s.contains(f[i]) by {
            if i < g.len() {
                assert(f[i] == g[i]);
                assert(d.contains(g[i]));
                let k = choose|k: int| 0 <= k < d.len() && d[k] == g[i];
                assert(s[k] == f[i]);
            } else {
                assert(s[s.len() - 1] == f[i]);
            }
        }
        assert forall|i: int| 0 <= i < s.len() && p(#[trigger] s[i]) implies f.contains(s[i]) by {
            if i < d.len() {
                assert(d[i] == s[i]);
                assert(g.contains(d[i]));
                let k = choose|k: int| 0 <= k < g.len() && g[k] == d[i];
                assert(f[k] == s[i]);
            } else {
                assert(f[f.len() - 1] == s[i]);
            }
        }
    }
}

pub proof fn lemma_filter_all<V>(s: Seq<V>, p: spec_fn(V) -> bool)
    requires
        forall|i: int| 0 <= i < s.len() ==> p(#[trigger] s[i]),
    ensures
        s.filter(p) == s,
    decreases s.len(),
{
    reveal(Seq::filter);
    if s.len() > 0 {
        let d = s.drop_last();
        assert forall|i: int| 0 <= i < d.len() implies p(#[trigger] d[i]) by {
            assert(d[i] == s[i]);
        }
        lemma_filter_all(d, p);
        assert(p(s[s.len() - 1]));
        assert(s =~= d.push(s.last()));
    }
}

pub proof fn lemma_filter_none<V>(s: Seq<V>, p: spec_fn(V) -> bool)
    requires
        forall|i: int| 0 <= i < s.len() ==> !p(#[trigger] s[i]),
    ensures
        s.filter(p) == Seq::<V>::empty(),
    decreases s.len(),
{
    reveal(Seq::filter);
    if s.len() > 0 {
        let d = s.drop_last();
        assert forall|i: int| 0 <= i < d.len() implies !p(#[trigger] d[i]) by {
            assert(d[i] == s[i]);
        }
        lemma_filter_none(d, p);
        assert(!p(s[s.len() - 1]));
    }
}

pub proof fn lemma_filter_map_add<A, B>(a: Seq<A>, b: Seq<A>, f: spec_fn(A) -> Option<B>)
    ensures
        (a + b).filter_map(f) == a.filter_map(f) + b.filter_map(f),
    decreases b.len(),
{
    if b.len() == 0 {
        assert(a + b =~= a);
        assert(a.filter_map(f) + b.filter_map(f) =~= a.filter_map(f));
    } else {
        let d = b.drop_last();
        let n = d.len() as int;
        lemma_filter_map_add(a, d, f);
        lemma_take_all(b);
        lemma_take_all(a + b);
        lemma_filter_map_step(b, f, n);
        lemma_filter_map_step(a + b, f, a.len() + n);
        assert(b.take(n) =~= d);
        assert((a + b).take(a.len() + n) =~= a + d);
        assert((a + b).filter_map(f) =~= a.filter_map(f) + b.filter_map(f));
    }
}

/// A map that another takes back.
pub proof fn lemma_filter_map_back<A, B>(
    s: Seq<A>,
    f: spec_fn(A) -> Option<B>,
    g: spec_fn(B) -> Option<A>,
)
    requires
        forall|i: int|
            0 <= i < s.len() ==> f(#[trigger] s[i]) is Some && g(f(s[i])->0) == Some(s[i]),
    ensures
        s.filter_map(f).filter_map(g) == s,
    decreases s.len(),
{
    if s.len() > 0 {
        let d = s.drop_last();
        let n = d.len() as int;
        assert forall|i: int| 0 <= i < d.len() implies f(#[trigger] d[i]) is Some && g(f(d[i])->0)
            == Some(d[i]) by {
            assert(d[i] == s[i]);
        }
        lemma_filter_map_back(d, f, g);
        lemma_take_all(s);
        lemma_filter_map_step(s, f, n);
        assert(s.take(n) =~= d);
        let t = s.filter_map(f);
        let k = d.filter_map(f).len() as int;
        assert(t == d.filter_map(f).push(f(s[n])->0));
        lemma_take_all(t);
        lemma_filter_map_step(t, g, k);
        assert(t.take(k) =~= d.filter_map(f));
        assert(t.filter_map(g) =~= d.push(s[n]));
        assert(d.push(s[n]) =~= s);
    }
}

/// No two elements clash.
pub open spec fn apart<V>(s: Seq<V>, clash: spec_fn(V, V) -> bool) -> bool {
    forall|i: int, j: int| 0 <= i < j < s.len() ==> !clash(#[trigger] s[i], #[trigger] s[j])
}

pub proof fn lemma_apart_filter<V>(s: Seq<V>, clash: spec_fn(V, V) -> bool, p: spec_fn(V) -> bool)
    requires
        apart(s, clash),
    ensures
        apart(s.filter(p), clash),
    decreases s.len(),
{
    reveal(Seq::filter);
    if s.len() > 0 {
        let d = s.drop_last();
        assert forall|i: int, j: int| 0 <= i < j < d.len() implies !clash(
            #[trigger] d[i],
            #[trigger] d[j],
        ) by {
            assert(d[i] == s[i] && d[j] == s[j]);
        }
        lemma_apart_filter(d, clash, p);
        lemma_filter(d, p);
        let kept = d.filter(p);
        let now = s.filter(p);
        assert forall|i: int, j: int| 0 <= i < j < now.len() implies !clash(
            #[trigger] now[i],
            #[trigger] now[j],
        ) by {
            assert(now[i] == kept[i]);
            if j < kept.len() {
                assert(now[j] == kept[j]);
            } else {
                assert(d.contains(kept[i]));
                let a = choose|a: int| 0 <= a < d.len() && d[a] == kept[i];
                assert(s[a] == kept[i]);
            }
        }
    }
}

pub proof fn lemma_filter_map_step<A, B>(s: Seq<A>, f: spec_fn(A) -> Option<B>, i: int)
    requires
        0 <= i < s.len(),
    ensures
        s.take(i + 1).filter_map(f) == match f(s[i]) {
            Some(b) => s.take(i).filter_map(f).push(b),
            None => s.take(i).filter_map(f),
        },
{
    s.lemma_filter_map_take_succ(f, i);
    match f(s[i]) {
        Some(b) => {
            assert(s.take(i).filter_map(f) + seq![b] =~= s.take(i).filter_map(f).push(b));
        },
        None => {
            assert(s.take(i).filter_map(f) + Seq::<B>::empty() =~= s.take(i).filter_map(f));
        },
    }
}

/// What an element maps to is among what the sequence maps to.
pub proof fn lemma_filter_map_has<A, B>(s: Seq<A>, f: spec_fn(A) -> Option<B>, i: int)
    requires
        0 <= i < s.len(),
        f(s[i]) is Some,
    ensures
        s.filter_map(f).contains(f(s[i])->0),
{
    lemma_filter_map_keeps(s, f, i, s.len() as int);
    lemma_take_all(s);
}

proof fn lemma_filter_map_keeps<A, B>(s: Seq<A>, f: spec_fn(A) -> Option<B>, i: int, n: int)
    requires
        0 <= i < n <= s.len(),
        f(s[i]) is Some,
    ensures
        s.take(n).filter_map(f).contains(f(s[i])->0),
    decreases n,
{
    let b = f(s[i])->0;
    lemma_filter_map_step(s, f, n - 1);
    let before = s.take(n - 1).filter_map(f);
    let now = s.take(n).filter_map(f);
    if i == n - 1 {
        assert(now[now.len() - 1] == b);
    } else {
        lemma_filter_map_keeps(s, f, i, n - 1);
        let k = choose|k: int| 0 <= k < before.len() && before[k] == b;
        assert(now[k] == b);
    }
}

pub proof fn lemma_map_step<A, B>(s: Seq<A>, f: spec_fn(A) -> B, i: int)
    requires
        0 <= i < s.len(),
    ensures
        s.take(i + 1).map_values(f) == s.take(i).map_values(f).push(f(s[i])),
{
    assert(s.take(i + 1).map_values(f) =~= s.take(i).map_values(f).push(f(s[i])));
}

/// Everything several sequences hold, in order.
pub open spec fn gathered<A, B>(s: Seq<A>, f: spec_fn(A) -> Seq<B>) -> Seq<B>
    decreases s.len(),
{
    if s.len() == 0 {
        Seq::empty()
    } else {
        gathered(s.drop_last(), f) + f(s.last())
    }
}

pub proof fn lemma_gathered_step<A, B>(s: Seq<A>, f: spec_fn(A) -> Seq<B>, i: int)
    requires
        0 <= i < s.len(),
    ensures
        gathered(s.take(i + 1), f) == gathered(s.take(i), f) + f(s[i]),
{
    lemma_take_step(s, i);
}

pub proof fn lemma_gathered_contains<A, B>(s: Seq<A>, f: spec_fn(A) -> Seq<B>, b: B)
    ensures
        gathered(s, f).contains(b) <==> exists|i: int|
            0 <= i < s.len() && f(#[trigger] s[i]).contains(b),
    decreases s.len(),
{
    if s.len() > 0 {
        let d = s.drop_last();
        lemma_gathered_contains(d, f, b);
        let g = gathered(d, f);
        let l = f(s.last());
        if gathered(s, f).contains(b) {
            let k = choose|k: int| 0 <= k < (g + l).len() && (g + l)[k] == b;
            if k < g.len() {
                assert(g[k] == b);
                let i = choose|i: int| 0 <= i < d.len() && f(#[trigger] d[i]).contains(b);
                assert(f(s[i]).contains(b));
            } else {
                assert(l[k - g.len()] == b);
                assert(f(s[s.len() - 1]).contains(b));
            }
        }
        if exists|i: int| 0 <= i < s.len() && f(#[trigger] s[i]).contains(b) {
            let i = choose|i: int| 0 <= i < s.len() && f(#[trigger] s[i]).contains(b);
            if i < d.len() {
                assert(f(d[i]).contains(b));
                let k = choose|k: int| 0 <= k < g.len() && g[k] == b;
                assert((g + l)[k] == b);
            } else {
                let k = choose|k: int| 0 <= k < l.len() && l[k] == b;
                assert((g + l)[g.len() + k] == b);
            }
        }
    }
}

/// How many elements have a property.
pub open spec fn count_where<V>(s: Seq<V>, p: spec_fn(V) -> bool) -> nat {
    s.filter(p).len()
}

/// Whether some element has a property.
pub open spec fn some<V>(s: Seq<V>, p: spec_fn(V) -> bool) -> bool {
    exists|i: int| 0 <= i < s.len() && p(#[trigger] s[i])
}

/// The first element with a property is the one before which none has it.
pub proof fn lemma_first_is<V>(s: Seq<V>, p: spec_fn(V) -> bool, i: int)
    requires
        0 <= i < s.len(),
        p(s[i]),
        forall|j: int| 0 <= j < i ==> !p(#[trigger] s[j]),
    ensures
        first(s, p) == Some(s[i]),
{
    lemma_first(s.take(i), p);
    match first(s.take(i), p) {
        Some(v) => {
            let k = choose|k: int| 0 <= k < s.take(i).len() && s.take(i)[k] == v;
            assert(!p(s[k]));
        },
        None => {},
    }
    lemma_first_step(s, p, i);
    lemma_first_found(s, p, i + 1);
}

/// Whatever a sequence maps to, some element of it maps to.
pub proof fn lemma_filter_map_source<A, B>(s: Seq<A>, f: spec_fn(A) -> Option<B>, a: int) -> (i: int)
    requires
        0 <= a < s.filter_map(f).len(),
    ensures
        0 <= i < s.len(),
        f(s[i]) == Some(s.filter_map(f)[a]),
    decreases s.len(),
{
    lemma_take_all(s);
    if s.len() == 0 {
        assert(s.filter_map(f).len() == 0);
        0
    } else {
        let n = s.len() - 1;
        lemma_filter_map_step(s, f, n);
        let d = s.take(n);
        if a < d.filter_map(f).len() {
            let i = lemma_filter_map_source(d, f, a);
            assert(d[i] == s[i]);
            i
        } else {
            n
        }
    }
}

/// What a sequence maps to is in the order of the elements it comes from.
pub proof fn lemma_filter_map_order<A, B>(s: Seq<A>, f: spec_fn(A) -> Option<B>, a: int, b: int) -> (ij: (
    int,
    int,
))
    requires
        0 <= a < b < s.filter_map(f).len(),
    ensures
        0 <= ij.0 < ij.1 < s.len(),
        f(s[ij.0]) == Some(s.filter_map(f)[a]),
        f(s[ij.1]) == Some(s.filter_map(f)[b]),
    decreases s.len(),
{
    lemma_take_all(s);
    if s.len() == 0 {
        assert(s.filter_map(f).len() == 0);
        (0, 0)
    } else {
        let n = s.len() - 1;
        lemma_filter_map_step(s, f, n);
        let d = s.take(n);
        if b < d.filter_map(f).len() {
            let (i, j) = lemma_filter_map_order(d, f, a, b);
            assert(d[i] == s[i] && d[j] == s[j]);
            (i, j)
        } else {
            let i = lemma_filter_map_source(d, f, a);
            assert(d[i] == s[i]);
            (i, n)
        }
    }
}

/// Each element that maps to something is one more of what the sequence maps
/// to.
pub proof fn lemma_filter_map_len<A, B>(s: Seq<A>, f: spec_fn(A) -> Option<B>, p: spec_fn(A) -> bool)
    requires
        forall|i: int| 0 <= i < s.len() ==> p(#[trigger] s[i]) == (f(s[i]) is Some),
    ensures
        s.filter_map(f).len() == s.filter(p).len(),
    decreases s.len(),
{
    reveal(Seq::filter);
    lemma_take_all(s);
    if s.len() == 0 {
    } else {
        let n = s.len() - 1;
        lemma_filter_map_step(s, f, n);
        lemma_filter_step(s, p, n);
        let d = s.take(n);
        assert forall|i: int| 0 <= i < d.len() implies p(#[trigger] d[i]) == (f(d[i]) is Some) by {
            assert(d[i] == s[i]);
        }
        lemma_filter_map_len(d, f, p);
    }
}

/// A filter keeps the order.
pub proof fn lemma_filter_order<V>(s: Seq<V>, p: spec_fn(V) -> bool, a: int, b: int) -> (ij: (int, int))
    requires
        0 <= a < b < s.filter(p).len(),
    ensures
        0 <= ij.0 < ij.1 < s.len(),
        s[ij.0] == s.filter(p)[a],
        s[ij.1] == s.filter(p)[b],
        p(s[ij.0]),
        p(s[ij.1]),
    decreases s.len(),
{
    reveal(Seq::filter);
    let d = s.drop_last();
    let n = s.len() - 1;
    if b < d.filter(p).len() {
        let (i, j) = lemma_filter_order(d, p, a, b);
        assert(d[i] == s[i] && d[j] == s[j]);
        (i, j)
    } else {
        lemma_filter(d, p);
        assert(d.filter(p)[a] == s.filter(p)[a]);
        assert(d.contains(d.filter(p)[a]));
        let i = choose|i: int| 0 <= i < d.len() && d[i] == d.filter(p)[a];
        assert(d[i] == s[i]);
        (i, n)
    }
}

/// The first element with a property is the same among those of a wider one.
pub proof fn lemma_first_filter<V>(s: Seq<V>, q: spec_fn(V) -> bool, p: spec_fn(V) -> bool)
    requires
        forall|v: V| #[trigger] p(v) ==> q(v),
    ensures
        first(s.filter(q), p) == first(s, p),
    decreases s.len(),
{
    reveal(Seq::filter);
    if s.len() > 0 {
        let d = s.drop_last();
        lemma_first_filter(d, q, p);
        if q(s.last()) {
            assert(s.filter(q) == d.filter(q).push(s.last()));
            assert(d.filter(q).push(s.last()).drop_last() =~= d.filter(q));
        }
    }
}

/// A filter holds what the sequence holds and has the property.
pub proof fn lemma_filter_contains<V>(s: Seq<V>, p: spec_fn(V) -> bool, v: V)
    ensures
        s.filter(p).contains(v) <==> s.contains(v) && p(v),
{
    lemma_filter(s, p);
    if s.filter(p).contains(v) {
        let k = choose|k: int| 0 <= k < s.filter(p).len() && s.filter(p)[k] == v;
        assert(p(s.filter(p)[k]));
    }
    if s.contains(v) && p(v) {
        let i = choose|i: int| 0 <= i < s.len() && s[i] == v;
        assert(p(s[i]));
    }
}

/// Among equals the last is the best one.
pub proof fn law_best_is_the_last_of_equals<V>(s: Seq<V>, rank: spec_fn(V) -> int)
    ensures
        match best(s, rank) {
            Some(v) => exists|k: int|
                0 <= k < s.len() && #[trigger] s[k] == v && (forall|i: int|
                    0 <= i < s.len() ==> rank(#[trigger] s[i]) <= rank(v)) && forall|i: int|
                    k < i < s.len() ==> rank(#[trigger] s[i]) < rank(v),
            None => s.len() == 0,
        },
    decreases s.len(),
{
    if s.len() > 0 {
        let d = s.drop_last();
        law_best_is_the_last_of_equals(d, rank);
        lemma_best(s, rank);
        let n = s.len() - 1;
        match best(d, rank) {
            Some(v) => {
                if rank(s.last()) < rank(v) {
                    let k = choose|k: int|
                        0 <= k < d.len() && #[trigger] d[k] == v && (forall|i: int|
                            0 <= i < d.len() ==> rank(#[trigger] d[i]) <= rank(v)) && forall|
                            i: int,
                        |
                            k < i < d.len() ==> rank(#[trigger] d[i]) < rank(v);
                    assert(s[k] == v);
                    assert forall|i: int| k < i < s.len() implies rank(#[trigger] s[i]) < rank(v) by {
                        if i < n {
                            assert(d[i] == s[i]);
                        }
                    }
                } else {
                    assert(s[n] == s.last());
                }
            },
            None => {
                assert(s[n] == s.last());
            },
        }
    }
}

} // verus!
