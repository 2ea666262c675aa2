//! Ordered collections: strictly ascending vectors standing for sets, and
//! stable sorting by any order.
use vstd::prelude::*;

use crate::seqs::apart;

use crate::text::{comes_before, lemma_lex_irreflexive, lemma_lex_total, lemma_lex_transitive, lemma_points_injective, points, same_text, text_less};

verus! {

/// A type whose values can be copied one for one.
pub trait Duplicate: DeepView + Sized {
    fn duplicate(&self) -> (r: Self)
        ensures
            r.deep_view() == self.deep_view(),
    ;
}

impl Duplicate for String {
    fn duplicate(&self) -> (r: Self) {
        self.clone()
    }
}

/// A copy of each element, in order.
pub fn copies<T: Duplicate>(v: &Vec<T>) -> (r: Vec<T>)
    ensures
        r.deep_view() == v.deep_view(),
{
    let mut out: Vec<T> = Vec::new();
    let ghost s = v.deep_view();
    assert(out.deep_view() =~= s.take(0));
    for i in 0..v.len()
        invariant
            s == v.deep_view(),
            out.deep_view() == s.take(i as int),
    {
        let ghost before = out.deep_view();
        out.push(v[i].duplicate());
        assert(out.deep_view() =~= before.push(s[i as int]));
        assert(s.take(i + 1) =~= s.take(i as int).push(s[i as int]));
    }
    assert(s.take(s.len() as int) =~= s);
    out
}

/// A copy of what is there, if anything is.
pub fn copy_option<T: Duplicate>(o: &Option<T>) -> (r: Option<T>)
    ensures
        r.deep_view() == o.deep_view(),
{
    match o {
        Some(x) => Some(x.duplicate()),
        None => None,
    }
}

/// A type whose values are totally ordered.
pub trait Ranked: Duplicate {
    /// `a` comes before `b`.
    spec fn below(a: Self::V, b: Self::V) -> bool;

    fn before(&self, other: &Self) -> (r: bool)
        ensures
            r == Self::below(self.deep_view(), other.deep_view()),
    ;

    fn same(&self, other: &Self) -> (r: bool)
        ensures
            r == (self.deep_view() == other.deep_view()),
    ;

    /// The order is strict and total.
    proof fn order_laws(a: Self::V, b: Self::V, c: Self::V)
        ensures
            !Self::below(a, a),
            Self::below(a, b) && Self::below(b, c) ==> Self::below(a, c),
            a == b || Self::below(a, b) || Self::below(b, a),
    ;
}

impl Ranked for String {
    open spec fn below(a: Seq<char>, b: Seq<char>) -> bool {
        text_less(a, b)
    }

    fn before(&self, other: &Self) -> (r: bool) {
        comes_before(self.as_str(), other.as_str())
    }

    fn same(&self, other: &Self) -> (r: bool) {
        same_text(self, other.as_str())
    }

    proof fn order_laws(a: Seq<char>, b: Seq<char>, c: Seq<char>) {
        lemma_lex_irreflexive(points(a));
        if text_less(a, b) && text_less(b, c) {
            lemma_lex_transitive(points(a), points(b), points(c));
        }
        lemma_lex_total(points(a), points(b));
        if points(a) == points(b) {
            lemma_points_injective(a, b);
        }
    }
}

/// Each element comes before every later one: sorted, nothing twice.
pub open spec fn ascending<T: Ranked>(s: Seq<T::V>) -> bool {
    forall|i: int, j: int| 0 <= i < j < s.len() ==> T::below(#[trigger] s[i], #[trigger] s[j])
}

/// `s` lists the members of `set` in ascending order.
pub open spec fn lists<T: Ranked>(s: Seq<T::V>, set: Set<T::V>) -> bool {
    &&& ascending::<T>(s)
    &&& s.to_set() == set
}

/// A set has one ascending listing only.
pub proof fn law_listing_unique<T: Ranked>(s: Seq<T::V>, t: Seq<T::V>)
    requires
        ascending::<T>(s),
        ascending::<T>(t),
        s.to_set() == t.to_set(),
    ensures
        s == t,
    decreases s.len(),
{
    if s.len() == 0 {
        if t.len() > 0 {
            assert(t.to_set().contains(t[0]));
            assert(s.to_set().contains(t[0]));
        }
        assert(s =~= t);
    } else {
        assert(s.to_set().contains(s.last()));
        assert(t.to_set().contains(s.last()));
        let i = choose|i: int| 0 <= i < t.len() && t[i] == s.last();
        assert(t.to_set().contains(t.last()));
        assert(s.to_set().contains(t.last()));
        let j = choose|j: int| 0 <= j < s.len() && s[j] == t.last();
        T::order_laws(s.last(), t.last(), s.last());
        if i < t.len() - 1 {
            assert(T::below(t[i], t[t.len() - 1]));
        }
        if j < s.len() - 1 {
            assert(T::below(s[j], s[s.len() - 1]));
        }
        assert(s.last() == t.last());
        let x = s.last();
        assert forall|v: T::V| s.drop_last().to_set().contains(v) <==> #[trigger] t.drop_last().to_set().contains(v) by {
            if s.drop_last().to_set().contains(v) {
                let k = choose|k: int| 0 <= k < s.drop_last().len() && s.drop_last()[k] == v;
                assert(T::below(s[k], s[s.len() - 1]));
                T::order_laws(v, x, v);
                assert(s.to_set().contains(s[k]));
                assert(t.to_set().contains(v));
                let l = choose|l: int| 0 <= l < t.len() && t[l] == v;
                assert(t.drop_last()[l] == v);
            }
            if t.drop_last().to_set().contains(v) {
                let k = choose|k: int| 0 <= k < t.drop_last().len() && t.drop_last()[k] == v;
                assert(T::below(t[k], t[t.len() - 1]));
                T::order_laws(v, x, v);
                assert(t.to_set().contains(t[k]));
                assert(s.to_set().contains(v));
                let l = choose|l: int| 0 <= l < s.len() && s[l] == v;
                assert(s.drop_last()[l] == v);
            }
        }
        assert(s.drop_last().to_set() =~= t.drop_last().to_set());
        law_listing_unique::<T>(s.drop_last(), t.drop_last());
        assert(s =~= s.drop_last().push(x));
        assert(t =~= t.drop_last().push(x));
    }
}

/// The ascending listing of a set.
pub open spec fn ascending_list<T: Ranked>(set: Set<T::V>) -> Seq<T::V> {
    choose|s: Seq<T::V>| lists::<T>(s, set)
}

pub proof fn lemma_list_is<T: Ranked>(s: Seq<T::V>, set: Set<T::V>)
    requires
        lists::<T>(s, set),
    ensures
        s == ascending_list::<T>(set),
{
    law_listing_unique::<T>(s, ascending_list::<T>(set));
}

/// Whether a vector holds a value.
pub fn holds<T: Ranked>(v: &Vec<T>, x: &T) -> (r: bool)
    ensures
        r == v.deep_view().contains(x.deep_view()),
{
    let mut i: usize = 0;
    while i < v.len()
        invariant
            i <= v.len(),
            forall|j: int| 0 <= j < i ==> v.deep_view()[j] != x.deep_view(),
        decreases v.len() - i,
    {
        if v[i].same(x) {
            assert(v.deep_view()[i as int] == x.deep_view());
            return true;
        }
        i += 1;
    }
    false
}

/// Adds a value to a set; true where it was not a member.
pub fn set_insert<T: Ranked>(v: &mut Vec<T>, x: T) -> (fresh: bool)
    requires
        ascending::<T>(old(v).deep_view()),
    ensures
        ascending::<T>(final(v).deep_view()),
        final(v).deep_view().to_set() == old(v).deep_view().to_set().insert(x.deep_view()),
        fresh == !old(v).deep_view().contains(x.deep_view()),
        !fresh ==> final(v).deep_view() == old(v).deep_view(),
{
    let ghost s = v.deep_view();
    let ghost e = x.deep_view();
    let mut i: usize = 0;
    while i < v.len() && v[i].before(&x)
        invariant
            s == v.deep_view(),
            e == x.deep_view(),
            i <= v.len(),
            forall|j: int| 0 <= j < i ==> T::below(s[j], e),
        decreases v.len() - i,
    {
        assert(s[i as int] == v[i as int].deep_view());
        i += 1;
    }
    if i < v.len() && v[i].same(&x) {
        proof {
            assert(s[i as int] == e);
            assert(s.to_set().insert(e) =~= s.to_set());
        }
        return false;
    }
    proof {
        if i < s.len() {
            assert(s[i as int] == v[i as int].deep_view());
            T::order_laws(s[i as int], e, e);
            assert(T::below(e, s[i as int]));
        }
        assert forall|j: int| i <= j < s.len() implies T::below(e, s[j]) by {
            if j > i {
                assert(T::below(s[i as int], s[j]));
                T::order_laws(e, s[i as int], s[j]);
            }
        }
        if s.contains(e) {
            let j = choose|j: int| 0 <= j < s.len() && s[j] == e;
            T::order_laws(e, e, e);
        }
    }
    v.insert(i, x);
    proof {
        let t = v.deep_view();
        assert(t =~= s.insert(i as int, e));
        assert forall|a: int, b: int| 0 <= a < b < t.len() implies T::below(#[trigger] t[a], #[trigger] t[b]) by {
            if a < i && b < i {
                assert(T::below(s[a], s[b]));
            } else if a < i && b > i {
                assert(T::below(s[a], s[b - 1]));
            } else if a > i && b > i {
                assert(T::below(s[a - 1], s[b - 1]));
            }
        }
        assert(t.to_set() =~= s.to_set().insert(e)) by {
            assert forall|y: T::V| #[trigger] t.to_set().contains(y) <==> s.to_set().insert(e).contains(y) by {
                if t.contains(y) {
                    let k = choose|k: int| 0 <= k < t.len() && t[k] == y;
                    if k < i {
                        assert(s[k] == y);
                    } else if k > i {
                        assert(s[k - 1] == y);
                    }
                }
                if s.contains(y) {
                    let k = choose|k: int| 0 <= k < s.len() && s[k] == y;
                    if k < i {
                        assert(t[k] == y);
                    } else {
                        assert(t[k + 1] == y);
                    }
                }
                assert(t[i as int] == e);
            }
        }
    }
    true
}

/// The ascending listing of a vector's elements.
pub fn set_of<T: Ranked>(v: &Vec<T>) -> (r: Vec<T>)
    ensures
        lists::<T>(r.deep_view(), v.deep_view().to_set()),
{
    let mut out: Vec<T> = Vec::new();
    let ghost s = v.deep_view();
    assert(out.deep_view() =~= Seq::<T::V>::empty());
    assert(s.take(0).to_set() =~= Set::<T::V>::empty());
    assert(out.deep_view().to_set() =~= Set::<T::V>::empty());
    for i in 0..v.len()
        invariant
            s == v.deep_view(),
            ascending::<T>(out.deep_view()),
            out.deep_view().to_set() == s.take(i as int).to_set(),
    {
        set_insert(&mut out, v[i].duplicate());
        proof {
            lemma_take_set::<T::V>(s, i as int);
        }
    }
    assert(s.take(s.len() as int) =~= s);
    out
}

/// One more element of a prefix is one more member of its set.
pub proof fn lemma_take_set<V>(s: Seq<V>, i: int)
    requires
        0 <= i < s.len(),
    ensures
        s.take(i + 1).to_set() == s.take(i).to_set().insert(s[i]),
{
    assert(s.take(i + 1) =~= s.take(i).push(s[i]));
    s.take(i).lemma_push_to_set_commute(s[i]);
}

/// The members of `a` that are not in `b`, in ascending order.
pub fn set_difference<T: Ranked>(a: &Vec<T>, b: &Vec<T>) -> (r: Vec<T>)
    requires
        ascending::<T>(a.deep_view()),
    ensures
        lists::<T>(r.deep_view(), a.deep_view().to_set().difference(b.deep_view().to_set())),
{
    let mut out: Vec<T> = Vec::new();
    let ghost s = a.deep_view();
    let ghost t = b.deep_view();
    let ghost gone = t.to_set();
    assert(out.deep_view() =~= Seq::<T::V>::empty());
    assert(out.deep_view().to_set() =~= s.take(0).to_set().difference(gone));
    for i in 0..a.len()
        invariant
            s == a.deep_view(),
            t == b.deep_view(),
            gone == t.to_set(),
            ascending::<T>(out.deep_view()),
            out.deep_view().to_set() == s.take(i as int).to_set().difference(gone),
    {
        proof {
            lemma_take_set::<T::V>(s, i as int);
        }
        if !holds(b, &a[i]) {
            set_insert(&mut out, a[i].duplicate());
        }
        assert(out.deep_view().to_set() =~= s.take(i + 1).to_set().difference(gone));
    }
    assert(s.take(s.len() as int) =~= s);
    out
}

// ---- stable sorting ----

/// `s` with `x` put behind every element that `x` does not come before,
/// counted from the end.
pub open spec fn placed<V>(s: Seq<V>, x: V, before: spec_fn(V, V) -> bool) -> Seq<V>
    decreases s.len(),
{
    if s.len() > 0 && before(x, s.last()) {
        placed(s.drop_last(), x, before).push(s.last())
    } else {
        s.push(x)
    }
}

/// `s` sorted: elements neither of which comes before the other keep their
/// order.
pub open spec fn sorted<V>(s: Seq<V>, before: spec_fn(V, V) -> bool) -> Seq<V>
    decreases s.len(),
{
    if s.len() == 0 {
        s
    } else {
        placed(sorted(s.drop_last(), before), s.last(), before)
    }
}

pub proof fn lemma_placed_at<V>(s: Seq<V>, x: V, before: spec_fn(V, V) -> bool, k: int)
    requires
        0 <= k <= s.len(),
        k > 0 ==> !before(x, s[k - 1]),
        forall|i: int| k <= i < s.len() ==> before(x, s[i]),
    ensures
        placed(s, x, before) == s.insert(k, x),
    decreases s.len(),
{
    if k < s.len() {
        lemma_placed_at(s.drop_last(), x, before, k);
        assert(s.drop_last().insert(k, x).push(s.last()) =~= s.insert(k, x));
    } else {
        assert(s.push(x) =~= s.insert(k, x));
    }
}

pub proof fn lemma_placed_multiset<V>(s: Seq<V>, x: V, before: spec_fn(V, V) -> bool)
    ensures
        placed(s, x, before).to_multiset() == s.to_multiset().insert(x),
        placed(s, x, before).len() == s.len() + 1,
    decreases s.len(),
{
    broadcast use vstd::seq_lib::group_to_multiset_ensures;

    if s.len() > 0 && before(x, s.last()) {
        lemma_placed_multiset(s.drop_last(), x, before);
        let p = placed(s.drop_last(), x, before);
        assert(p.push(s.last()).to_multiset() =~= p.to_multiset().insert(s.last()));
        assert(s =~= s.drop_last().push(s.last()));
        assert(s.to_multiset() =~= s.drop_last().to_multiset().insert(s.last()));
        assert(s.drop_last().to_multiset().insert(x).insert(s.last())
            =~= s.drop_last().to_multiset().insert(s.last()).insert(x));
    }
}

/// Sorting only reorders.
pub proof fn law_sorted_permutes<V>(s: Seq<V>, before: spec_fn(V, V) -> bool)
    ensures
        sorted(s, before).to_multiset() == s.to_multiset(),
        sorted(s, before).len() == s.len(),
    decreases s.len(),
{
    broadcast use vstd::seq_lib::group_to_multiset_ensures;

    if s.len() > 0 {
        law_sorted_permutes(s.drop_last(), before);
        lemma_placed_multiset(sorted(s.drop_last(), before), s.last(), before);
        assert(s =~= s.drop_last().push(s.last()));
        assert(s.to_multiset() =~= s.drop_last().to_multiset().insert(s.last()));
    }
}

pub proof fn lemma_placed_contains<V>(s: Seq<V>, x: V, before: spec_fn(V, V) -> bool, y: V)
    ensures
        placed(s, x, before).contains(y) == (s.contains(y) || x == y),
    decreases s.len(),
{
    let p = placed(s, x, before);
    if s.len() > 0 && before(x, s.last()) {
        let d = s.drop_last();
        lemma_placed_contains(d, x, before, y);
        let q = placed(d, x, before);
        assert(p == q.push(s.last()));
        assert(s =~= d.push(s.last()));
        lemma_push_contains(q, s.last(), y);
        lemma_push_contains(d, s.last(), y);
    } else {
        lemma_push_contains(s, x, y);
    }
}

pub proof fn lemma_push_contains<V>(s: Seq<V>, x: V, y: V)
    ensures
        s.push(x).contains(y) == (s.contains(y) || x == y),
{
    if s.contains(y) {
        let k = choose|k: int| 0 <= k < s.len() && s[k] == y;
        assert(s.push(x)[k] == y);
    }
    if x == y {
        assert(s.push(x)[s.len() as int] == y);
    }
    if s.push(x).contains(y) {
        let k = choose|k: int| 0 <= k < s.push(x).len() && s.push(x)[k] == y;
        if k < s.len() {
            assert(s[k] == y);
        }
    }
}

/// What clashes with nothing can be placed among what does not clash.
pub proof fn lemma_apart_placed<V>(
    s: Seq<V>,
    x: V,
    before: spec_fn(V, V) -> bool,
    clash: spec_fn(V, V) -> bool,
)
    requires
        apart(s, clash),
        forall|i: int| 0 <= i < s.len() ==> !clash(#[trigger] s[i], x) && !clash(x, s[i]),
    ensures
        apart(placed(s, x, before), clash),
    decreases s.len(),
{
    let now = placed(s, x, before);
    if s.len() > 0 && before(x, s.last()) {
        let d = s.drop_last();
        assert forall|i: int, j: int| 0 <= i < j < d.len() implies !clash(
            #[trigger] d[i],
            #[trigger] d[j],
        ) by {
            assert(d[i] == s[i] && d[j] == s[j]);
        }
        assert forall|i: int| 0 <= i < d.len() implies !clash(#[trigger] d[i], x) && !clash(x, d[i]) by {
            assert(d[i] == s[i]);
        }
        lemma_apart_placed(d, x, before, clash);
        let q = placed(d, x, before);
        assert(now == q.push(s.last()));
        assert forall|i: int, j: int| 0 <= i < j < now.len() implies !clash(
            #[trigger] now[i],
            #[trigger] now[j],
        ) by {
            assert(now[i] == q[i]);
            if j < q.len() {
                assert(now[j] == q[j]);
            } else {
                assert(q.contains(q[i]));
                lemma_placed_contains(d, x, before, q[i]);
                assert(!clash(x, s[s.len() - 1]));
                if q[i] != x {
                    let a = choose|a: int| 0 <= a < d.len() && d[a] == q[i];
                    assert(s[a] == q[i]);
                }
            }
        }
    } else {
        assert(now == s.push(x));
    }
}

/// Sorting neither loses nor adds.
pub proof fn lemma_sorted_contains<V>(s: Seq<V>, before: spec_fn(V, V) -> bool, y: V)
    ensures
        sorted(s, before).contains(y) == s.contains(y),
    decreases s.len(),
{
    if s.len() > 0 {
        lemma_sorted_contains(s.drop_last(), before, y);
        lemma_placed_contains(sorted(s.drop_last(), before), s.last(), before, y);
        assert(s =~= s.drop_last().push(s.last()));
        lemma_push_contains(s.drop_last(), s.last(), y);
    }
}

/// Every finite set has an ascending listing.
pub proof fn lemma_list_exists<T: Ranked>(set: Set<T::V>)
    requires
        set.finite(),
    ensures
        lists::<T>(ascending_list::<T>(set), set),
    decreases set.len(),
{
    if set.len() == 0 {
        assert(set =~= Set::<T::V>::empty());
        assert(Seq::<T::V>::empty().to_set() =~= set);
        assert(lists::<T>(Seq::<T::V>::empty(), set));
    } else {
        let x = set.choose();
        let rest = set.remove(x);
        lemma_list_exists::<T>(rest);
        let l = ascending_list::<T>(rest);
        let below = |a: T::V, b: T::V| T::below(a, b);
        let p = placed(l, x, below);
        assert forall|y: T::V| #[trigger] p.to_set().contains(y) <==> set.contains(y) by {
            lemma_placed_contains(l, x, below, y);
            assert(rest.contains(y) == l.to_set().contains(y));
        }
        assert(p.to_set() =~= set);
        lemma_placed_ascending::<T>(l, x);
        assert(lists::<T>(p, set));
    }
}

proof fn lemma_placed_ascending<T: Ranked>(l: Seq<T::V>, x: T::V)
    requires
        ascending::<T>(l),
        !l.contains(x),
    ensures
        ascending::<T>(placed(l, x, |a: T::V, b: T::V| T::below(a, b))),
    decreases l.len(),
{
    let below = |a: T::V, b: T::V| T::below(a, b);
    let p = placed(l, x, below);
    if l.len() > 0 && below(x, l.last()) {
        let d = l.drop_last();
        assert forall|i: int, j: int| 0 <= i < j < d.len() implies T::below(#[trigger] d[i], #[trigger] d[j]) by {
            assert(T::below(l[i], l[j]));
        }
        assert(!d.contains(x)) by {
            if d.contains(x) {
                let k = choose|k: int| 0 <= k < d.len() && d[k] == x;
                assert(l[k] == x);
            }
        }
        lemma_placed_ascending::<T>(d, x);
        let q = placed(d, x, below);
        assert forall|i: int, j: int| 0 <= i < j < p.len() implies T::below(#[trigger] p[i], #[trigger] p[j]) by {
            if j < q.len() {
                assert(T::below(q[i], q[j]));
            } else {
                lemma_placed_contains(d, x, below, q[i]);
                assert(q.contains(q[i]));
                if q[i] != x {
                    let k = choose|k: int| 0 <= k < d.len() && d[k] == q[i];
                    assert(T::below(l[k], l[l.len() - 1]));
                }
            }
        }
    } else {
        assert forall|i: int, j: int| 0 <= i < j < p.len() implies T::below(#[trigger] p[i], #[trigger] p[j]) by {
            if j < l.len() {
                assert(T::below(l[i], l[j]));
            } else {
                T::order_laws(l.last(), x, x);
                assert(l[l.len() - 1] == l.last());
                if l.last() == x {
                    assert(l.contains(x));
                }
                if i < l.len() - 1 {
                    assert(T::below(l[i], l[l.len() - 1]));
                    T::order_laws(l[i], l.last(), x);
                }
            }
        }
    }
}

/// No later element comes before an earlier one.
pub open spec fn in_order<V>(s: Seq<V>, before: spec_fn(V, V) -> bool) -> bool {
    forall|i: int, j: int| 0 <= i < j < s.len() ==> !before(#[trigger] s[j], #[trigger] s[i])
}

/// An order by rank: irreflexive, and what is not before keeps composing.
pub open spec fn weak_order<V>(before: spec_fn(V, V) -> bool) -> bool {
    &&& forall|a: V, b: V| #[trigger] before(a, b) ==> !before(b, a)
    &&& forall|a: V, b: V, c: V|
        !(#[trigger] before(a, b)) && !(#[trigger] before(b, c)) ==> !before(a, c)
}

proof fn lemma_placed_in_order<V>(s: Seq<V>, x: V, before: spec_fn(V, V) -> bool)
    requires
        weak_order(before),
        in_order(s, before),
    ensures
        in_order(placed(s, x, before), before),
        forall|i: int|
            0 <= i < placed(s, x, before).len() ==> #[trigger] placed(s, x, before)[i] == x || s.contains(
                placed(s, x, before)[i],
            ),
    decreases s.len(),
{
    let p = placed(s, x, before);
    if s.len() > 0 && before(x, s.last()) {
        let d = s.drop_last();
        lemma_placed_in_order(d, x, before);
        let q = placed(d, x, before);
        assert forall|i: int| 0 <= i < p.len() implies #[trigger] p[i] == x || s.contains(p[i]) by {
            if i < q.len() {
                assert(q[i] == x || d.contains(q[i]));
                if d.contains(q[i]) {
                    let k = choose|k: int| 0 <= k < d.len() && d[k] == q[i];
                    assert(s[k] == q[i]);
                }
            } else {
                assert(s[s.len() - 1] == p[i]);
            }
        }
        assert forall|i: int, j: int| 0 <= i < j < p.len() implies !before(#[trigger] p[j], #[trigger] p[i]) by {
            if j < q.len() {
                assert(!before(q[j], q[i]));
            } else {
                assert(q[i] == x || d.contains(q[i]));
                if q[i] != x {
                    let k = choose|k: int| 0 <= k < d.len() && d[k] == q[i];
                    assert(!before(s[s.len() - 1], s[k]));
                }
            }
        }
    } else {
        assert forall|i: int, j: int| 0 <= i < j < p.len() implies !before(#[trigger] p[j], #[trigger] p[i]) by {
            if j < s.len() {
                assert(!before(s[j], s[i]));
            } else if i < s.len() - 1 {
                assert(!before(s[s.len() - 1], s[i]));
                assert(!before(x, s[s.len() - 1]));
            }
        }
        assert forall|i: int| 0 <= i < p.len() implies #[trigger] p[i] == x || s.contains(p[i]) by {
            if i < s.len() {
                assert(s[i] == p[i]);
            }
        }
    }
}

/// What sorting by a rank returns is in order.
pub proof fn law_sorted_in_order<V>(s: Seq<V>, before: spec_fn(V, V) -> bool)
    requires
        weak_order(before),
    ensures
        in_order(sorted(s, before), before),
    decreases s.len(),
{
    if s.len() > 0 {
        law_sorted_in_order(s.drop_last(), before);
        lemma_placed_in_order(sorted(s.drop_last(), before), s.last(), before);
    }
}

/// Sorts in place, keeping the order of what the order does not tell apart.
pub(crate) fn sort_stably<T: DeepView, F: Fn(&T, &T) -> bool>(
    v: &mut Vec<T>,
    before: F,
    Ghost(order): Ghost<spec_fn(T::V, T::V) -> bool>,
)
    requires
        forall|a: &T, b: &T| #[trigger] before.requires((a, b)),
        forall|a: &T, b: &T, r: bool|
            #[trigger] before.ensures((a, b), r) ==> r == order(a.deep_view(), b.deep_view()),
    ensures
        final(v).deep_view() == sorted(old(v).deep_view(), order),
{
    let ghost s = v.deep_view();
    let mut i: usize = 0;
    assert(sorted(s.take(0), order) + s.skip(0) =~= s);
    while i < v.len()
        invariant
            i <= v.len(),
            v.len() == s.len(),
            v.deep_view() == sorted(s.take(i as int), order) + s.skip(i as int),
            forall|a: &T, b: &T| #[trigger] before.requires((a, b)),
            forall|a: &T, b: &T, r: bool|
                #[trigger] before.ensures((a, b), r) ==> r == order(a.deep_view(), b.deep_view()),
        decreases v.len() - i,
    {
        let ghost front = sorted(s.take(i as int), order);
        proof {
            law_sorted_permutes(s.take(i as int), order);
            assert(v.deep_view()[i as int] == s[i as int]);
        }
        let ghost whole = v.deep_view();
        let ghost held = v@;
        let x: T = v.remove(i);
        let ghost e = x.deep_view();
        proof {
            assert(e == s[i as int]);
            assert(v@ == held.remove(i as int));
            assert(v.deep_view() =~= whole.remove(i as int));
            assert(v.deep_view() =~= front + s.skip(i + 1));
        }
        let mut k: usize = i;
        while k > 0 && before(&x, &v[k - 1])
            invariant
                k <= i,
                i <= v.len(),
                v.len() == s.len() - 1,
                front.len() == i,
                e == x.deep_view(),
                v.deep_view() =~= front + s.skip(i + 1),
                forall|j: int| k <= j < i ==> order(e, front[j]),
                forall|a: &T, b: &T| #[trigger] before.requires((a, b)),
                forall|a: &T, b: &T, r: bool|
                    #[trigger] before.ensures((a, b), r) ==> r == order(
                        a.deep_view(),
                        b.deep_view(),
                    ),
            decreases k,
        {
            assert(v.deep_view()[k - 1] == front[k - 1]);
            k -= 1;
        }
        assert(k > 0 ==> v.deep_view()[k - 1] == front[k - 1]);
        proof {
            lemma_placed_at(front, e, order, k as int);
            assert(s.take(i + 1).drop_last() =~= s.take(i as int));
            assert(s.take(i + 1).last() == e);
        }
        let ghost rest = v.deep_view();
        let ghost held = v@;
        v.insert(k, x);
        assert(v@ == held.insert(k as int, x));
        assert(v.deep_view() =~= rest.insert(k as int, e));
        assert(v.deep_view() =~= front.insert(k as int, e) + s.skip(i + 1));
        i += 1;
    }
    assert(s.take(s.len() as int) =~= s);
    assert(v.deep_view() =~= sorted(s, order));
}

/// Placing an element without a property does not change the first one with
/// it.
pub proof fn lemma_first_placed<V>(
    s: Seq<V>,
    x: V,
    before: spec_fn(V, V) -> bool,
    p: spec_fn(V) -> bool,
)
    requires
        !p(x),
    ensures
        crate::seqs::first(placed(s, x, before), p) == crate::seqs::first(s, p),
    decreases s.len(),
{
    let t = placed(s, x, before);
    if s.len() > 0 && before(x, s.last()) {
        lemma_first_placed(s.drop_last(), x, before, p);
        assert(t.drop_last() =~= placed(s.drop_last(), x, before));
    } else {
        assert(t.drop_last() =~= s);
    }
}

} // verus!
