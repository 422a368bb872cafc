//! Strict total orders, stable sorting, and collections kept in ascending order.
use vstd::prelude::*;

verus! {

/// Values that can be copied without changing what they stand for.
pub trait Duplicate: DeepView + Sized {
    fn duplicate(&self) -> (r: Self)
        ensures
            r.deep_view() == self.deep_view(),
    ;
}

/// A copy of every item, in order.
pub fn duplicate_all<T: Duplicate>(items: &Vec<T>) -> (r: Vec<T>)
    ensures
        r.deep_view() == items.deep_view(),
{
    let mut out: Vec<T> = Vec::new();
    let mut index: usize = 0;
    assert(out.deep_view() =~= items.deep_view().take(0));
    while index < items.len()
        invariant
            index <= items@.len(),
            out.deep_view() == items.deep_view().take(index as int),
        decreases items@.len() - index,
    {
        let ghost done = out.deep_view();
        out.push(items[index].duplicate());
        assert(out.deep_view() =~= done.push(items.deep_view()[index as int]));
        assert(out.deep_view() =~= items.deep_view().take(index + 1));
        index += 1;
    }
    assert(items.deep_view().take(index as int) =~= items.deep_view());
    out
}

/// Keys with a strict total order on their mathematical values.
pub trait Rank: Duplicate {
    /// Whether `a` comes strictly before `b`.
    spec fn before(a: Self::V, b: Self::V) -> bool;

    proof fn before_irreflexive(a: Self::V)
        ensures
            !Self::before(a, a),
    ;

    proof fn before_transitive(a: Self::V, b: Self::V, c: Self::V)
        requires
            Self::before(a, b),
            Self::before(b, c),
        ensures
            Self::before(a, c),
    ;

    proof fn before_total(a: Self::V, b: Self::V)
        ensures
            a == b || Self::before(a, b) || Self::before(b, a),
    ;

    fn is_before(&self, other: &Self) -> (r: bool)
        ensures
            r == Self::before(self.deep_view(), other.deep_view()),
    ;
}

/// Every earlier element comes strictly before every later one.
pub open spec fn ascending<K: Rank>(s: Seq<K::V>) -> bool {
    forall|i: int, j: int| #![trigger s[i], s[j]] 0 <= i < j < s.len() ==> K::before(s[i], s[j])
}

/// The number of leading elements that come before `x`.
pub open spec fn lower_bound<K: Rank>(s: Seq<K::V>, x: K::V) -> int
    decreases s.len(),
{
    if s.len() == 0 || !K::before(s[0], x) {
        0
    } else {
        1 + lower_bound::<K>(s.drop_first(), x)
    }
}

/// The ascending sequence `s` with `x` added, unchanged if `x` is already there.
pub open spec fn set_insert<K: Rank>(s: Seq<K::V>, x: K::V) -> Seq<K::V> {
    if s.contains(x) {
        s
    } else {
        s.insert(lower_bound::<K>(s, x), x)
    }
}

/// The distinct elements of `s` in ascending order.
pub open spec fn distinct_ascending<K: Rank>(s: Seq<K::V>) -> Seq<K::V>
    decreases s.len(),
{
    if s.len() == 0 {
        Seq::empty()
    } else {
        set_insert::<K>(distinct_ascending::<K>(s.drop_last()), s.last())
    }
}

/// The keys of an association list.
pub open spec fn keys_of<A, B>(pairs: Seq<(A, B)>) -> Seq<A> {
    Seq::new(pairs.len(), |i: int| pairs[i].0)
}

/// The value stored under `k`, if any.
pub open spec fn lookup<A, B>(pairs: Seq<(A, B)>, k: A) -> Option<B>
    decreases pairs.len(),
{
    if pairs.len() == 0 {
        None
    } else if pairs[0].0 == k {
        Some(pairs[0].1)
    } else {
        lookup(pairs.drop_first(), k)
    }
}

/// The association list with `v` stored under `k`, keys still ascending.
pub open spec fn map_insert<K: Rank, B>(pairs: Seq<(K::V, B)>, k: K::V, v: B) -> Seq<(K::V, B)> {
    let i = lower_bound::<K>(keys_of(pairs), k);
    if i < pairs.len() && pairs[i].0 == k {
        pairs.update(i, (k, v))
    } else {
        pairs.insert(i, (k, v))
    }
}

pub proof fn lemma_lower_bound<K: Rank>(s: Seq<K::V>, x: K::V)
    ensures
        0 <= lower_bound::<K>(s, x) <= s.len(),
        forall|i: int|
            #![trigger s[i]]
            0 <= i < lower_bound::<K>(s, x) ==> K::before(s[i], x),
        lower_bound::<K>(s, x) < s.len() ==> !K::before(s[lower_bound::<K>(s, x)], x),
    decreases s.len(),
{
    if s.len() > 0 && K::before(s[0], x) {
        let t = s.drop_first();
        lemma_lower_bound::<K>(t, x);
        let n = lower_bound::<K>(s, x);
        assert forall|i: int| #![trigger s[i]] 0 <= i < n implies K::before(s[i], x) by {
            if i > 0 {
                assert(s[i] == t[i - 1]);
            }
        }
        if n < s.len() {
            assert(s[n] == t[n - 1]);
        }
    }
}

pub proof fn lemma_lower_bound_unique<K: Rank>(s: Seq<K::V>, x: K::V, n: int)
    requires
        0 <= n <= s.len(),
        forall|i: int| #![trigger s[i]] 0 <= i < n ==> K::before(s[i], x),
        n < s.len() ==> !K::before(s[n], x),
    ensures
        n == lower_bound::<K>(s, x),
{
    lemma_lower_bound::<K>(s, x);
    let m = lower_bound::<K>(s, x);
    if n < m {
        assert(K::before(s[n], x));
    }
    if m < n {
        assert(K::before(s[m], x));
    }
}

/// An element of an ascending sequence sits exactly at its lower bound.
pub proof fn lemma_member_at_lower_bound<K: Rank>(s: Seq<K::V>, x: K::V)
    requires
        ascending::<K>(s),
    ensures
        s.contains(x) <==> (lower_bound::<K>(s, x) < s.len() && s[lower_bound::<K>(s, x)] == x),
{
    lemma_lower_bound::<K>(s, x);
    let n = lower_bound::<K>(s, x);
    if s.contains(x) {
        let i = choose|i: int| 0 <= i < s.len() && s[i] == x;
        K::before_irreflexive(x);
        assert(i >= n);
        if i > n {
            assert(K::before(s[n], s[i]));
        }
    }
}

pub proof fn lemma_ascending_insert<K: Rank>(s: Seq<K::V>, x: K::V)
    requires
        ascending::<K>(s),
        !s.contains(x),
    ensures
        ascending::<K>(s.insert(lower_bound::<K>(s, x), x)),
{
    lemma_lower_bound::<K>(s, x);
    let n = lower_bound::<K>(s, x);
    let t = s.insert(n, x);
    assert forall|i: int, j: int| #![trigger t[i], t[j]] 0 <= i < j < t.len() implies K::before(
        t[i],
        t[j],
    ) by {
        if i < n && j == n {
            assert(t[i] == s[i]);
        } else if i == n {
            assert(t[j] == s[j - 1]);
            K::before_total(s[n], x);
            assert(s[n] != x);
            if j - 1 > n {
                assert(K::before(s[n], s[j - 1]));
                K::before_transitive(x, s[n], s[j - 1]);
            }
        } else {
            let a = if i < n {
                i
            } else {
                i - 1
            };
            let b = if j < n {
                j
            } else {
                j - 1
            };
            assert(t[i] == s[a] && t[j] == s[b]);
        }
    }
}

/// Adding an element keeps the order and adds exactly that element.
pub proof fn lemma_set_insert<K: Rank>(s: Seq<K::V>, x: K::V)
    requires
        ascending::<K>(s),
    ensures
        ascending::<K>(set_insert::<K>(s, x)),
        forall|y: K::V| #[trigger] set_insert::<K>(s, x).contains(y) <==> s.contains(y) || y == x,
{
    lemma_lower_bound::<K>(s, x);
    if !s.contains(x) {
        lemma_ascending_insert::<K>(s, x);
        let n = lower_bound::<K>(s, x);
        let t = s.insert(n, x);
        assert(t[n] == x);
        assert forall|y: K::V| #[trigger] t.contains(y) <==> s.contains(y) || y == x by {
            if s.contains(y) {
                let i = choose|i: int| 0 <= i < s.len() && s[i] == y;
                if i < n {
                    assert(t[i] == y);
                } else {
                    assert(t[i + 1] == y);
                }
            }
            if t.contains(y) && y != x {
                let i = choose|i: int| 0 <= i < t.len() && t[i] == y;
                if i < n {
                    assert(s[i] == y);
                } else {
                    assert(s[i - 1] == y);
                }
            }
        }
    }
}

/// `distinct_ascending` is ascending and has exactly the elements of `s`.
pub proof fn lemma_distinct_ascending<K: Rank>(s: Seq<K::V>)
    ensures
        ascending::<K>(distinct_ascending::<K>(s)),
        forall|y: K::V| #[trigger] distinct_ascending::<K>(s).contains(y) <==> s.contains(y),
    decreases s.len(),
{
    if s.len() > 0 {
        lemma_distinct_ascending::<K>(s.drop_last());
        lemma_set_insert::<K>(distinct_ascending::<K>(s.drop_last()), s.last());
        assert forall|y: K::V| #[trigger]
            distinct_ascending::<K>(s).contains(y) <==> s.contains(y) by {
            if s.contains(y) {
                let i = choose|i: int| 0 <= i < s.len() && s[i] == y;
                if i < s.len() - 1 {
                    assert(s.drop_last()[i] == y);
                }
            }
            if s.drop_last().contains(y) {
                let i = choose|i: int| 0 <= i < s.drop_last().len() && s.drop_last()[i] == y;
                assert(s[i] == y);
            }
            assert(s[s.len() - 1] == s.last());
        }
    }
}

pub proof fn lemma_lookup<A, B>(pairs: Seq<(A, B)>, k: A)
    ensures
        lookup(pairs, k) is None <==> !keys_of(pairs).contains(k),
        lookup(pairs, k) is Some ==> pairs.contains((k, lookup(pairs, k)->0)),
    decreases pairs.len(),
{
    if pairs.len() > 0 {
        let rest = pairs.drop_first();
        lemma_lookup(rest, k);
        assert(keys_of(pairs)[0] == pairs[0].0);
        if keys_of(rest).contains(k) {
            let i = choose|i: int| 0 <= i < rest.len() && keys_of(rest)[i] == k;
            assert(keys_of(pairs)[i + 1] == k);
        }
        if keys_of(pairs).contains(k) && pairs[0].0 != k {
            let i = choose|i: int| 0 <= i < pairs.len() && keys_of(pairs)[i] == k;
            assert(keys_of(rest)[i - 1] == k);
        }
        if lookup(pairs, k) is Some {
            let v = lookup(pairs, k)->0;
            if pairs[0].0 == k {
                assert(pairs[0] == (k, v));
            } else {
                let i = choose|i: int| 0 <= i < rest.len() && rest[i] == (k, v);
                assert(pairs[i + 1] == (k, v));
            }
        }
    }
}

pub proof fn lemma_lookup_at<K: Rank, B>(pairs: Seq<(K::V, B)>, i: int)
    requires
        ascending::<K>(keys_of(pairs)),
        0 <= i < pairs.len(),
    ensures
        lookup(pairs, pairs[i].0) == Some(pairs[i].1),
    decreases pairs.len(),
{
    if i > 0 {
        let rest = pairs.drop_first();
        let keys = keys_of(pairs);
        assert(K::before(keys[0], keys[i]));
        K::before_irreflexive(keys[0]);
        assert forall|a: int, b: int|
            #![trigger keys_of(rest)[a], keys_of(rest)[b]]
            0 <= a < b < rest.len() implies K::before(keys_of(rest)[a], keys_of(rest)[b]) by {
            assert(K::before(keys[a + 1], keys[b + 1]));
        }
        lemma_lookup_at::<K, B>(rest, i - 1);
        assert(rest[i - 1] == pairs[i]);
    }
}

pub proof fn lemma_map_insert<K: Rank, B>(pairs: Seq<(K::V, B)>, k: K::V, v: B)
    requires
        ascending::<K>(keys_of(pairs)),
    ensures
        ascending::<K>(keys_of(map_insert::<K, B>(pairs, k, v))),
        keys_of(map_insert::<K, B>(pairs, k, v)) == set_insert::<K>(keys_of(pairs), k),
{
    let keys = keys_of(pairs);
    lemma_lower_bound::<K>(keys, k);
    lemma_member_at_lower_bound::<K>(keys, k);
    let i = lower_bound::<K>(keys, k);
    let next = map_insert::<K, B>(pairs, k, v);
    if i < pairs.len() && pairs[i].0 == k {
        assert(keys_of(next) =~= keys);
    } else {
        if keys.contains(k) {
            assert(keys[i] == pairs[i].0);
        }
        assert(keys_of(next) =~= keys.insert(i, k));
        lemma_ascending_insert::<K>(keys, k);
    }
}

/// After an insertion the new value is found under its key and every other key is unaffected.
pub proof fn law_lookup_after_insert<K: Rank, B>(pairs: Seq<(K::V, B)>, k: K::V, v: B, q: K::V)
    requires
        ascending::<K>(keys_of(pairs)),
    ensures
        lookup(map_insert::<K, B>(pairs, k, v), q) == (if q == k {
            Some(v)
        } else {
            lookup(pairs, q)
        }),
{
    let keys = keys_of(pairs);
    let next = map_insert::<K, B>(pairs, k, v);
    lemma_map_insert::<K, B>(pairs, k, v);
    lemma_lower_bound::<K>(keys, k);
    let i = lower_bound::<K>(keys, k);
    if q == k {
        assert(next[i] == (k, v));
        lemma_lookup_at::<K, B>(next, i);
    } else {
        lemma_lookup(pairs, q);
        lemma_lookup(next, q);
        lemma_set_insert::<K>(keys, k);
        if keys.contains(q) {
            let a = choose|a: int| 0 <= a < keys.len() && keys[a] == q;
            lemma_lookup_at::<K, B>(pairs, a);
            assert(pairs[a].0 == q);
            if i < pairs.len() && pairs[i].0 == k {
                assert(next[a] == pairs[a]);
                lemma_lookup_at::<K, B>(next, a);
            } else if a < i {
                assert(next[a] == pairs[a]);
                lemma_lookup_at::<K, B>(next, a);
            } else {
                assert(next[a + 1] == pairs[a]);
                lemma_lookup_at::<K, B>(next, a + 1);
            }
        }
    }
}

impl<T: Duplicate> Duplicate for Vec<T> {
    fn duplicate(&self) -> (r: Self) {
        duplicate_all(self)
    }
}

impl<A: Duplicate, B: Duplicate> Duplicate for (A, B) {
    fn duplicate(&self) -> (r: Self) {
        (self.0.duplicate(), self.1.duplicate())
    }
}

/// Lexicographic order of sequences.
pub open spec fn sequence_before<K: Rank>(a: Seq<K::V>, b: Seq<K::V>) -> bool
    decreases a.len(),
{
    if b.len() == 0 {
        false
    } else if a.len() == 0 {
        true
    } else if a[0] != b[0] {
        K::before(a[0], b[0])
    } else {
        sequence_before::<K>(a.drop_first(), b.drop_first())
    }
}

proof fn lemma_sequence_irreflexive<K: Rank>(a: Seq<K::V>)
    ensures
        !sequence_before::<K>(a, a),
    decreases a.len(),
{
    if a.len() > 0 {
        lemma_sequence_irreflexive::<K>(a.drop_first());
    }
}

proof fn lemma_sequence_transitive<K: Rank>(a: Seq<K::V>, b: Seq<K::V>, c: Seq<K::V>)
    requires
        sequence_before::<K>(a, b),
        sequence_before::<K>(b, c),
    ensures
        sequence_before::<K>(a, c),
    decreases a.len(),
{
    if a.len() > 0 {
        if a[0] == b[0] && b[0] == c[0] {
            lemma_sequence_transitive::<K>(a.drop_first(), b.drop_first(), c.drop_first());
        } else if a[0] != b[0] && b[0] != c[0] {
            K::before_transitive(a[0], b[0], c[0]);
            K::before_irreflexive(a[0]);
        }
    }
}

proof fn lemma_sequence_total<K: Rank>(a: Seq<K::V>, b: Seq<K::V>)
    ensures
        a == b || sequence_before::<K>(a, b) || sequence_before::<K>(b, a),
    decreases a.len(),
{
    if a.len() > 0 && b.len() > 0 {
        if a[0] == b[0] {
            lemma_sequence_total::<K>(a.drop_first(), b.drop_first());
            if a.drop_first() == b.drop_first() {
                assert(a =~= seq![a[0]] + a.drop_first());
                assert(b =~= seq![b[0]] + b.drop_first());
            }
        } else {
            K::before_total(a[0], b[0]);
        }
    } else if a.len() == 0 && b.len() == 0 {
        assert(a =~= b);
    }
}

impl<K: Rank> Rank for Vec<K> {
    open spec fn before(a: Seq<K::V>, b: Seq<K::V>) -> bool {
        sequence_before::<K>(a, b)
    }

    proof fn before_irreflexive(a: Seq<K::V>) {
        lemma_sequence_irreflexive::<K>(a);
    }

    proof fn before_transitive(a: Seq<K::V>, b: Seq<K::V>, c: Seq<K::V>) {
        lemma_sequence_transitive::<K>(a, b, c);
    }

    proof fn before_total(a: Seq<K::V>, b: Seq<K::V>) {
        lemma_sequence_total::<K>(a, b);
    }

    fn is_before(&self, other: &Self) -> (r: bool) {
        let ghost a = self.deep_view();
        let ghost b = other.deep_view();
        let mut index: usize = 0;
        assert(a.skip(0) =~= a && b.skip(0) =~= b);
        while index < self.len() && index < other.len()
            invariant
                a == self.deep_view(),
                b == other.deep_view(),
                index <= self@.len(),
                index <= other@.len(),
                sequence_before::<K>(a, b) == sequence_before::<K>(
                    a.skip(index as int),
                    b.skip(index as int),
                ),
            decreases self@.len() - index,
        {
            proof {
                assert(a.skip(index as int).drop_first() =~= a.skip(index + 1));
                assert(b.skip(index as int).drop_first() =~= b.skip(index + 1));
                assert(a.skip(index as int)[0] == self@[index as int].deep_view());
                assert(b.skip(index as int)[0] == other@[index as int].deep_view());
                K::before_irreflexive(a.skip(index as int)[0]);
                K::before_total(a.skip(index as int)[0], b.skip(index as int)[0]);
                K::before_irreflexive(b.skip(index as int)[0]);
                if K::before(a.skip(index as int)[0], b.skip(index as int)[0]) && K::before(
                    b.skip(index as int)[0],
                    a.skip(index as int)[0],
                ) {
                    K::before_transitive(
                        a.skip(index as int)[0],
                        b.skip(index as int)[0],
                        a.skip(index as int)[0],
                    );
                }
            }
            if self[index].is_before(&other[index]) {
                return true;
            }
            if other[index].is_before(&self[index]) {
                return false;
            }
            index += 1;
        }
        index == self.len() && index < other.len()
    }
}

impl<A: Rank, B: Rank> Rank for (A, B) {
    open spec fn before(a: (A::V, B::V), b: (A::V, B::V)) -> bool {
        if a.0 != b.0 {
            A::before(a.0, b.0)
        } else {
            B::before(a.1, b.1)
        }
    }

    proof fn before_irreflexive(a: (A::V, B::V)) {
        B::before_irreflexive(a.1);
    }

    proof fn before_transitive(a: (A::V, B::V), b: (A::V, B::V), c: (A::V, B::V)) {
        if a.0 == b.0 && b.0 == c.0 {
            B::before_transitive(a.1, b.1, c.1);
        } else if a.0 != b.0 && b.0 != c.0 {
            A::before_transitive(a.0, b.0, c.0);
            A::before_irreflexive(a.0);
        }
    }

    proof fn before_total(a: (A::V, B::V), b: (A::V, B::V)) {
        A::before_total(a.0, b.0);
        B::before_total(a.1, b.1);
    }

    fn is_before(&self, other: &Self) -> (r: bool) {
        proof {
            let a = self.0.deep_view();
            let b = other.0.deep_view();
            A::before_irreflexive(a);
            A::before_total(a, b);
            if A::before(a, b) && A::before(b, a) {
                A::before_transitive(a, b, a);
            }
        }
        if self.0.is_before(&other.0) {
            true
        } else if other.0.is_before(&self.0) {
            false
        } else {
            self.1.is_before(&other.1)
        }
    }
}

/// What passes a filter was there before and satisfies the condition.
pub proof fn lemma_filtered<T>(s: Seq<T>, pred: spec_fn(T) -> bool, x: T)
    ensures
        s.filter(pred).contains(x) <==> s.contains(x) && pred(x),
    decreases s.len(),
{
    reveal(Seq::filter);
    if s.len() > 0 {
        let rest = s.drop_last();
        lemma_filtered(rest, pred, x);
        let out = s.filter(pred);
        let sub = rest.filter(pred);
        if s.contains(x) {
            let i = choose|i: int| 0 <= i < s.len() && s[i] == x;
            if i < rest.len() {
                assert(rest[i] == x);
            }
        }
        if rest.contains(x) {
            let i = choose|i: int| 0 <= i < rest.len() && rest[i] == x;
            assert(s[i] == x);
        }
        assert(s[s.len() - 1] == s.last());
        if sub.contains(x) {
            let i = choose|i: int| 0 <= i < sub.len() && sub[i] == x;
            assert(out[i] == x);
        }
        if pred(s.last()) {
            assert(out[out.len() - 1] == s.last());
        }
        if out.contains(x) {
            let i = choose|i: int| 0 <= i < out.len() && out[i] == x;
            if i < sub.len() {
                assert(sub[i] == x);
            }
        }
    }
}

/// The mathematical values of a sequence of items.
pub open spec fn views<T: DeepView>(items: Seq<T>) -> Seq<T::V> {
    Seq::new(items.len(), |i: int| items[i].deep_view())
}

/// A set of keys, kept in ascending order.
#[derive(Debug, PartialEq, Eq)]
pub struct OrderedSet<K: Rank> {
    items: Vec<K>,
}

impl<K: Rank> DeepView for OrderedSet<K> {
    type V = Seq<K::V>;

    closed spec fn deep_view(&self) -> Seq<K::V> {
        views(self.items@)
    }
}

/// The first position in `items` whose element does not come before `key`.
fn position_of<K: Rank>(items: &Vec<K>, key: &K) -> (r: usize)
    requires
        ascending::<K>(views(items@)),
    ensures
        r == lower_bound::<K>(views(items@), key.deep_view()),
        r <= items@.len(),
{
    let ghost s = views(items@);
    let ghost x = key.deep_view();
    let mut low: usize = 0;
    let mut high: usize = items.len();
    while low < high
        invariant
            s == views(items@),
            x == key.deep_view(),
            ascending::<K>(s),
            low <= high <= items@.len(),
            s.len() == items@.len(),
            forall|i: int| #![trigger s[i]] 0 <= i < low ==> K::before(s[i], x),
            high < s.len() ==> !K::before(s[high as int], x),
        decreases high - low,
    {
        let middle: usize = low + (high - low) / 2;
        assert(items[middle as int].deep_view() == s[middle as int]);
        if items[middle].is_before(key) {
            proof {
                assert forall|i: int| #![trigger s[i]] 0 <= i <= middle implies K::before(
                    s[i],
                    x,
                ) by {
                    if i < middle {
                        K::before_transitive(s[i], s[middle as int], x);
                    }
                }
            }
            low = middle + 1;
        } else {
            high = middle;
        }
    }
    proof {
        lemma_lower_bound_unique::<K>(s, x, low as int);
    }
    low
}

/// The keys without `x`, for an ascending sequence that contains it.
pub open spec fn set_remove<K: Rank>(s: Seq<K::V>, x: K::V) -> Seq<K::V> {
    if s.contains(x) {
        s.remove(lower_bound::<K>(s, x))
    } else {
        s
    }
}

/// Removing an element keeps the order and takes away exactly that element.
pub proof fn lemma_set_remove<K: Rank>(s: Seq<K::V>, x: K::V)
    requires
        ascending::<K>(s),
    ensures
        ascending::<K>(set_remove::<K>(s, x)),
        forall|y: K::V| #[trigger] set_remove::<K>(s, x).contains(y) <==> s.contains(y) && y != x,
{
    lemma_lower_bound::<K>(s, x);
    lemma_member_at_lower_bound::<K>(s, x);
    if s.contains(x) {
        let at = lower_bound::<K>(s, x);
        let t = s.remove(at);
        assert forall|i: int, j: int| #![trigger t[i], t[j]] 0 <= i < j < t.len() implies K::before(
            t[i],
            t[j],
        ) by {
            let a = if i < at {
                i
            } else {
                i + 1
            };
            let b = if j < at {
                j
            } else {
                j + 1
            };
            assert(t[i] == s[a] && t[j] == s[b]);
        }
        assert forall|y: K::V| #[trigger] t.contains(y) <==> s.contains(y) && y != x by {
            if s.contains(y) && y != x {
                let i = choose|i: int| 0 <= i < s.len() && s[i] == y;
                if i < at {
                    assert(t[i] == y);
                } else {
                    assert(t[i - 1] == y);
                }
            }
            if t.contains(y) {
                let i = choose|i: int| 0 <= i < t.len() && t[i] == y;
                K::before_irreflexive(x);
                if i < at {
                    assert(s[i] == y);
                    assert(K::before(s[i], s[at]));
                } else {
                    assert(s[i + 1] == y);
                    assert(K::before(s[at], s[i + 1]));
                }
            }
        }
    }
}

impl<K: Rank> OrderedSet<K> {
    #[verifier::type_invariant]
    spec fn sorted(self) -> bool {
        ascending::<K>(views(self.items@))
    }

    pub fn new() -> (r: Self)
        ensures
            r.deep_view() == Seq::<K::V>::empty(),
    {
        let r = OrderedSet { items: Vec::new() };
        assert(r.deep_view() =~= Seq::<K::V>::empty());
        r
    }

    /// The elements in ascending order.
    pub fn items(&self) -> (r: &Vec<K>)
        ensures
            r.deep_view() == self.deep_view(),
            ascending::<K>(self.deep_view()),
    {
        proof {
            use_type_invariant(self);
        }
        &self.items
    }

    pub fn contains(&self, key: &K) -> (r: bool)
        ensures
            r == self.deep_view().contains(key.deep_view()),
    {
        proof {
            use_type_invariant(self);
        }
        let at = position_of(&self.items, key);
        proof {
            let s = self.deep_view();
            lemma_lower_bound::<K>(s, key.deep_view());
            lemma_member_at_lower_bound::<K>(s, key.deep_view());
            if at < s.len() {
                K::before_total(key.deep_view(), s[at as int]);
                K::before_irreflexive(key.deep_view());
            }
        }
        at < self.items.len() && !key.is_before(&self.items[at])
    }

    /// Hands out the elements, leaving the set empty.
    fn take_items(&mut self) -> (r: Vec<K>)
        ensures
            r@ == old(self).items@,
    {
        let mut empty = OrderedSet { items: Vec::new() };
        std::mem::swap(self, &mut empty);
        empty.items
    }

    /// Adds `key`; returns whether it was absent.
    pub fn insert(&mut self, key: K) -> (r: bool)
        ensures
            final(self).deep_view() == set_insert::<K>(old(self).deep_view(), key.deep_view()),
            r == !old(self).deep_view().contains(key.deep_view()),
            ascending::<K>(old(self).deep_view()),
            ascending::<K>(final(self).deep_view()),
    {
        proof {
            use_type_invariant(&*self);
        }
        let at = position_of(&self.items, &key);
        let ghost s = self.deep_view();
        let ghost x = key.deep_view();
        proof {
            lemma_lower_bound::<K>(s, x);
            lemma_member_at_lower_bound::<K>(s, x);
            lemma_set_insert::<K>(s, x);
            if at < s.len() {
                K::before_total(x, s[at as int]);
                K::before_irreflexive(x);
            }
        }
        if at < self.items.len() && !key.is_before(&self.items[at]) {
            return false;
        }
        assert(views(self.items@.insert(at as int, key)) =~= s.insert(at as int, x));
        let mut items = self.take_items();
        items.insert(at, key);
        *self = OrderedSet { items };
        true
    }

    /// Removes `key`; returns whether it was present.
    pub fn remove(&mut self, key: &K) -> (r: bool)
        ensures
            final(self).deep_view() == set_remove::<K>(old(self).deep_view(), key.deep_view()),
            r == old(self).deep_view().contains(key.deep_view()),
            ascending::<K>(old(self).deep_view()),
            ascending::<K>(final(self).deep_view()),
    {
        proof {
            use_type_invariant(&*self);
        }
        let at = position_of(&self.items, key);
        let ghost s = self.deep_view();
        let ghost x = key.deep_view();
        proof {
            lemma_lower_bound::<K>(s, x);
            lemma_member_at_lower_bound::<K>(s, x);
            lemma_set_remove::<K>(s, x);
            if at < s.len() {
                K::before_total(x, s[at as int]);
                K::before_irreflexive(x);
            }
        }
        if at >= self.items.len() || key.is_before(&self.items[at]) {
            return false;
        }
        assert(views(self.items@.remove(at as int)) =~= s.remove(at as int));
        let mut items = self.take_items();
        items.remove(at);
        *self = OrderedSet { items };
        true
    }

    /// The set of the given elements.
    pub fn from_vec(items: Vec<K>) -> (r: Self)
        ensures
            r.deep_view() == distinct_ascending::<K>(items.deep_view()),
    {
        let mut out = OrderedSet::new();
        let ghost all = items.deep_view();
        let mut index: usize = 0;
        while index < items.len()
            invariant
                all == items.deep_view(),
                index <= items@.len(),
                out.deep_view() == distinct_ascending::<K>(all.take(index as int)),
            decreases items@.len() - index,
        {
            out.insert(items[index].duplicate());
            assert(all.take(index + 1).drop_last() =~= all.take(index as int));
            assert(all.take(index + 1).last() == items[index as int].deep_view());
            index += 1;
        }
        assert(all.take(index as int) =~= all);
        out
    }

    /// The elements in ascending order, handed over.
    pub fn into_vec(self) -> (r: Vec<K>)
        ensures
            r.deep_view() == self.deep_view(),
            ascending::<K>(self.deep_view()),
    {
        proof {
            use_type_invariant(&self);
        }
        self.items
    }
}

impl<K: Rank> Duplicate for OrderedSet<K> {
    fn duplicate(&self) -> (r: Self) {
        proof {
            use_type_invariant(self);
        }
        let items = duplicate_all(&self.items);
        assert(views(items@) =~= items.deep_view());
        assert(views(self.items@) =~= self.items.deep_view());
        OrderedSet { items }
    }
}

/// A map from keys to values, kept in ascending order of the keys.
#[derive(Debug, PartialEq, Eq)]
pub struct OrderedMap<K: Rank, T> {
    keys: Vec<K>,
    values: Vec<T>,
}

/// The keys and values of a map, paired up.
pub open spec fn paired<A, B>(keys: Seq<A>, values: Seq<B>) -> Seq<(A, B)> {
    Seq::new(keys.len(), |i: int| (keys[i], values[i]))
}

impl<K: Rank, T: DeepView> DeepView for OrderedMap<K, T> {
    type V = Seq<(K::V, T::V)>;

    closed spec fn deep_view(&self) -> Seq<(K::V, T::V)> {
        paired(views(self.keys@), views(self.values@))
    }
}

impl<K: Rank, T> OrderedMap<K, T> {
    #[verifier::type_invariant]
    spec fn sorted(self) -> bool {
        &&& ascending::<K>(views(self.keys@))
        &&& self.keys@.len() == self.values@.len()
    }
}

impl<K: Rank, T: DeepView> OrderedMap<K, T> {
    pub fn new() -> (r: Self)
        ensures
            r.deep_view() == Seq::<(K::V, T::V)>::empty(),
    {
        let r = OrderedMap { keys: Vec::new(), values: Vec::new() };
        assert(r.deep_view() =~= Seq::<(K::V, T::V)>::empty());
        r
    }

    /// The keys in ascending order.
    pub fn keys(&self) -> (r: &Vec<K>)
        ensures
            r.deep_view() == keys_of(self.deep_view()),
            ascending::<K>(keys_of(self.deep_view())),
    {
        proof {
            use_type_invariant(self);
            assert(keys_of(self.deep_view()) =~= views(self.keys@));
        }
        &self.keys
    }

    /// The values in ascending order of their keys.
    pub fn values(&self) -> (r: &Vec<T>)
        ensures
            r@.len() == self.deep_view().len(),
            forall|i: int|
                0 <= i < r@.len() ==> (#[trigger] r@[i]).deep_view() == self.deep_view()[i].1,
    {
        proof {
            use_type_invariant(self);
        }
        &self.values
    }

    pub fn get(&self, key: &K) -> (r: Option<&T>)
        ensures
            r.deep_view() == lookup(self.deep_view(), key.deep_view()),
    {
        proof {
            use_type_invariant(self);
        }
        let at = position_of(&self.keys, key);
        proof {
            let s = views(self.keys@);
            let pairs = self.deep_view();
            assert(keys_of(pairs) =~= s);
            lemma_lookup(pairs, key.deep_view());
            lemma_lower_bound::<K>(s, key.deep_view());
            lemma_member_at_lower_bound::<K>(s, key.deep_view());
            if at < s.len() {
                K::before_total(key.deep_view(), s[at as int]);
                K::before_irreflexive(key.deep_view());
                lemma_lookup_at::<K, T::V>(pairs, at as int);
            }
        }
        if at < self.keys.len() && !key.is_before(&self.keys[at]) {
            Some(&self.values[at])
        } else {
            None
        }
    }

    /// Stores `value` under `key`; returns whether the key was absent.
    pub fn insert(&mut self, key: K, value: T) -> (r: bool)
        ensures
            final(self).deep_view() == map_insert::<K, T::V>(
                old(self).deep_view(),
                key.deep_view(),
                value.deep_view(),
            ),
            r == (lookup(old(self).deep_view(), key.deep_view()) is None),
    {
        proof {
            use_type_invariant(&*self);
        }
        let at = position_of(&self.keys, &key);
        let ghost s = views(self.keys@);
        let ghost pairs = self.deep_view();
        let ghost x = key.deep_view();
        proof {
            assert(keys_of(pairs) =~= s);
            lemma_lookup(pairs, x);
            lemma_lower_bound::<K>(s, x);
            lemma_member_at_lower_bound::<K>(s, x);
            if at < s.len() {
                K::before_total(x, s[at as int]);
                K::before_irreflexive(x);
            }
        }
        let absent = at == self.keys.len() || key.is_before(&self.keys[at]);
        let mut taken = OrderedMap { keys: Vec::new(), values: Vec::new() };
        std::mem::swap(self, &mut taken);
        let mut keys = taken.keys;
        let mut values = taken.values;
        if absent {
            proof {
                lemma_ascending_insert::<K>(s, x);
            }
            assert(views(keys@.insert(at as int, key)) =~= s.insert(at as int, x));
            keys.insert(at, key);
            values.insert(at, value);
        } else {
            assert(views(keys@) =~= s);
            values.set(at, value);
        }
        *self = OrderedMap { keys, values };
        assert(self.deep_view() =~= map_insert::<K, T::V>(pairs, x, value.deep_view()));
        absent
    }
}

impl<K: Rank, T: DeepView> OrderedMap<K, T> {
    /// The map with the same keys and other values.
    pub fn with_values<U: DeepView>(&self, values: Vec<U>) -> (r: OrderedMap<K, U>)
        requires
            values@.len() == self.deep_view().len(),
        ensures
            r.deep_view() == paired(keys_of(self.deep_view()), values.deep_view()),
    {
        proof {
            use_type_invariant(self);
        }
        let keys = duplicate_all(&self.keys);
        proof {
            assert(keys.deep_view().len() == self.keys.deep_view().len());
            assert(views(keys@) =~= keys.deep_view());
            assert(views(self.keys@) =~= self.keys.deep_view());
            assert(keys_of(self.deep_view()) =~= views(self.keys@));
            assert(views(values@) =~= values.deep_view());
        }
        OrderedMap { keys, values }
    }
}

impl<K: Rank, T: Duplicate> Duplicate for OrderedMap<K, T> {
    fn duplicate(&self) -> (r: Self) {
        proof {
            use_type_invariant(self);
        }
        let keys = duplicate_all(&self.keys);
        let values = duplicate_all(&self.values);
        proof {
            assert(keys.deep_view().len() == self.keys.deep_view().len());
            assert(values.deep_view().len() == self.values.deep_view().len());
            assert(views(keys@) =~= keys.deep_view());
            assert(views(self.keys@) =~= self.keys.deep_view());
            assert(views(values@) =~= values.deep_view());
            assert(views(self.values@) =~= self.values.deep_view());
        }
        OrderedMap { keys, values }
    }
}

impl<K: Rank> Clone for OrderedSet<K> {
    fn clone(&self) -> (r: Self)
        ensures
            r.deep_view() == self.deep_view(),
    {
        self.duplicate()
    }
}

impl<K: Rank, T: Duplicate> Clone for OrderedMap<K, T> {
    fn clone(&self) -> (r: Self)
        ensures
            r.deep_view() == self.deep_view(),
    {
        self.duplicate()
    }
}

/// The first position of `s` whose element `x` may precede.
pub open spec fn insertion_point<T>(s: Seq<T>, x: T, le: spec_fn(T, T) -> bool) -> int
    decreases s.len(),
{
    if s.len() == 0 || le(x, s[0]) {
        0
    } else {
        1 + insertion_point(s.drop_first(), x, le)
    }
}

/// The elements of `s` in the order of `le`, equal ones in the order that they had.
pub open spec fn stable_sorted<T>(s: Seq<T>, le: spec_fn(T, T) -> bool) -> Seq<T>
    decreases s.len(),
{
    if s.len() == 0 {
        s
    } else {
        let rest = stable_sorted(s.drop_first(), le);
        rest.insert(insertion_point(rest, s[0], le), s[0])
    }
}

pub proof fn lemma_insertion_point<T>(s: Seq<T>, x: T, le: spec_fn(T, T) -> bool)
    ensures
        0 <= insertion_point(s, x, le) <= s.len(),
        forall|i: int| #![trigger s[i]] 0 <= i < insertion_point(s, x, le) ==> !le(x, s[i]),
        insertion_point(s, x, le) < s.len() ==> le(x, s[insertion_point(s, x, le)]),
    decreases s.len(),
{
    if s.len() > 0 && !le(x, s[0]) {
        let t = s.drop_first();
        lemma_insertion_point(t, x, le);
        let n = insertion_point(s, x, le);
        assert forall|i: int| #![trigger s[i]] 0 <= i < n implies !le(x, s[i]) by {
            if i > 0 {
                assert(s[i] == t[i - 1]);
            }
        }
        if n < s.len() {
            assert(s[n] == t[n - 1]);
        }
    }
}

/// Sorting rearranges the elements and leaves them in order.
pub proof fn law_stable_sorted<T>(s: Seq<T>, le: spec_fn(T, T) -> bool)
    requires
        forall|a: T, b: T| #![trigger le(a, b)] le(a, b) || le(b, a),
        forall|a: T, b: T, c: T| #![trigger le(a, b), le(b, c)] le(a, b) && le(b, c) ==> le(a, c),
    ensures
        stable_sorted(s, le).to_multiset() == s.to_multiset(),
        stable_sorted(s, le).len() == s.len(),
        forall|i: int, j: int|
            #![trigger stable_sorted(s, le)[i], stable_sorted(s, le)[j]]
            0 <= i < j < s.len() ==> le(stable_sorted(s, le)[i], stable_sorted(s, le)[j]),
    decreases s.len(),
{
    broadcast use vstd::seq_lib::group_to_multiset_ensures;

    if s.len() > 0 {
        let rest = stable_sorted(s.drop_first(), le);
        law_stable_sorted(s.drop_first(), le);
        lemma_insertion_point(rest, s[0], le);
        let n = insertion_point(rest, s[0], le);
        let out = rest.insert(n, s[0]);
        assert(s =~= seq![s[0]] + s.drop_first());
        assert(out.to_multiset() =~= rest.to_multiset().insert(s[0]));
        assert(s.to_multiset() =~= s.drop_first().to_multiset().insert(s[0])) by {
            assert(s.drop_first().insert(0, s[0]) =~= s);
        }
        assert forall|i: int, j: int| #![trigger out[i], out[j]] 0 <= i < j < s.len() implies le(
            out[i],
            out[j],
        ) by {
            if i == n {
                assert(out[j] == rest[j - 1]);
                if j - 1 > n {
                    assert(le(rest[n], rest[j - 1]));
                }
                assert(le(s[0], rest[n]));
            } else if j == n {
                assert(out[i] == rest[i]);
                assert(!le(s[0], rest[i]));
                assert(le(rest[i], s[0]) || le(s[0], rest[i]));
            } else {
                let a = if i < n {
                    i
                } else {
                    i - 1
                };
                let b = if j < n {
                    j
                } else {
                    j - 1
                };
                assert(out[i] == rest[a] && out[j] == rest[b]);
            }
        }
    } else {
        assert(stable_sorted(s, le) =~= s);
    }
}

/// Sorts by `may_precede`, which decides the order `le`; equal items keep their order.
pub fn sort_by<T: DeepView, F: Fn(&T, &T) -> bool>(
    items: Vec<T>,
    may_precede: F,
    Ghost(le): Ghost<spec_fn(T::V, T::V) -> bool>,
) -> (r: Vec<T>)
    requires
        forall|a: &T, b: &T| #[trigger] call_requires(may_precede, (a, b)),
        forall|a: &T, b: &T, c: bool| #[trigger]
            call_ensures(may_precede, (a, b), c) ==> c == le(a.deep_view(), b.deep_view()),
    ensures
        r.deep_view() == stable_sorted(items.deep_view(), le),
        forall|i: int| 0 <= i < r@.len() ==> items@.contains(#[trigger] r@[i]),
{
    let ghost all = items.deep_view();
    let ghost given = items@;
    let mut items = items;
    let mut out: Vec<T> = Vec::new();
    assert(all.skip(all.len() as int) =~= Seq::<T::V>::empty());
    assert(given.take(given.len() as int) =~= given);
    assert(all.take(all.len() as int) =~= all);
    assert(out.deep_view() =~= Seq::<T::V>::empty());
    while items.len() > 0
        invariant
            forall|a: &T, b: &T| #[trigger] call_requires(may_precede, (a, b)),
            forall|a: &T, b: &T, c: bool| #[trigger]
                call_ensures(may_precede, (a, b), c) ==> c == le(a.deep_view(), b.deep_view()),
            items@.len() <= all.len(),
            given.len() == all.len(),
            items@ == given.take(items@.len() as int),
            forall|i: int| 0 <= i < out@.len() ==> given.contains(#[trigger] out@[i]),
            items.deep_view() == all.take(items@.len() as int),
            out.deep_view() == stable_sorted(all.skip(items@.len() as int), le),
        decreases items@.len(),
    {
        let ghost before = items@;
        let ghost n = items@.len() - 1;
        let item = items.pop().unwrap();
        proof {
            assert(items.deep_view() =~= all.take(n));
            assert(items@ =~= given.take(n));
            assert(given[n] == item);
            assert(before[n].deep_view() == all.take(n + 1)[n]);
            assert(item.deep_view() == all[n]);
            assert(all.skip(n).drop_first() =~= all.skip(n + 1));
            assert(all.skip(n)[0] == all[n]);
            lemma_insertion_point(out.deep_view(), item.deep_view(), le);
        }
        let ghost sorted = out.deep_view();
        let ghost x = item.deep_view();
        let mut at: usize = 0;
        assert(sorted.skip(0) =~= sorted);
        while at < out.len() && !may_precede(&item, &out[at])
            invariant
                forall|a: &T, b: &T| #[trigger] call_requires(may_precede, (a, b)),
                forall|a: &T, b: &T, c: bool| #[trigger]
                    call_ensures(may_precede, (a, b), c) ==> c == le(a.deep_view(), b.deep_view()),
                at <= out@.len(),
                sorted == out.deep_view(),
                x == item.deep_view(),
                insertion_point(sorted, x, le) == at + insertion_point(
                    sorted.skip(at as int),
                    x,
                    le,
                ),
            decreases out@.len() - at,
        {
            assert(sorted.skip(at as int).drop_first() =~= sorted.skip(at + 1));
            assert(sorted.skip(at as int)[0] == out@[at as int].deep_view());
            at += 1;
        }
        assert(at < out@.len() ==> sorted.skip(at as int)[0] == out@[at as int].deep_view());
        let ghost so_far = out@;
        out.insert(at, item);
        assert(out.deep_view() =~= sorted.insert(at as int, x));
        assert forall|i: int| 0 <= i < out@.len() implies given.contains(#[trigger] out@[i]) by {
            if i < at {
                assert(out@[i] == so_far[i]);
            } else if i > at {
                assert(out@[i] == so_far[i - 1]);
            }
        }
    }
    assert(all.skip(0) =~= all);
    out
}

} // verus!
