//! Searches and filters over sequences, stated once for every predicate.
use vstd::prelude::*;

verus! {

/// The smallest index below `n` at which `p` holds.
pub open spec fn first_where(n: int, p: spec_fn(int) -> bool) -> Option<int> {
    if exists|i: int| 0 <= i < n && #[trigger] p(i) && forall|j: int| 0 <= j < i ==> !#[trigger] p(j) {
        Some(choose|i: int| 0 <= i < n && #[trigger] p(i) && forall|j: int| 0 <= j < i ==> !#[trigger] p(j))
    } else {
        None
    }
}

/// The largest index below `n` at which `p` holds.
pub open spec fn last_where(n: int, p: spec_fn(int) -> bool) -> Option<int> {
    if exists|i: int| 0 <= i < n && #[trigger] p(i) && forall|j: int| i < j < n ==> !#[trigger] p(j) {
        Some(choose|i: int| 0 <= i < n && #[trigger] p(i) && forall|j: int| i < j < n ==> !#[trigger] p(j))
    } else {
        None
    }
}

pub proof fn lemma_first_where_some(n: int, p: spec_fn(int) -> bool, i: int)
    requires
        0 <= i < n,
        p(i),
        forall|j: int| 0 <= j < i ==> !#[trigger] p(j),
    ensures
        first_where(n, p) == Some(i),
{
    let k = choose|k: int| 0 <= k < n && #[trigger] p(k) && forall|j: int| 0 <= j < k ==> !#[trigger] p(j);
    assert(0 <= k < n && p(k) && forall|j: int| 0 <= j < k ==> !#[trigger] p(j));
    if k < i {
        assert(!p(k));
    }
    if i < k {
        assert(!p(i));
    }
}

pub proof fn lemma_first_where_none(n: int, p: spec_fn(int) -> bool)
    requires
        forall|j: int| 0 <= j < n ==> !#[trigger] p(j),
    ensures
        first_where(n, p) is None,
{
}

proof fn lemma_exists_first(n: int, p: spec_fn(int) -> bool, j: int)
    requires
        0 <= j < n,
        p(j),
    ensures
        exists|i: int| 0 <= i < n && #[trigger] p(i) && forall|k: int| 0 <= k < i ==> !#[trigger] p(k),
    decreases j,
{
    if exists|k: int| 0 <= k < j && #[trigger] p(k) {
        let k = choose|k: int| 0 <= k < j && #[trigger] p(k);
        lemma_exists_first(n, p, k);
    } else {
        assert(forall|k: int| 0 <= k < j ==> !#[trigger] p(k));
    }
}

pub proof fn lemma_first_where_facts(n: int, p: spec_fn(int) -> bool)
    ensures
        first_where(n, p) is None ==> forall|j: int| 0 <= j < n ==> !#[trigger] p(j),
        first_where(n, p) matches Some(i) ==> 0 <= i < n && p(i) && forall|j: int|
            0 <= j < i ==> !#[trigger] p(j),
{
    if first_where(n, p) is None {
        assert forall|j: int| 0 <= j < n implies !#[trigger] p(j) by {
            if p(j) {
                lemma_exists_first(n, p, j);
            }
        }
    }
}

pub proof fn lemma_last_where_some(n: int, p: spec_fn(int) -> bool, i: int)
    requires
        0 <= i < n,
        p(i),
        forall|j: int| i < j < n ==> !#[trigger] p(j),
    ensures
        last_where(n, p) == Some(i),
{
    let k = choose|k: int| 0 <= k < n && #[trigger] p(k) && forall|j: int| k < j < n ==> !#[trigger] p(j);
    assert(0 <= k < n && p(k) && forall|j: int| k < j < n ==> !#[trigger] p(j));
    if k < i {
        assert(!p(i));
    }
    if i < k {
        assert(!p(k));
    }
}

pub proof fn lemma_last_where_none(n: int, p: spec_fn(int) -> bool)
    requires
        forall|j: int| 0 <= j < n ==> !#[trigger] p(j),
    ensures
        last_where(n, p) is None,
{
}

proof fn lemma_exists_last(n: int, p: spec_fn(int) -> bool, j: int)
    requires
        0 <= j < n,
        p(j),
    ensures
        exists|i: int| 0 <= i < n && #[trigger] p(i) && forall|k: int| i < k < n ==> !#[trigger] p(k),
    decreases n - j,
{
    if exists|k: int| j < k < n && #[trigger] p(k) {
        let k = choose|k: int| j < k < n && #[trigger] p(k);
        lemma_exists_last(n, p, k);
    } else {
        assert(forall|k: int| j < k < n ==> !#[trigger] p(k));
    }
}

pub proof fn lemma_last_where_facts(n: int, p: spec_fn(int) -> bool)
    ensures
        last_where(n, p) is None ==> forall|j: int| 0 <= j < n ==> !#[trigger] p(j),
        last_where(n, p) matches Some(i) ==> 0 <= i < n && p(i) && forall|j: int|
            i < j < n ==> !#[trigger] p(j),
{
    if last_where(n, p) is None {
        assert forall|j: int| 0 <= j < n implies !#[trigger] p(j) by {
            if p(j) {
                lemma_exists_last(n, p, j);
            }
        }
    }
}

/// The elements of `s` below index `n` at whose indices `keep` holds, in order.
pub open spec fn filter_prefix<A>(s: Seq<A>, keep: spec_fn(int) -> bool, n: int) -> Seq<A>
    decreases n,
{
    if n <= 0 {
        seq![]
    } else {
        let r = filter_prefix(s, keep, n - 1);
        if keep(n - 1) {
            r.push(s[n - 1])
        } else {
            r
        }
    }
}

/// The elements of `s` at whose indices `keep` holds, in order.
pub open spec fn filter_by<A>(s: Seq<A>, keep: spec_fn(int) -> bool) -> Seq<A> {
    filter_prefix(s, keep, s.len() as int)
}


proof fn lemma_filter_prefix_contains<A>(s: Seq<A>, keep: spec_fn(int) -> bool, n: int, i: int)
    requires
        0 <= i < n <= s.len(),
        keep(i),
    ensures
        filter_prefix(s, keep, n).contains(s[i]),
    decreases n,
{
    let r = filter_prefix(s, keep, n - 1);
    if i == n - 1 {
        assert(filter_prefix(s, keep, n) == r.push(s[i]));
        assert(r.push(s[i])[r.len() as int] == s[i]);
    } else {
        lemma_filter_prefix_contains(s, keep, n - 1, i);
        let j = choose|j: int| 0 <= j < r.len() && r[j] == s[i];
        if keep(n - 1) {
            assert(r.push(s[n - 1])[j] == s[i]);
        }
    }
}

/// An element at an index the filter keeps is in the result.
pub proof fn lemma_filter_by_contains<A>(s: Seq<A>, keep: spec_fn(int) -> bool, i: int)
    requires
        0 <= i < s.len(),
        keep(i),
    ensures
        filter_by(s, keep).contains(s[i]),
{
    lemma_filter_prefix_contains(s, keep, s.len() as int, i);
}

/// Putting elements in at `idx` keeps every element that was there.
pub proof fn lemma_splice_contains<A>(s: Seq<A>, idx: int, ins: Seq<A>, x: A)
    requires
        0 <= idx <= s.len(),
        s.contains(x),
    ensures
        (s.take(idx) + ins + s.skip(idx)).contains(x),
{
    let j = choose|j: int| 0 <= j < s.len() && s[j] == x;
    let r = s.take(idx) + ins + s.skip(idx);
    if j < idx {
        assert(r[j] == x);
    } else {
        assert(r[j + ins.len()] == x);
    }
}

/// Appending keeps every element that was there.
pub proof fn lemma_append_contains<A>(s: Seq<A>, t: Seq<A>, x: A)
    requires
        s.contains(x),
    ensures
        (s + t).contains(x),
{
    let j = choose|j: int| 0 <= j < s.len() && s[j] == x;
    assert((s + t)[j] == x);
}

/// `x` is an element of `s` at an index below `n` that `keep` keeps.
pub open spec fn kept_from<A>(s: Seq<A>, keep: spec_fn(int) -> bool, n: int, x: A) -> bool {
    exists|i: int| 0 <= i < n && keep(i) && s[i] == x
}

proof fn lemma_filter_prefix_from<A>(s: Seq<A>, keep: spec_fn(int) -> bool, n: int)
    requires
        0 <= n <= s.len(),
    ensures
        forall|j: int|
            0 <= j < filter_prefix(s, keep, n).len() ==> kept_from(s, keep, n, #[trigger] filter_prefix(s, keep, n)[j]),
    decreases n,
{
    if n > 0 {
        lemma_filter_prefix_from(s, keep, n - 1);
        let r = filter_prefix(s, keep, n - 1);
        let f = filter_prefix(s, keep, n);
        assert forall|j: int| 0 <= j < f.len() implies kept_from(s, keep, n, #[trigger] f[j]) by {
            if j < r.len() {
                assert(f[j] == r[j]);
                assert(kept_from(s, keep, n - 1, r[j]));
                let i = choose|i: int| 0 <= i < n - 1 && keep(i) && s[i] == r[j];
                assert(0 <= i < n && keep(i) && s[i] == f[j]);
            } else {
                assert(f[j] == s[n - 1]);
                assert(0 <= n - 1 < n && keep(n - 1) && s[n - 1] == f[j]);
            }
        }
    }
}

/// Every element of the filtered sequence is an element the filter kept.
pub proof fn lemma_filter_by_from<A>(s: Seq<A>, keep: spec_fn(int) -> bool)
    ensures
        forall|j: int| 0 <= j < filter_by(s, keep).len() ==> kept_from(s, keep, s.len() as int, #[trigger] filter_by(s, keep)[j]),
{
    lemma_filter_prefix_from(s, keep, s.len() as int);
}

/// The first element of `s` that satisfies `p`.
pub open spec fn first_of<A>(s: Seq<A>, p: spec_fn(A) -> bool) -> Option<A> {
    match first_where(s.len() as int, |i: int| p(s[i])) {
        Some(i) => Some(s[i]),
        None => None,
    }
}

pub proof fn lemma_first_of_at<A>(s: Seq<A>, p: spec_fn(A) -> bool, i: int)
    requires
        0 <= i < s.len(),
        p(s[i]),
        forall|j: int| 0 <= j < i ==> !p(#[trigger] s[j]),
    ensures
        first_of(s, p) == Some(s[i]),
{
    let q = |k: int| p(s[k]);
    assert forall|j: int| 0 <= j < i implies !#[trigger] q(j) by {}
    lemma_first_where_some(s.len() as int, q, i);
}

pub proof fn lemma_first_of_none<A>(s: Seq<A>, p: spec_fn(A) -> bool)
    requires
        forall|j: int| 0 <= j < s.len() ==> !p(#[trigger] s[j]),
    ensures
        first_of(s, p) is None,
{
    let q = |k: int| p(s[k]);
    assert forall|j: int| 0 <= j < s.len() implies !#[trigger] q(j) by {}
    lemma_first_where_none(s.len() as int, q);
}

pub proof fn lemma_first_of_facts<A>(s: Seq<A>, p: spec_fn(A) -> bool)
    ensures
        first_of(s, p) is None ==> forall|j: int| 0 <= j < s.len() ==> !p(#[trigger] s[j]),
        first_of(s, p) is Some ==> exists|i: int|
            0 <= i < s.len() && s[i] == first_of(s, p)->Some_0 && p(s[i]) && forall|j: int| 0 <= j < i ==> !p(#[trigger] s[j]),
{
    let q = |k: int| p(s[k]);
    lemma_first_where_facts(s.len() as int, q);
    match first_where(s.len() as int, q) {
        Some(i) => {
            assert forall|j: int| 0 <= j < i implies !p(#[trigger] s[j]) by {
                assert(!q(j));
            }
        },
        None => {
            assert forall|j: int| 0 <= j < s.len() implies !p(#[trigger] s[j]) by {
                assert(!q(j));
            }
        },
    }
}

/// The first match in `s + t` is the first in `s`, else the first in `t`.
pub proof fn lemma_first_of_append<A>(s: Seq<A>, t: Seq<A>, p: spec_fn(A) -> bool)
    ensures
        first_of(s + t, p) == match first_of(s, p) {
            Some(y) => Some(y),
            None => first_of(t, p),
        },
{
    let st = s + t;
    lemma_first_of_facts(s, p);
    lemma_first_of_facts(t, p);
    if first_of(s, p) is Some {
        let i = choose|i: int|
            0 <= i < s.len() && s[i] == first_of(s, p)->Some_0 && p(s[i]) && forall|j: int| 0 <= j < i ==> !p(#[trigger] s[j]);
        assert forall|j: int| 0 <= j < i implies !p(#[trigger] st[j]) by {
            assert(st[j] == s[j]);
        }
        assert(st[i] == s[i]);
        lemma_first_of_at(st, p, i);
    } else if first_of(t, p) is Some {
        let b = choose|b: int|
            0 <= b < t.len() && t[b] == first_of(t, p)->Some_0 && p(t[b]) && forall|j: int| 0 <= j < b ==> !p(#[trigger] t[j]);
        assert forall|j: int| 0 <= j < s.len() + b implies !p(#[trigger] st[j]) by {
            if j < s.len() {
                assert(st[j] == s[j]);
            } else {
                assert(st[j] == t[j - s.len()]);
            }
        }
        assert(st[s.len() + b] == t[b]);
        lemma_first_of_at(st, p, s.len() + b);
    } else {
        assert forall|j: int| 0 <= j < st.len() implies !p(#[trigger] st[j]) by {
            if j < s.len() {
                assert(st[j] == s[j]);
            } else {
                assert(st[j] == t[j - s.len()]);
            }
        }
        lemma_first_of_none(st, p);
    }
}

/// Putting in elements that do not match leaves the first match alone.
pub proof fn lemma_first_of_splice<A>(s: Seq<A>, idx: int, ins: Seq<A>, p: spec_fn(A) -> bool)
    requires
        0 <= idx <= s.len(),
        forall|j: int| 0 <= j < ins.len() ==> !p(#[trigger] ins[j]),
    ensures
        first_of(s.take(idx) + ins + s.skip(idx), p) == first_of(s, p),
{
    let a = s.take(idx);
    let b = s.skip(idx);
    lemma_first_of_none(ins, p);
    lemma_first_of_append(a, ins, p);
    lemma_first_of_append(a + ins, b, p);
    lemma_first_of_append(a, b, p);
    assert(a + b =~= s);
}

/// Replacing a non-matching element by another leaves the first match alone.
pub proof fn lemma_first_of_update<A>(s: Seq<A>, f: int, x: A, p: spec_fn(A) -> bool)
    requires
        0 <= f < s.len(),
        !p(s[f]),
        !p(x),
    ensures
        first_of(s.update(f, x), p) == first_of(s, p),
{
    let u = s.update(f, x);
    lemma_first_of_facts(s, p);
    if first_of(s, p) is Some {
        let i = choose|i: int|
            0 <= i < s.len() && s[i] == first_of(s, p)->Some_0 && p(s[i]) && forall|j: int| 0 <= j < i ==> !p(#[trigger] s[j]);
        assert forall|j: int| 0 <= j < i implies !p(#[trigger] u[j]) by {
            if j != f {
                assert(u[j] == s[j]);
            }
        }
        assert(u[i] == s[i]);
        lemma_first_of_at(u, p, i);
    } else {
        assert forall|j: int| 0 <= j < u.len() implies !p(#[trigger] u[j]) by {
            if j != f {
                assert(u[j] == s[j]);
            }
        }
        lemma_first_of_none(u, p);
    }
}

proof fn lemma_first_of_filter_prefix<A>(s: Seq<A>, keep: spec_fn(int) -> bool, p: spec_fn(A) -> bool, n: int)
    requires
        0 <= n <= s.len(),
        forall|i: int| 0 <= i < s.len() && p(#[trigger] s[i]) ==> keep(i),
    ensures
        first_of(filter_prefix(s, keep, n), p) == first_of(s.take(n), p),
    decreases n,
{
    if n == 0 {
        lemma_first_of_none(filter_prefix(s, keep, 0), p);
        lemma_first_of_none(s.take(0), p);
    } else {
        lemma_first_of_filter_prefix(s, keep, p, n - 1);
        let r = filter_prefix(s, keep, n - 1);
        let t = s.take(n - 1);
        let x = s[n - 1];
        assert(s.take(n) =~= t + seq![x]);
        lemma_first_of_append(t, seq![x], p);
        if keep(n - 1) {
            assert(filter_prefix(s, keep, n) =~= r + seq![x]);
            lemma_first_of_append(r, seq![x], p);
        } else {
            assert(!p(x));
            lemma_first_of_none(seq![x], p);
        }
    }
}

/// A filter that keeps every match leaves the first match alone.
pub proof fn lemma_first_of_filter<A>(s: Seq<A>, keep: spec_fn(int) -> bool, p: spec_fn(A) -> bool)
    requires
        forall|i: int| 0 <= i < s.len() && p(#[trigger] s[i]) ==> keep(i),
    ensures
        first_of(filter_by(s, keep), p) == first_of(s, p),
{
    lemma_first_of_filter_prefix(s, keep, p, s.len() as int);
    assert(s.take(s.len() as int) =~= s);
}

/// `x` comes before `y` in `s`.
pub open spec fn in_order<A>(s: Seq<A>, x: A, y: A) -> bool {
    exists|a: int, b: int| 0 <= a < b < s.len() && #[trigger] s[a] == x && #[trigger] s[b] == y
}

proof fn lemma_filter_prefix_in_order<A>(s: Seq<A>, keep: spec_fn(int) -> bool, a: int, b: int, n: int)
    requires
        0 <= a < b < n <= s.len(),
        keep(a),
        keep(b),
    ensures
        in_order(filter_prefix(s, keep, n), s[a], s[b]),
    decreases n,
{
    let r = filter_prefix(s, keep, n - 1);
    if n == b + 1 {
        lemma_filter_prefix_contains(s, keep, b, a);
        let i = choose|i: int| 0 <= i < r.len() && r[i] == s[a];
        let f = r.push(s[b]);
        assert(filter_prefix(s, keep, n) == f);
        assert(f[i] == s[a] && f[r.len() as int] == s[b]);
    } else {
        lemma_filter_prefix_in_order(s, keep, a, b, n - 1);
        let (i, j) = choose|i: int, j: int| 0 <= i < j < r.len() && #[trigger] r[i] == s[a] && #[trigger] r[j] == s[b];
        if keep(n - 1) {
            let f = r.push(s[n - 1]);
            assert(f[i] == s[a] && f[j] == s[b]);
        }
    }
}

/// A filter that keeps every copy of `x` and `y` keeps them in order.
pub proof fn lemma_in_order_filter<A>(s: Seq<A>, keep: spec_fn(int) -> bool, x: A, y: A)
    requires
        in_order(s, x, y),
        forall|i: int| 0 <= i < s.len() && (s[i] == x || s[i] == y) ==> #[trigger] keep(i),
    ensures
        in_order(filter_by(s, keep), x, y),
{
    let (a, b) = choose|a: int, b: int| 0 <= a < b < s.len() && #[trigger] s[a] == x && #[trigger] s[b] == y;
    assert(keep(a) && keep(b));
    lemma_filter_prefix_in_order(s, keep, a, b, s.len() as int);
}

/// Replacing an element that is neither `x` nor `y` keeps them in order.
pub proof fn lemma_in_order_update<A>(s: Seq<A>, f: int, v: A, x: A, y: A)
    requires
        in_order(s, x, y),
        0 <= f < s.len(),
        s[f] != x,
        s[f] != y,
    ensures
        in_order(s.update(f, v), x, y),
{
    let (a, b) = choose|a: int, b: int| 0 <= a < b < s.len() && #[trigger] s[a] == x && #[trigger] s[b] == y;
    let u = s.update(f, v);
    assert(u[a] == x && u[b] == y);
}

/// Putting elements in keeps `x` and `y` in order.
pub proof fn lemma_in_order_splice<A>(s: Seq<A>, idx: int, ins: Seq<A>, x: A, y: A)
    requires
        in_order(s, x, y),
        0 <= idx <= s.len(),
    ensures
        in_order(s.take(idx) + ins + s.skip(idx), x, y),
{
    let (a, b) = choose|a: int, b: int| 0 <= a < b < s.len() && #[trigger] s[a] == x && #[trigger] s[b] == y;
    let r = s.take(idx) + ins + s.skip(idx);
    let a2 = if a < idx { a } else { a + ins.len() };
    let b2 = if b < idx { b } else { b + ins.len() };
    assert(r[a2] == x && r[b2] == y);
}

/// Appending keeps `x` and `y` in order.
pub proof fn lemma_in_order_append<A>(s: Seq<A>, t: Seq<A>, x: A, y: A)
    requires
        in_order(s, x, y),
    ensures
        in_order(s + t, x, y),
{
    let (a, b) = choose|a: int, b: int| 0 <= a < b < s.len() && #[trigger] s[a] == x && #[trigger] s[b] == y;
    let r = s + t;
    assert(r[a] == x && r[b] == y);
}

} // verus!
