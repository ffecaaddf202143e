use vstd::prelude::*;

verus! {

/// `s` is in ascending order.
pub open spec fn sorted(s: Seq<i64>) -> bool {
    forall|i: int, j: int| 0 <= i <= j < s.len() ==> s[i] <= s[j]
}

/// `p` is strictly increasing.
pub open spec fn increasing(p: Seq<int>) -> bool {
    forall|a: int, b: int| 0 <= a < b < p.len() ==> p[a] < p[b]
}

/// `p` is a strictly increasing choice of `k` indices below `n`.
pub open spec fn valid_positions(p: Seq<int>, n: nat, k: nat) -> bool {
    &&& p.len() == k
    &&& increasing(p)
    &&& forall|m: int| 0 <= m < p.len() ==> 0 <= #[trigger] p[m] < n
}

/// The values of `s` at the indices `p`, in the order of `p`.
pub open spec fn pick(s: Seq<i64>, p: Seq<int>) -> Seq<i64> {
    Seq::new(p.len(), |m: int| s[p[m]])
}

/// `c` is a `k`-element combination of `s`: the values at some `k` strictly
/// increasing indices of `s`.
pub open spec fn is_combination(s: Seq<i64>, c: Seq<i64>, k: nat) -> bool {
    &&& c.len() == k
    &&& exists|p: Seq<int>| #[trigger] valid_positions(p, s.len(), k) && pick(s, p) == c
}

/// Every distinct `k`-element combination of `s`, as a value sequence.
pub open spec fn combinations_of(s: Seq<i64>, k: nat) -> Set<Seq<i64>> {
    Set::new(|c: Seq<i64>| is_combination(s, c, k))
}

/// `a` and `b` agree before index `i`, and `a[i] < b[i]`.
pub open spec fn lex_lt_at(a: Seq<i64>, b: Seq<i64>, i: int) -> bool {
    &&& a.len() == b.len()
    &&& 0 <= i < a.len()
    &&& forall|m: int| 0 <= m < i ==> a[m] == b[m]
    &&& a[i] < b[i]
}

/// Strict lexicographic order on sequences of one length.
pub open spec fn lex_lt(a: Seq<i64>, b: Seq<i64>) -> bool {
    exists|i: int| #[trigger] lex_lt_at(a, b, i)
}

/// Some `k`-element combination of `s` is lexicographically greater than `c`.
pub open spec fn has_above(s: Seq<i64>, k: nat, c: Seq<i64>) -> bool {
    exists|e: Seq<i64>| #[trigger] is_combination(s, e, k) && lex_lt(c, e)
}

/// `d` is the lexicographically least `k`-element combination of `s` above `c`.
pub open spec fn is_least_above(s: Seq<i64>, k: nat, c: Seq<i64>, d: Seq<i64>) -> bool {
    &&& is_combination(s, d, k)
    &&& lex_lt(c, d)
    &&& forall|e: Seq<i64>| #[trigger] is_combination(s, e, k) && lex_lt(c, e) ==> !lex_lt(e, d)
}

/// `cs` is strictly increasing in lexicographic order.
pub open spec fn lex_increasing(cs: Seq<Seq<i64>>) -> bool {
    forall|a: int, b: int| 0 <= a < b < cs.len() ==> lex_lt(#[trigger] cs[a], #[trigger] cs[b])
}

/// No sequence is below itself, and of two sequences at most one is below the other.
pub proof fn lemma_lex_asymmetric(a: Seq<i64>, b: Seq<i64>)
    ensures
        lex_lt(a, b) ==> !lex_lt(b, a),
{
    if lex_lt(a, b) && lex_lt(b, a) {
        let i = choose|i: int| lex_lt_at(a, b, i);
        let j = choose|j: int| lex_lt_at(b, a, j);
        if i < j {
            assert(b[i] == a[i]);
        } else if j < i {
            assert(a[j] == b[j]);
        }
    }
}

/// The lexicographic order is transitive.
pub proof fn lemma_lex_transitive(a: Seq<i64>, b: Seq<i64>, c: Seq<i64>)
    requires
        lex_lt(a, b),
        lex_lt(b, c),
    ensures
        lex_lt(a, c),
{
    let i = choose|i: int| lex_lt_at(a, b, i);
    let j = choose|j: int| lex_lt_at(b, c, j);
    if i <= j {
        assert(lex_lt_at(a, c, i));
    } else {
        assert(lex_lt_at(a, c, j));
    }
}

proof fn lemma_first_difference(a: Seq<i64>, b: Seq<i64>, i: int)
    requires
        a.len() == b.len(),
        0 <= i <= a.len(),
    ensures
        (forall|m: int| 0 <= m < i ==> a[m] == b[m]) || exists|j: int|
            0 <= j < i && (forall|m: int| 0 <= m < j ==> a[m] == b[m]) && #[trigger] a[j] != b[j],
    decreases i,
{
    if i > 0 {
        lemma_first_difference(a, b, i - 1);
        if forall|m: int| 0 <= m < i - 1 ==> a[m] == b[m] {
            if a[i - 1] != b[i - 1] {
                assert(a[i - 1] != b[i - 1]);
            }
        }
    }
}

/// Two different sequences of one length are ordered one way or the other.
pub proof fn lemma_lex_total(a: Seq<i64>, b: Seq<i64>)
    requires
        a.len() == b.len(),
        a != b,
    ensures
        lex_lt(a, b) || lex_lt(b, a),
{
    lemma_first_difference(a, b, a.len() as int);
    if forall|m: int| 0 <= m < a.len() ==> a[m] == b[m] {
        assert(a =~= b);
    } else {
        let j = choose|j: int|
            0 <= j < a.len() && (forall|m: int| 0 <= m < j ==> a[m] == b[m]) && #[trigger] a[j]
                != b[j];
        if a[j] < b[j] {
            assert(lex_lt_at(a, b, j));
        } else {
            assert(lex_lt_at(b, a, j));
        }
    }
}

/// A sequence that is nowhere below another of its length is not
/// lexicographically below it.
pub proof fn lemma_pointwise_not_below(a: Seq<i64>, b: Seq<i64>)
    requires
        a.len() == b.len(),
        forall|m: int| 0 <= m < a.len() ==> a[m] <= b[m],
    ensures
        !lex_lt(b, a),
{
    if lex_lt(b, a) {
        let i = choose|i: int| lex_lt_at(b, a, i);
        assert(a[i] <= b[i]);
    }
}

/// Indices that strictly increase grow by at least one per step.
proof fn lemma_gap(p: Seq<int>, a: int, b: int)
    requires
        increasing(p),
        0 <= a <= b < p.len(),
    ensures
        p[b] - p[a] >= b - a,
    decreases b - a,
{
    if a < b {
        lemma_gap(p, a, b - 1);
        assert(p[b - 1] < p[b]);
    }
}

/// Slot `m` of a choice of `k` indices below `n` lies in `[m, n - k + m]`.
pub proof fn lemma_slot_bounds(p: Seq<int>, n: nat, k: nat, m: int)
    requires
        valid_positions(p, n, k),
        0 <= m < k,
    ensures
        m <= p[m] <= n - k + m,
{
    lemma_gap(p, 0, m);
    lemma_gap(p, m, k - 1);
}

/// The first `k` values of a sorted `s` form its least `k`-element combination.
pub proof fn lemma_first_is_least(s: Seq<i64>, k: nat)
    requires
        sorted(s),
        k <= s.len(),
    ensures
        is_combination(s, s.take(k as int), k),
        forall|e: Seq<i64>| #[trigger] is_combination(s, e, k) ==> !lex_lt(e, s.take(k as int)),
{
    let p0 = Seq::new(k, |m: int| m);
    assert(valid_positions(p0, s.len(), k));
    assert(pick(s, p0) =~= s.take(k as int));
    assert forall|e: Seq<i64>| #[trigger] is_combination(s, e, k) implies !lex_lt(
        e,
        s.take(k as int),
    ) by {
        let q = choose|q: Seq<int>| #[trigger] valid_positions(q, s.len(), k) && pick(s, q) == e;
        assert forall|m: int| 0 <= m < k implies s.take(k as int)[m] <= e[m] by {
            lemma_slot_bounds(q, s.len(), k, m);
            assert(e[m] == pick(s, q)[m]);
        }
        lemma_pointwise_not_below(s.take(k as int), e);
    }
}

/// The indices after advancing slot `t` to index `j` and packing the later
/// slots right behind it.
pub open spec fn advanced(p: Seq<int>, t: int, j: int) -> Seq<int> {
    Seq::new(p.len(), |a: int| if a < t { p[a] } else { j + (a - t) })
}

/// Slots after `t` hold the largest values that they can hold.
pub open spec fn saturated_after(s: Seq<i64>, p: Seq<int>, t: int) -> bool {
    forall|m: int| t < m < p.len() ==> s[#[trigger] p[m]] == s[s.len() - p.len() + m]
}

/// Advancing slot `t` to the first index `j` holding a greater value, when
/// every later slot is saturated, gives the next combination.
pub proof fn lemma_successor(s: Seq<i64>, k: nat, p: Seq<int>, t: int, j: int)
    requires
        sorted(s),
        valid_positions(p, s.len(), k),
        0 <= t < k,
        saturated_after(s, p, t),
        p[t] < j,
        j + (k - 1 - t) < s.len(),
        s[p[t]] < s[j],
        forall|m: int| p[t] < m < j ==> #[trigger] s[m] <= s[p[t]],
    ensures
        valid_positions(advanced(p, t, j), s.len(), k),
        is_least_above(s, k, pick(s, p), pick(s, advanced(p, t, j))),
{
    let n = s.len();
    let q2 = advanced(p, t, j);
    let c = pick(s, p);
    let d = pick(s, q2);
    assert(valid_positions(q2, n, k)) by {
        assert forall|a: int, b: int| 0 <= a < b < q2.len() implies q2[a] < q2[b] by {
            if a < t && b >= t {
                assert(p[a] < p[t]);
            }
        }
    }
    assert(is_combination(s, d, k));
    assert(lex_lt_at(c, d, t));
    assert forall|e: Seq<i64>| #[trigger] is_combination(s, e, k) && lex_lt(c, e) implies !lex_lt(
        e,
        d,
    ) by {
        let q = choose|q: Seq<int>| #[trigger] valid_positions(q, n, k) && pick(s, q) == e;
        let i = choose|i: int| lex_lt_at(c, e, i);
        assert(e[i] == pick(s, q)[i]);
        if i < t {
            assert(lex_lt_at(d, e, i));
            lemma_lex_asymmetric(d, e);
        } else if i > t {
            lemma_slot_bounds(q, n, k, i);
            assert(s[q[i]] <= s[n - k + i]);
            assert(false);
        } else {
            assert(q[t] > p[t]);
            if q[t] < j {
                assert(s[q[t]] <= s[p[t]]);
            }
            assert forall|a: int| 0 <= a < k implies d[a] <= e[a] by {
                assert(e[a] == pick(s, q)[a]);
                if a > t {
                    lemma_gap(q, t, a);
                }
            }
            lemma_pointwise_not_below(d, e);
        }
    }
}

/// When every slot is saturated no combination lies above the current one.
pub proof fn lemma_exhausted(s: Seq<i64>, k: nat, p: Seq<int>)
    requires
        sorted(s),
        valid_positions(p, s.len(), k),
        saturated_after(s, p, -1),
    ensures
        !has_above(s, k, pick(s, p)),
{
    let c = pick(s, p);
    if has_above(s, k, c) {
        let e = choose|e: Seq<i64>| #[trigger] is_combination(s, e, k) && lex_lt(c, e);
        let q = choose|q: Seq<int>| #[trigger] valid_positions(q, s.len(), k) && pick(s, q) == e;
        assert forall|m: int| 0 <= m < k implies e[m] <= c[m] by {
            assert(e[m] == pick(s, q)[m]);
            lemma_slot_bounds(q, s.len(), k, m);
        }
        lemma_pointwise_not_below(e, c);
    }
}


/// `h` lists, in strictly increasing order, exactly the `k`-element
/// combinations of `s` up to and including `c`, which comes last.
pub open spec fn enumerated_up_to(s: Seq<i64>, k: nat, h: Seq<Seq<i64>>, c: Seq<i64>) -> bool {
    &&& h.len() > 0
    &&& h.last() == c
    &&& lex_increasing(h)
    &&& forall|a: int| 0 <= a < h.len() ==> is_combination(s, #[trigger] h[a], k)
    &&& forall|e: Seq<i64>| #[trigger] is_combination(s, e, k) && !lex_lt(c, e) ==> h.contains(e)
}

/// The least combination alone is an enumeration up to itself.
pub proof fn lemma_enumeration_starts(s: Seq<i64>, k: nat)
    requires
        sorted(s),
        k <= s.len(),
    ensures
        enumerated_up_to(s, k, seq![s.take(k as int)], s.take(k as int)),
{
    let c = s.take(k as int);
    let h = seq![c];
    lemma_first_is_least(s, k);
    assert forall|e: Seq<i64>| #[trigger] is_combination(s, e, k) && !lex_lt(c, e) implies h.contains(
        e,
    ) by {
        if e != c {
            lemma_lex_total(e, c);
        }
        assert(h[0] == c);
    }
}

/// Appending the next combination extends an enumeration.
pub proof fn lemma_enumeration_extends(
    s: Seq<i64>,
    k: nat,
    h: Seq<Seq<i64>>,
    c: Seq<i64>,
    d: Seq<i64>,
)
    requires
        enumerated_up_to(s, k, h, c),
        is_least_above(s, k, c, d),
    ensures
        enumerated_up_to(s, k, h.push(d), d),
{
    let h2 = h.push(d);
    assert forall|a: int, b: int| 0 <= a < b < h2.len() implies lex_lt(
        #[trigger] h2[a],
        #[trigger] h2[b],
    ) by {
        if b == h.len() {
            if a < h.len() - 1 {
                assert(lex_lt(h[a], h[h.len() - 1]));
                lemma_lex_transitive(h[a], c, d);
            }
        } else {
            assert(lex_lt(h[a], h[b]));
        }
    }
    assert forall|a: int| 0 <= a < h2.len() implies is_combination(s, #[trigger] h2[a], k) by {
        if a < h.len() {
            assert(h2[a] == h[a]);
        }
    }
    assert forall|e: Seq<i64>| #[trigger] is_combination(s, e, k) && !lex_lt(d, e) implies h2.contains(
        e,
    ) by {
        if e == d {
            assert(h2[h.len() as int] == d);
        } else {
            lemma_lex_total(e, d);
            if lex_lt(c, e) {
                assert(!lex_lt(e, d));
            }
            let a = choose|a: int| 0 <= a < h.len() && h[a] == e;
            assert(h2[a] == e);
        }
    }
}

/// The next combination after `c` is unique: a generator's step depends on
/// its state alone.
pub proof fn lemma_least_above_unique(s: Seq<i64>, k: nat, c: Seq<i64>, d1: Seq<i64>, d2: Seq<i64>)
    requires
        is_least_above(s, k, c, d1),
        is_least_above(s, k, c, d2),
    ensures
        d1 == d2,
{
    if d1 != d2 {
        lemma_lex_total(d1, d2);
    }
}

/// Two ascending arrangements of one multiset of values are equal: sorting
/// the same values always gives the same sequence.
pub proof fn lemma_sorted_unique(a: Seq<i64>, b: Seq<i64>)
    requires
        sorted(a),
        sorted(b),
        a.to_multiset() == b.to_multiset(),
    ensures
        a == b,
{
    let leq = |x: i64, y: i64| x <= y;
    assert(vstd::relations::total_ordering(leq));
    assert(vstd::relations::sorted_by(a, leq));
    assert(vstd::relations::sorted_by(b, leq));
    vstd::seq_lib::lemma_sorted_unique(a, b, leq);
}

} // verus!
