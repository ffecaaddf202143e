use vstd::prelude::*;
use crate::lex::{
    enumerated_up_to, has_above, is_least_above, lemma_enumeration_extends,
    lemma_enumeration_starts, lemma_exhausted, lemma_slot_bounds, lemma_successor, pick, sorted,
    valid_positions, advanced, saturated_after, lex_increasing, lex_lt, lemma_lex_asymmetric,
    is_combination, combinations_of,
};
use crate::sort::sort_ascending;

verus! {

/// Why a generator could not be created.
#[derive(Debug, Clone, Copy, PartialEq, Eq)]
pub enum CombinationError {
    /// The combination length is zero, or not smaller than the number of values.
    InvalidCombinationLength,
}

/// Enumerates, in lexicographic order and without repeats, the distinct
/// combinations of a fixed length drawn from a multiset of values.
///
/// Equal values are indistinguishable: from `[2, 2]` the only combination of
/// length one is `[2]`.
pub struct Combinations {
    original: Vec<i64>,
    position: Vec<usize>,
    len: usize,
    started: bool,
    produced: Ghost<Seq<Seq<i64>>>,
}

impl Combinations {
    /// The values, sorted ascending.
    pub closed spec fn source(&self) -> Seq<i64> {
        self.original@
    }

    /// The length of every combination.
    pub closed spec fn k(&self) -> nat {
        self.len as nat
    }

    /// Whether a combination has been produced yet.
    pub closed spec fn started(&self) -> bool {
        self.started
    }

    /// The indices into the sorted values of the current combination.
    pub closed spec fn positions(&self) -> Seq<int> {
        self.position@.map_values(|x: usize| x as int)
    }

    /// Every combination produced so far, in order.
    pub closed spec fn produced(&self) -> Seq<Seq<i64>> {
        self.produced@
    }

    /// The current combination: the last one produced, or, before the first
    /// call, the first one to come.
    pub open spec fn current(&self) -> Seq<i64> {
        pick(self.source(), self.positions())
    }

    /// Whether the next call produces a combination.
    pub open spec fn has_next(&self) -> bool {
        !self.started() || has_above(self.source(), self.k(), self.current())
    }

    /// The generator's invariant: sorted values, a valid length, strictly
    /// increasing indices, and a record of everything produced so far.
    pub open spec fn wf(&self) -> bool {
        &&& sorted(self.source())
        &&& 1 <= self.k() < self.source().len()
        &&& valid_positions(self.positions(), self.source().len(), self.k())
        &&& !self.started() ==> self.positions() == Seq::new(self.k(), |m: int| m)
            && self.produced().len() == 0
        &&& self.started() ==> enumerated_up_to(
            self.source(),
            self.k(),
            self.produced(),
            self.current(),
        )
    }

    /// Takes the values and the combination length, and sorts the values.
    ///
    /// Fails unless `1 <= len < original.len()`.
    pub fn new(original: Vec<i64>, len: usize) -> (r: Result<Self, CombinationError>)
        ensures
            r is Ok <==> 1 <= len < original@.len(),
            r is Err ==> r == Err::<Self, CombinationError>(
                CombinationError::InvalidCombinationLength,
            ),
            r matches Ok(g) ==> {
                &&& g.wf()
                &&& sorted(g.source())
                &&& g.source().to_multiset() == original@.to_multiset()
                &&& g.k() == len
                &&& !g.started()
                &&& g.produced().len() == 0
            },
    {
        if len < 1 || len >= original.len() {
            return Err(CombinationError::InvalidCombinationLength);
        }
        let mut original = original;
        sort_ascending(&mut original);
        let mut position: Vec<usize> = Vec::new();
        let mut i: usize = 0;
        while i < len
            invariant
                i <= len,
                position@.len() == i,
                forall|m: int| 0 <= m < i ==> position@[m] == m,
            decreases len - i,
        {
            position.push(i);
            i = i + 1;
        }
        let g = Combinations { original, position, len, started: false, produced: Ghost(Seq::empty()) };
        proof {
            assert(g.positions() =~= Seq::new(g.k(), |m: int| m));
        }
        Ok(g)
    }

    /// Replaces the contents of `comb` with the current combination.
    fn insert(&self, comb: &mut Vec<i64>)
        requires
            valid_positions(self.positions(), self.source().len(), self.k()),
            self.position@.len() == self.len,
        ensures
            final(comb)@ == self.current(),
    {
        comb.clear();
        let mut m: usize = 0;
        while m < self.len
            invariant
                valid_positions(self.positions(), self.source().len(), self.k()),
                self.position@.len() == self.len,
                m <= self.len,
                comb@ == self.current().take(m as int),
            decreases self.len - m,
        {
            let ghost c = self.current();
            assert(self.positions()[m as int] == self.position@[m as int] as int);
            comb.push(self.original[self.position[m]]);
            assert(comb@ =~= c.take(m + 1));
            m = m + 1;
        }
        assert(comb@ =~= self.current());
    }

    /// Writes the next combination into `comb` and returns `true`, or returns
    /// `false`, leaving `comb` alone, once every combination has been produced.
    ///
    /// The first call gives the smallest combination; each later one gives the
    /// least combination lexicographically above the previous one.
    pub fn next_combination(&mut self, comb: &mut Vec<i64>) -> (r: bool)
        requires
            old(self).wf(),
        ensures
            final(self).wf(),
            final(self).source() == old(self).source(),
            final(self).k() == old(self).k(),
            final(self).started(),
            r == old(self).has_next(),
            r ==> final(comb)@ == final(self).current(),
            r ==> final(comb)@.len() == old(self).k(),
            r ==> final(self).produced() == old(self).produced().push(final(comb)@),
            r && !old(self).started() ==> final(comb)@ == old(self).source().take(
                old(self).k() as int,
            ),
            r && old(self).started() ==> is_least_above(
                old(self).source(),
                old(self).k(),
                old(self).current(),
                final(comb)@,
            ),
            !r ==> *final(self) == *old(self) && final(comb)@ == old(comb)@,
    {
        let ghost s = self.source();
        let ghost k = self.k();
        let ghost p = self.positions();
        let ghost g0 = *self;
        if !self.started {
            self.started = true;
            proof {
                assert(pick(s, p) =~= s.take(k as int));
                lemma_enumeration_starts(s, k);
                self.produced = Ghost(seq![s.take(k as int)]);
            }
            self.insert(comb);
            return true;
        }
        let n = self.original.len();
        let len = self.len;
        assert(p[len - 1] == self.position@[len - 1] as int);
        if self.original[self.position[len - 1]] != self.original[n - 1] {
            // The last slot moves to the first index past the run of its value.
            let cur = self.original[self.position[len - 1]];
            let mut j: usize = self.position[len - 1] + 1;
            while self.original[j] == cur
                invariant
                    s == self.original@,
                    n == s.len(),
                    sorted(s),
                    p[len - 1] < j <= n - 1,
                    cur == s[p[len - 1]],
                    cur != s[n - 1],
                    forall|m: int| p[len - 1] < m < j ==> #[trigger] s[m] <= cur,
                decreases n - j,
            {
                j = j + 1;
            }
            proof {
                lemma_successor(s, k, p, k - 1, j as int);
            }
            self.position.set(len - 1, j);
            assert(self.positions() =~= advanced(p, k - 1, j as int));
            self.finish_step(comb, Ghost(pick(s, p)));
            return true;
        }
        // The last slot is saturated: look further left for a slot that can grow.
        let mut t: usize = len - 1;
        while t > 0
            invariant
                self.wf(),
                self.started(),
                s == self.source(),
                k == self.k(),
                p == self.positions(),
                n == s.len(),
                len == k,
                *self == g0,
                g0 == *old(self),
                comb@ == old(comb)@,
                s == old(self).source(),
                k == old(self).k(),
                0 <= t < k,
                saturated_after(s, p, t - 1),
            decreases t,
        {
            let u = t - 1;
            assert(p[u as int] == self.position@[u as int] as int);
            proof {
                lemma_slot_bounds(p, n as nat, k, u as int);
            }
            if self.original[self.position[u]] < self.original[n - len + u] {
                // Slot `u` can grow: find the first value above its own.
                let v = self.original[self.position[u]];
                let mut j: usize = self.position[u] + 1;
                while self.original[j] <= v
                    invariant
                        s == self.original@,
                        n == s.len(),
                        sorted(s),
                        u < k,
                        p[u as int] < j <= n - k + u,
                        v == s[p[u as int]],
                        v < s[n - k + u],
                        forall|m: int| p[u as int] < m < j ==> #[trigger] s[m] <= v,
                    decreases n - j,
                {
                    j = j + 1;
                }
                proof {
                    lemma_successor(s, k, p, u as int, j as int);
                }
                // Slot `u` takes index `j`; the slots after it follow on consecutively.
                let mut m: usize = u;
                while m < len
                    invariant
                        self.position@.len() == k,
                        self.original@ == s,
                        self.len == len,
                        self.started,
                        self.produced == g0.produced,
                        g0 == *old(self),
                        s == old(self).source(),
                        k == old(self).k(),
                        p.len() == k,
                        len == k,
                        n == s.len(),
                        u <= m <= k,
                        j + (k - 1 - u) < n,
                        forall|a: int| 0 <= a < m ==> #[trigger] self.position@[a] as int
                            == advanced(p, u as int, j as int)[a],
                        forall|a: int| m <= a < k ==> #[trigger] self.position@[a] as int == p[a],
                    decreases k - m,
                {
                    self.position.set(m, j + (m - u));
                    m = m + 1;
                }
                assert(self.positions() =~= advanced(p, u as int, j as int));
                self.finish_step(comb, Ghost(pick(s, p)));
                return true;
            }
            t = u;
        }
        proof {
            lemma_exhausted(s, k, p);
        }
        false
    }

    /// Records the combination that the indices now hold, which is the next
    /// one after `c`, and writes it into `comb`.
    fn finish_step(&mut self, comb: &mut Vec<i64>, Ghost(c): Ghost<Seq<i64>>)
        requires
            old(self).started(),
            sorted(old(self).source()),
            1 <= old(self).k() < old(self).source().len(),
            old(self).position@.len() == old(self).len,
            valid_positions(old(self).positions(), old(self).source().len(), old(self).k()),
            enumerated_up_to(old(self).source(), old(self).k(), old(self).produced(), c),
            is_least_above(old(self).source(), old(self).k(), c, old(self).current()),
        ensures
            final(self).wf(),
            final(self).source() == old(self).source(),
            final(self).k() == old(self).k(),
            final(self).started(),
            final(self).positions() == old(self).positions(),
            final(comb)@ == final(self).current(),
            final(self).produced() == old(self).produced().push(final(comb)@),
    {
        proof {
            lemma_enumeration_extends(self.source(), self.k(), self.produced(), c, self.current());
            self.produced = Ghost(self.produced@.push(self.current()));
        }
        self.insert(comb);
    }

    /// Returns the next combination in a new vector, or `None` once every
    /// combination has been produced.
    pub fn next(&mut self) -> (r: Option<Vec<i64>>)
        requires
            old(self).wf(),
        ensures
            final(self).wf(),
            final(self).source() == old(self).source(),
            final(self).k() == old(self).k(),
            final(self).started(),
            r is Some == old(self).has_next(),
            r matches Some(v) ==> {
                &&& v@ == final(self).current()
                &&& v@.len() == old(self).k()
                &&& final(self).produced() == old(self).produced().push(v@)
                &&& !old(self).started() ==> v@ == old(self).source().take(old(self).k() as int)
                &&& old(self).started() ==> is_least_above(
                    old(self).source(),
                    old(self).k(),
                    old(self).current(),
                    v@,
                )
            },
            r is None ==> *final(self) == *old(self),
    {
        let mut vals: Vec<i64> = Vec::new();
        if self.next_combination(&mut vals) {
            Some(vals)
        } else {
            None
        }
    }
}

/// The combinations produced so far are in strictly increasing lexicographic
/// order, hence pairwise different, and each has the generator's length.
pub proof fn lemma_produced_increasing(g: Combinations)
    requires
        g.wf(),
    ensures
        lex_increasing(g.produced()),
        g.produced().no_duplicates(),
        forall|a: int| 0 <= a < g.produced().len() ==> (#[trigger] g.produced()[a]).len() == g.k(),
{
    let h = g.produced();
    assert forall|a: int, b: int| 0 <= a < h.len() && 0 <= b < h.len() && a != b implies h[a]
        != h[b] by {
        if a < b {
            assert(lex_lt(h[a], h[b]));
            lemma_lex_asymmetric(h[a], h[b]);
        } else {
            assert(lex_lt(h[b], h[a]));
            lemma_lex_asymmetric(h[b], h[a]);
        }
    }
    assert forall|a: int| 0 <= a < h.len() implies (#[trigger] h[a]).len() == g.k() by {
        assert(is_combination(g.source(), h[a], g.k()));
    }
}

/// Once no further combination comes, the produced ones are exactly the
/// distinct combinations of the values, and so as many as there are of them.
pub proof fn lemma_exhausted_complete(g: Combinations)
    requires
        g.wf(),
        !g.has_next(),
    ensures
        g.produced().to_set() == combinations_of(g.source(), g.k()),
        g.produced().len() == combinations_of(g.source(), g.k()).len(),
{
    let h = g.produced();
    let s = g.source();
    let k = g.k();
    lemma_produced_increasing(g);
    assert forall|e: Seq<i64>| #[trigger] h.to_set().contains(e) == combinations_of(s, k).contains(
        e,
    ) by {
        if h.contains(e) {
            let a = choose|a: int| 0 <= a < h.len() && h[a] == e;
            assert(is_combination(s, h[a], k));
        }
        if is_combination(s, e, k) {
            assert(!lex_lt(g.current(), e));
        }
    }
    assert(h.to_set() =~= combinations_of(s, k));
    h.unique_seq_to_set();
}

} // verus!
