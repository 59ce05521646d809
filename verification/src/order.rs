//! Arranging positions by a strict total order, so that a sort is the one list that respects it.
use vstd::prelude::*;
use vstd::set_lib::*;

verus! {

/// Whether `rel` is a strict total order on the positions below `n`.
pub open spec fn strict_total(n: nat, rel: spec_fn(int, int) -> bool) -> bool {
    &&& forall|i: int| 0 <= i < n ==> !#[trigger] rel(i, i)
    &&& forall|i: int, j: int|
        0 <= i < n && 0 <= j < n && i != j ==> #[trigger] rel(i, j) || rel(j, i)
    &&& forall|i: int, j: int, k: int|
        0 <= i < n && 0 <= j < n && 0 <= k < n && #[trigger] rel(i, j) && #[trigger] rel(j, k)
            ==> rel(i, k)
}

/// Whether each entry of `s` comes before all later ones.
pub open spec fn ascending(rel: spec_fn(int, int) -> bool, s: Seq<int>) -> bool {
    forall|a: int, b: int| 0 <= a < b < s.len() ==> rel(#[trigger] s[a], #[trigger] s[b])
}

/// Whether all entries of `s` lie in `lo..hi`.
pub open spec fn within(s: Seq<int>, lo: int, hi: int) -> bool {
    forall|a: int| 0 <= a < s.len() ==> lo <= #[trigger] s[a] < hi
}

/// Whether `s` lists all positions below `n` in the order of `rel`.
pub open spec fn is_arrangement(n: nat, rel: spec_fn(int, int) -> bool, s: Seq<int>) -> bool {
    &&& s.len() == n
    &&& within(s, 0, n as int)
    &&& ascending(rel, s)
}

/// The positions below `n` in the order of `rel`.
pub open spec fn arrangement(n: nat, rel: spec_fn(int, int) -> bool) -> Seq<int> {
    choose|s: Seq<int>| is_arrangement(n, rel, s)
}

/// The smaller of two numbers.
pub open spec fn least(a: nat, b: nat) -> nat {
    if a <= b {
        a
    } else {
        b
    }
}

/// Whether `s` lists, in order, the first `k` of the positions below `n`.
pub open spec fn is_selection(
    n: nat,
    rel: spec_fn(int, int) -> bool,
    k: nat,
    s: Seq<int>,
) -> bool {
    &&& s.len() == least(k, n)
    &&& within(s, 0, n as int)
    &&& ascending(rel, s)
    &&& forall|x: int|
        0 <= x < n ==> #[trigger] s.contains(x) || (s.len() == k && (k == 0 || rel(s.last(), x)))
}

/// A list as positions.
pub open spec fn positions(s: Seq<usize>) -> Seq<int> {
    s.map_values(|i: usize| i as int)
}

proof fn lemma_ascending_distinct(n: nat, rel: spec_fn(int, int) -> bool, s: Seq<int>)
    requires
        strict_total(n, rel),
        within(s, 0, n as int),
        ascending(rel, s),
    ensures
        s.no_duplicates(),
{
    assert forall|a: int, b: int| 0 <= a < s.len() && 0 <= b < s.len() && a != b implies s[a]
        != s[b] by {
        if a < b {
            assert(rel(s[a], s[b]));
        } else {
            assert(rel(s[b], s[a]));
        }
    }
}

/// An arrangement holds every position.
pub proof fn lemma_arrangement_covers(n: nat, rel: spec_fn(int, int) -> bool, s: Seq<int>, x: int)
    requires
        strict_total(n, rel),
        is_arrangement(n, rel, s),
        0 <= x < n,
    ensures
        s.contains(x),
{
    lemma_ascending_distinct(n, rel, s);
    s.unique_seq_to_set();
    lemma_int_range(0, n as int);
    let all = set_int_range(0, n as int);
    assert(s.to_set().subset_of(all));
    lemma_subset_equality(s.to_set(), all);
    assert(all.contains(x));
    assert(s.to_set().contains(x));
}

proof fn lemma_selection_agrees(
    n: nat,
    rel: spec_fn(int, int) -> bool,
    k: nat,
    sel: Seq<int>,
    all: Seq<int>,
    p: int,
)
    requires
        strict_total(n, rel),
        is_selection(n, rel, k, sel),
        is_arrangement(n, rel, all),
        0 <= p < sel.len(),
    ensures
        sel[p] == all[p],
    decreases p,
{
    assert forall|q: int| 0 <= q < p implies sel[q] == all[q] by {
        lemma_selection_agrees(n, rel, k, sel, all, q);
    }
    let x = all[p];
    let y = sel[p];
    if x != y {
        if sel.contains(x) {
            let q = choose|q: int| 0 <= q < sel.len() && sel[q] == x;
            if q < p {
                assert(rel(all[q], all[p]));
                assert(false);
            }
            assert(rel(sel[p], sel[q]));
        } else {
            assert(rel(sel.last(), x));
            if p < sel.len() - 1 {
                assert(rel(sel[p], sel[sel.len() - 1]));
            }
        }
        assert(rel(y, x));
        lemma_arrangement_covers(n, rel, all, y);
        let r = choose|r: int| 0 <= r < all.len() && all[r] == y;
        if r < p {
            assert(rel(sel[r], sel[p]));
            assert(false);
        }
        assert(rel(all[p], all[r]));
        assert(rel(x, x));
    }
}

/// The first `k` positions, listed in order, are the first `k` entries of the arrangement.
pub proof fn lemma_selection_is_prefix(
    n: nat,
    rel: spec_fn(int, int) -> bool,
    k: nat,
    sel: Seq<int>,
)
    requires
        strict_total(n, rel),
        is_selection(n, rel, k, sel),
    ensures
        is_arrangement(n, rel, arrangement(n, rel)),
        sel == arrangement(n, rel).take(least(k, n) as int),
{
    lemma_arrangement_exists(n, rel);
    let all = arrangement(n, rel);
    assert forall|p: int| 0 <= p < sel.len() implies sel[p] == all[p] by {
        lemma_selection_agrees(n, rel, k, sel, all, p);
    }
    assert(sel =~= all.take(least(k, n) as int));
}

/// There is only one arrangement.
pub proof fn lemma_arrangement_unique(n: nat, rel: spec_fn(int, int) -> bool, s: Seq<int>)
    requires
        strict_total(n, rel),
        is_arrangement(n, rel, s),
    ensures
        s == arrangement(n, rel),
{
    assert forall|x: int| 0 <= x < n implies #[trigger] s.contains(x) by {
        lemma_arrangement_covers(n, rel, s, x);
    }
    lemma_selection_is_prefix(n, rel, n, s);
    assert(arrangement(n, rel).take(n as int) =~= arrangement(n, rel));
}

/// `s` with `x` put before the entries that come after it.
spec fn placed(rel: spec_fn(int, int) -> bool, s: Seq<int>, x: int) -> Seq<int>
    decreases s.len(),
{
    if s.len() == 0 || rel(s.last(), x) {
        s.push(x)
    } else {
        placed(rel, s.drop_last(), x).push(s.last())
    }
}

proof fn lemma_placed(n: nat, rel: spec_fn(int, int) -> bool, s: Seq<int>, x: int)
    requires
        strict_total(n, rel),
        within(s, 0, x),
        x < n,
        0 <= x,
        ascending(rel, s),
    ensures
        placed(rel, s, x).len() == s.len() + 1,
        forall|a: int|
            0 <= a < s.len() + 1 ==> #[trigger] placed(rel, s, x)[a] == x || s.contains(
                placed(rel, s, x)[a],
            ),
        ascending(rel, placed(rel, s, x)),
    decreases s.len(),
{
    let r = placed(rel, s, x);
    if s.len() == 0 || rel(s.last(), x) {
        assert forall|a: int, b: int| 0 <= a < b < r.len() implies rel(
            #[trigger] r[a],
            #[trigger] r[b],
        ) by {
            if b == s.len() {
                if a < s.len() - 1 {
                    assert(rel(s[a], s[s.len() - 1]));
                }
            } else {
                assert(rel(s[a], s[b]));
            }
        }
        assert forall|a: int| 0 <= a < s.len() + 1 implies #[trigger] r[a] == x || s.contains(
            r[a],
        ) by {
            if a < s.len() {
                assert(s[a] == r[a]);
            }
        }
    } else {
        let t = s.drop_last();
        assert(forall|a: int| 0 <= a < t.len() ==> #[trigger] t[a] == s[a]);
        lemma_placed(n, rel, t, x);
        let u = placed(rel, t, x);
        let z = s.last();
        assert(0 <= s[s.len() - 1] < x);
        assert(rel(x, z));
        assert(r == u.push(z));
        assert forall|a: int| 0 <= a < s.len() + 1 implies #[trigger] r[a] == x || s.contains(
            r[a],
        ) by {
            if a < u.len() {
                assert(r[a] == u[a]);
                if u[a] != x {
                    let c = choose|c: int| 0 <= c < t.len() && t[c] == u[a];
                    assert(s[c] == u[a]);
                }
            } else {
                assert(s[s.len() - 1] == z);
            }
        }
        assert forall|a: int, b: int| 0 <= a < b < r.len() implies rel(
            #[trigger] r[a],
            #[trigger] r[b],
        ) by {
            if b < u.len() {
                assert(rel(u[a], u[b]));
            } else {
                assert(r[a] == u[a]);
                if u[a] != x {
                    let c = choose|c: int| 0 <= c < t.len() && t[c] == u[a];
                    assert(rel(s[c], s[s.len() - 1]));
                }
            }
        }
    }
}

proof fn lemma_arrangement_of_first(n: nat, rel: spec_fn(int, int) -> bool, m: nat) -> (s: Seq<int>)
    requires
        strict_total(n, rel),
        m <= n,
    ensures
        is_arrangement(m, rel, s),
    decreases m,
{
    if m == 0 {
        Seq::empty()
    } else {
        let t = lemma_arrangement_of_first(n, rel, (m - 1) as nat);
        lemma_placed(n, rel, t, m - 1);
        let s = placed(rel, t, m - 1);
        assert forall|a: int| 0 <= a < s.len() implies 0 <= #[trigger] s[a] < m by {
            if s[a] != m - 1 {
                let c = choose|c: int| 0 <= c < t.len() && t[c] == s[a];
                assert(0 <= t[c] < m - 1);
            }
        }
        s
    }
}

/// Every strict total order has an arrangement.
pub proof fn lemma_arrangement_exists(n: nat, rel: spec_fn(int, int) -> bool)
    requires
        strict_total(n, rel),
    ensures
        is_arrangement(n, rel, arrangement(n, rel)),
{
    let s = lemma_arrangement_of_first(n, rel, n);
    assert(is_arrangement(n, rel, s));
}

/// A collection whose positions are strictly and totally ordered.
pub trait IndexOrder {
    /// How many positions there are.
    spec fn size(&self) -> nat;

    /// The order.
    spec fn rel(&self) -> spec_fn(int, int) -> bool;

    /// The order is strict and total.
    proof fn rel_is_strict_total(&self)
        ensures
            strict_total(self.size(), self.rel()),
    ;

    /// How many positions there are.
    fn count(&self) -> (n: usize)
        ensures
            n == self.size(),
    ;

    /// Whether position `i` comes before position `j`.
    fn precedes(&self, i: usize, j: usize) -> (b: bool)
        requires
            i < self.size(),
            j < self.size(),
        ensures
            b == (self.rel())(i as int, j as int),
    ;
}

/// Merges two ascending lists with entries below and from `mid` on.
fn merge<O: IndexOrder>(
    o: &O,
    left: &Vec<usize>,
    right: &Vec<usize>,
    lo: usize,
    mid: usize,
    hi: usize,
) -> (out: Vec<usize>)
    requires
        lo <= mid <= hi <= o.size(),
        within(positions(left@), lo as int, mid as int),
        within(positions(right@), mid as int, hi as int),
        ascending(o.rel(), positions(left@)),
        ascending(o.rel(), positions(right@)),
        left.len() + right.len() <= usize::MAX,
    ensures
        out.len() == left.len() + right.len(),
        within(positions(out@), lo as int, hi as int),
        ascending(o.rel(), positions(out@)),
{
    let mut out: Vec<usize> = Vec::new();
    let mut i: usize = 0;
    let mut j: usize = 0;
    let ghost rel = o.rel();
    let ghost l = positions(left@);
    let ghost r = positions(right@);
    proof {
        o.rel_is_strict_total();
    }
    while i < left.len() || j < right.len()
        invariant
            lo <= mid <= hi <= o.size(),
            rel == o.rel(),
            strict_total(o.size(), rel),
            l == positions(left@),
            r == positions(right@),
            i <= left.len(),
            j <= right.len(),
            out.len() == i + j,
            left.len() + right.len() <= usize::MAX,
            within(l, lo as int, mid as int),
            within(r, mid as int, hi as int),
            ascending(rel, l),
            ascending(rel, r),
            within(positions(out@), lo as int, hi as int),
            ascending(rel, positions(out@)),
            forall|a: int, b: int|
                0 <= a < out.len() && i <= b < l.len() ==> rel(
                    #[trigger] positions(out@)[a],
                    #[trigger] l[b],
                ),
            forall|a: int, b: int|
                0 <= a < out.len() && j <= b < r.len() ==> rel(
                    #[trigger] positions(out@)[a],
                    #[trigger] r[b],
                ),
        decreases left.len() + right.len() - i - j,
    {
        let ghost before = positions(out@);
        proof {
            if i < left.len() {
                assert(lo <= l[i as int] < mid);
            }
            if j < right.len() {
                assert(mid <= r[j as int] < hi);
            }
        }
        let take_left = if i >= left.len() {
            false
        } else if j >= right.len() {
            true
        } else {
            o.precedes(left[i], right[j])
        };
        if take_left {
            let ghost x = l[i as int];
            out.push(left[i]);
            i = i + 1;
            proof {
                assert(positions(out@) =~= before.push(x));
                assert forall|a: int, b: int|
                    0 <= a < out.len() && j <= b < r.len() implies rel(
                    #[trigger] positions(out@)[a],
                    #[trigger] r[b],
                ) by {
                    if a == before.len() {
                        assert(rel(x, r[j as int]));
                        if b > j {
                            assert(rel(r[j as int], r[b]));
                        }
                        assert(mid <= r[b] < hi);
                        assert(mid <= r[j as int] < hi);
                    } else {
                        assert(rel(before[a], r[b]));
                    }
                }
                assert forall|a: int, b: int|
                    0 <= a < out.len() && i <= b < l.len() implies rel(
                    #[trigger] positions(out@)[a],
                    #[trigger] l[b],
                ) by {
                    if a == before.len() {
                        assert(rel(l[i - 1], l[b]));
                    } else {
                        assert(rel(before[a], l[b]));
                    }
                }
                assert(ascending(rel, positions(out@)));
            }
        } else {
            let ghost y = r[j as int];
            out.push(right[j]);
            j = j + 1;
            proof {
                assert(positions(out@) =~= before.push(y));
                assert forall|a: int, b: int|
                    0 <= a < out.len() && i <= b < l.len() implies rel(
                    #[trigger] positions(out@)[a],
                    #[trigger] l[b],
                ) by {
                    if a == before.len() {
                        assert(rel(y, l[i as int]));
                        if b > i {
                            assert(rel(l[i as int], l[b]));
                        }
                        assert(lo <= l[b] < mid);
                        assert(lo <= l[i as int] < mid);
                    } else {
                        assert(rel(before[a], l[b]));
                    }
                }
                assert forall|a: int, b: int|
                    0 <= a < out.len() && j <= b < r.len() implies rel(
                    #[trigger] positions(out@)[a],
                    #[trigger] r[b],
                ) by {
                    if a == before.len() {
                        assert(rel(r[j - 1], r[b]));
                    } else {
                        assert(rel(before[a], r[b]));
                    }
                }
                assert(ascending(rel, positions(out@)));
            }
        }
    }
    out
}

/// Sorts the positions in `lo..hi`.
fn sort_range<O: IndexOrder>(o: &O, lo: usize, hi: usize) -> (out: Vec<usize>)
    requires
        lo <= hi <= o.size(),
    ensures
        out.len() == hi - lo,
        within(positions(out@), lo as int, hi as int),
        ascending(o.rel(), positions(out@)),
    decreases hi - lo,
{
    if hi - lo <= 1 {
        let mut out: Vec<usize> = Vec::new();
        if hi - lo == 1 {
            out.push(lo);
        }
        return out;
    }
    let mid = lo + (hi - lo) / 2;
    let left = sort_range(o, lo, mid);
    let right = sort_range(o, mid, hi);
    merge(o, &left, &right, lo, mid, hi)
}

/// The positions of `o` in its order.
pub fn sort_indices<O: IndexOrder>(o: &O) -> (out: Vec<usize>)
    ensures
        positions(out@) == arrangement(o.size(), o.rel()),
        is_arrangement(o.size(), o.rel(), positions(out@)),
        strict_total(o.size(), o.rel()),
{
    let n = o.count();
    let out = sort_range(o, 0, n);
    proof {
        o.rel_is_strict_total();
        lemma_arrangement_unique(o.size(), o.rel(), positions(out@));
    }
    out
}

proof fn lemma_insert_ascending(
    n: nat,
    rel: spec_fn(int, int) -> bool,
    s: Seq<int>,
    p: int,
    x: int,
)
    requires
        strict_total(n, rel),
        ascending(rel, s),
        0 <= p <= s.len(),
        forall|a: int| 0 <= a < p ==> rel(#[trigger] s[a], x),
        forall|a: int| p <= a < s.len() ==> rel(x, #[trigger] s[a]),
    ensures
        ascending(rel, s.insert(p, x)),
{
    let t = s.insert(p, x);
    assert forall|a: int, b: int| 0 <= a < b < t.len() implies rel(
        #[trigger] t[a],
        #[trigger] t[b],
    ) by {
        let a0 = if a < p {
            a
        } else {
            a - 1
        };
        let b0 = if b < p {
            b
        } else {
            b - 1
        };
        if a == p {
            assert(rel(x, s[b0]));
        } else if b == p {
            assert(rel(s[a0], x));
        } else {
            assert(rel(s[a0], s[b0]));
        }
    }
}

proof fn lemma_selection_step(
    n: nat,
    rel: spec_fn(int, int) -> bool,
    k: nat,
    i: nat,
    s: Seq<int>,
    p: int,
)
    requires
        strict_total(n, rel),
        i < n,
        is_selection(i, rel, k, s),
        0 <= p <= s.len(),
        forall|a: int| 0 <= a < p ==> rel(#[trigger] s[a], i as int),
        forall|a: int| p <= a < s.len() ==> rel(i as int, #[trigger] s[a]),
    ensures
        is_selection(i + 1, rel, k, s.insert(p, i as int).take(least(k, i + 1) as int)),
{
    let x0 = i as int;
    let t = s.insert(p, x0);
    let u = t.take(least(k, i + 1) as int);
    lemma_insert_ascending(n, rel, s, p, x0);
    assert(t[p] == x0);
    assert forall|a: int| 0 <= a < t.len() implies 0 <= #[trigger] t[a] < i + 1 by {
        if a < p {
            assert(t[a] == s[a]);
        } else if a > p {
            assert(t[a] == s[a - 1]);
        }
    }
    assert forall|a: int| 0 <= a < u.len() implies 0 <= #[trigger] u[a] < i + 1 by {
        assert(u[a] == t[a]);
    }
    assert forall|a: int, b: int| 0 <= a < b < u.len() implies rel(
        #[trigger] u[a],
        #[trigger] u[b],
    ) by {
        assert(rel(t[a], t[b]));
    }
    assert forall|x: int| 0 <= x < i + 1 implies #[trigger] u.contains(x) || (u.len() == k && (k
        == 0 || rel(u.last(), x))) by {
        if t.contains(x) {
            let a = choose|a: int| 0 <= a < t.len() && t[a] == x;
            if a < u.len() {
                assert(u[a] == x);
            } else if k > 0 {
                assert(rel(t[u.len() - 1], t[a]));
            }
        } else {
            assert(x != x0);
            if s.contains(x) {
                let c = choose|c: int| 0 <= c < s.len() && s[c] == x;
                if c < p {
                    assert(t[c] == x);
                } else {
                    assert(t[c + 1] == x);
                }
            }
            if k > 0 {
                assert(rel(s.last(), x));
                assert(t.len() == k + 1);
                assert(u.last() == t[k - 1]);
                if t[k - 1] != s.last() {
                    if p < k {
                        assert(t[k as int] == s[k - 1]);
                        assert(rel(t[k - 1], t[k as int]));
                    } else {
                        assert(t[k - 1] == s[k - 1]);
                    }
                    assert(0 <= t[k - 1] < i + 1);
                    assert(rel(t[k - 1], s.last()));
                }
                assert(0 <= s[s.len() - 1] < i);
            }
        }
    }
}

/// The first `k` positions of `o` in its order.
pub fn select_first<O: IndexOrder>(o: &O, k: usize) -> (out: Vec<usize>)
    ensures
        positions(out@) == arrangement(o.size(), o.rel()).take(least(k as nat, o.size()) as int),
        is_arrangement(o.size(), o.rel(), arrangement(o.size(), o.rel())),
        strict_total(o.size(), o.rel()),
{
    let n = o.count();
    let mut out: Vec<usize> = Vec::new();
    let ghost rel = o.rel();
    proof {
        o.rel_is_strict_total();
    }
    let mut i: usize = 0;
    while i < n
        invariant
            i <= n,
            n == o.size(),
            rel == o.rel(),
            strict_total(n as nat, rel),
            is_selection(i as nat, rel, k as nat, positions(out@)),
        decreases n - i,
    {
        let ghost s = positions(out@);
        proof {
            assert forall|a: int| 0 <= a < out.len() implies #[trigger] out@[a] < n by {
                assert(0 <= s[a] < i);
            }
        }
        let mut p: usize = out.len();
        while p > 0 && o.precedes(i, out[p - 1])
            invariant
                p <= out.len(),
                i < n,
                n == o.size(),
                rel == o.rel(),
                s == positions(out@),
                within(s, 0, i as int),
                forall|a: int| 0 <= a < out.len() ==> #[trigger] out@[a] < n,
                forall|a: int| p <= a < s.len() ==> rel(i as int, #[trigger] s[a]),
            ensures
                p > 0 ==> !rel(i as int, s[p - 1]),
            decreases p,
        {
            proof {
                assert(0 <= s[p - 1] < i);
            }
            p = p - 1;
        }
        proof {
            assert forall|a: int| 0 <= a < p implies rel(#[trigger] s[a], i as int) by {
                assert(0 <= s[p - 1] < i);
                assert(0 <= s[a] < i);
                assert(rel(s[p - 1], i as int));
                if a < p - 1 {
                    assert(rel(s[a], s[p - 1]));
                }
            }
            lemma_selection_step(n as nat, rel, k as nat, i as nat, s, p as int);
        }
        if p < k {
            if out.len() >= k {
                out.pop();
                proof {
                    assert(positions(out@) =~= s.drop_last());
                    assert(s.drop_last().insert(p as int, i as int) =~= s.insert(
                        p as int,
                        i as int,
                    ).take(k as int));
                }
            } else {
                assert(s.insert(p as int, i as int).take(least(k as nat, i as nat + 1) as int)
                    =~= s.insert(p as int, i as int));
            }
            let ghost shorter = positions(out@);
            out.insert(p, i);
            proof {
                assert(positions(out@) =~= shorter.insert(p as int, i as int));
            }
        } else {
            assert(s.insert(p as int, i as int).take(least(k as nat, i as nat + 1) as int) =~= s);
        }
        i = i + 1;
    }
    proof {
        lemma_selection_is_prefix(n as nat, rel, k as nat, positions(out@));
    }
    out
}

/// The entries of `s` at the given positions.
pub open spec fn picked<T>(s: Seq<T>, at: Seq<int>) -> Seq<T> {
    at.map_values(|i: int| s[i])
}

/// Moves the items at the given positions out, in that order.
pub fn take_at<T>(items: Vec<T>, at: &Vec<usize>) -> (r: Vec<T>)
    requires
        within(positions(at@), 0, items@.len() as int),
        positions(at@).no_duplicates(),
    ensures
        r@ == picked(items@, positions(at@)),
{
    let ghost all = items@;
    let ghost pos = positions(at@);
    let mut slots: Vec<Option<T>> = Vec::new();
    for item in it: items
        invariant
            it.seq() == all,
            slots@.len() == it.index(),
            forall|i: int| 0 <= i < it.index() ==> #[trigger] slots@[i] == Some(all[i]),
    {
        slots.push(Some(item));
    }
    let mut r: Vec<T> = Vec::new();
    let mut k: usize = 0;
    while k < at.len()
        invariant
            k <= at.len(),
            pos == positions(at@),
            within(pos, 0, all.len() as int),
            pos.no_duplicates(),
            slots@.len() == all.len(),
            forall|j: int|
                k <= j < pos.len() ==> slots@[#[trigger] pos[j]] == Some(all[pos[j]]),
            r@ == picked(all, pos).take(k as int),
        decreases at.len() - k,
    {
        let i = at[k];
        proof {
            assert(pos[k as int] == i);
            assert(0 <= pos[k as int] < all.len());
        }
        match slots[i].take() {
            Some(item) => {
                r.push(item);
            },
            None => {},
        }
        k = k + 1;
        proof {
            assert(r@ =~= picked(all, pos).take(k as int));
            assert forall|j: int| k <= j < pos.len() implies slots@[#[trigger] pos[j]] == Some(
                all[pos[j]],
            ) by {
                assert(pos[j] != pos[k - 1]);
            }
        }
    }
    assert(picked(all, pos).take(k as int) =~= picked(all, pos));
    r
}

/// An arrangement lists no position twice.
pub proof fn lemma_arrangement_distinct(n: nat, rel: spec_fn(int, int) -> bool, s: Seq<int>)
    requires
        strict_total(n, rel),
        is_arrangement(n, rel, s),
    ensures
        s.no_duplicates(),
{
    lemma_ascending_distinct(n, rel, s);
}

/// What stands at each place of a list of entries that were picked.
pub proof fn lemma_picked<T>(s: Seq<T>, at: Seq<int>)
    ensures
        picked(s, at).len() == at.len(),
        forall|k: int| 0 <= k < at.len() ==> #[trigger] picked(s, at)[k] == s[at[k]],
{
}

/// A filtered list holds exactly the entries that pass, each at its turn: there are positions, in
/// ascending order, at which its entries stand in the list, and every entry that passes stands at
/// one of them.
pub proof fn lemma_filter_positions<T>(s: Seq<T>, keep: spec_fn(T) -> bool) -> (at: Seq<int>)
    ensures
        at.len() == s.filter(keep).len(),
        forall|k: int|
            0 <= k < at.len() ==> 0 <= #[trigger] at[k] < s.len() && keep(s[at[k]]) && s.filter(
                keep,
            )[k] == s[at[k]],
        forall|a: int, b: int| 0 <= a < b < at.len() ==> #[trigger] at[a] < #[trigger] at[b],
        forall|i: int| 0 <= i < s.len() && keep(#[trigger] s[i]) ==> at.contains(i),
    decreases s.len(),
{
    reveal(Seq::filter);
    if s.len() == 0 {
        Seq::empty()
    } else {
        let init = s.drop_last();
        let before = lemma_filter_positions(init, keep);
        let last = s.len() - 1;
        let at = if keep(s[last]) {
            before.push(last)
        } else {
            before
        };
        assert forall|k: int| 0 <= k < at.len() implies 0 <= #[trigger] at[k] < s.len() && keep(
            s[at[k]],
        ) && s.filter(keep)[k] == s[at[k]] by {
            if k < before.len() {
                assert(at[k] == before[k]);
                assert(init[before[k]] == s[before[k]]);
            }
        }
        assert forall|a: int, b: int| 0 <= a < b < at.len() implies #[trigger] at[a]
            < #[trigger] at[b] by {
            assert(at[a] == before[a]);
            if b < before.len() {
                assert(at[b] == before[b]);
            }
        }
        assert forall|i: int| 0 <= i < s.len() && keep(#[trigger] s[i]) implies at.contains(i) by {
            if i < last {
                assert(init[i] == s[i]);
                assert(before.contains(i));
                let k = choose|k: int| 0 <= k < before.len() && before[k] == i;
                assert(at[k] == i);
            } else {
                assert(at[at.len() - 1] == i);
            }
        }
        at
    }
}

} // verus!
