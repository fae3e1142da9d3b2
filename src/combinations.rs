//! Enumeration of the k-combinations of positions `0..n`, as strictly
//! increasing position sequences in lexicographic order; with the triples of
//! positions, the case that the searches use, as a form of its own.

use vstd::prelude::*;

verus! {

/// Positions of three items of a sequence.
pub type Positions = (usize, usize, usize);

/// Number of 2-element subsets of an `m`-element set.
pub open spec fn choose2(m: nat) -> nat
    decreases m,
{
    if m == 0 {
        0
    } else {
        choose2((m - 1) as nat) + (m - 1) as nat
    }
}

/// Number of 3-element subsets of an `m`-element set.
pub open spec fn choose3(m: nat) -> nat
    decreases m,
{
    if m == 0 {
        0
    } else {
        choose3((m - 1) as nat) + choose2((m - 1) as nat)
    }
}

/// `t` is a combination of positions in `lo..n`: three strictly increasing
/// positions, the first at least `lo`, the last below `n`.
pub open spec fn in_range(t: Positions, lo: int, n: int) -> bool {
    lo <= t.0 && t.0 < t.1 && t.1 < t.2 && t.2 < n
}

/// Lexicographic order on position triples.
pub open spec fn lex_lt(a: Positions, b: Positions) -> bool {
    ||| a.0 < b.0
    ||| a.0 == b.0 && a.1 < b.1
    ||| a.0 == b.0 && a.1 == b.1 && a.2 < b.2
}

/// Every element comes strictly before every later one.
pub open spec fn strictly_sorted(s: Seq<Positions>) -> bool {
    forall|a: int, b: int| 0 <= a < b < s.len() ==> lex_lt(#[trigger] s[a], #[trigger] s[b])
}

/// The triples (i, j, l) for l from `from` up to `n - 1`.
pub open spec fn row(i: int, j: int, from: int, n: int) -> Seq<Positions> {
    Seq::new(
        if from <= n {
            (n - from) as nat
        } else {
            0
        },
        |k: int| (i as usize, j as usize, (from + k) as usize),
    )
}

/// The triples with first position `i` and second position at least `j`, in
/// lexicographic order.
pub open spec fn block(i: int, j: int, n: int) -> Seq<Positions>
    decreases n - j,
{
    if j >= n {
        Seq::empty()
    } else {
        row(i, j, j + 1, n) + block(i, j + 1, n)
    }
}

/// The triples with first position at least `i`, in lexicographic order.
pub open spec fn triples_from(i: int, n: int) -> Seq<Positions>
    decreases n - i,
{
    if i >= n {
        Seq::empty()
    } else {
        block(i, i + 1, n) + triples_from(i + 1, n)
    }
}

/// All 3-combinations of the positions `0..n`, in lexicographic order.
pub open spec fn all_triples(n: int) -> Seq<Positions> {
    triples_from(0, n)
}

proof fn lemma_block(i: int, j: int, n: int)
    requires
        0 <= i < j,
        n <= usize::MAX,
    ensures
        block(i, j, n).len() == choose2(if j <= n { (n - j) as nat } else { 0 }),
        strictly_sorted(block(i, j, n)),
        forall|k: int|
            0 <= k < block(i, j, n).len() ==> {
                let t = #[trigger] block(i, j, n)[k];
                t.0 == i && j <= t.1 && in_range(t, i, n)
            },
        forall|t: Positions|
            t.0 == i && j <= t.1 && in_range(t, i, n) ==> #[trigger] block(i, j, n).contains(t),
    decreases n - j,
{
    if j < n {
        lemma_block(i, j + 1, n);
        let r = row(i, j, j + 1, n);
        let rest = block(i, j + 1, n);
        let s = block(i, j, n);
        assert(s == r + rest);
        assert(choose2((n - j) as nat) == choose2((n - j - 1) as nat) + (n - j - 1));
        assert forall|a: int, b: int| 0 <= a < b < s.len() implies lex_lt(
            #[trigger] s[a],
            #[trigger] s[b],
        ) by {
            if b < r.len() {
            } else if a < r.len() {
                assert(rest[b - r.len()] == s[b]);
            } else {
                assert(rest[a - r.len()] == s[a]);
                assert(rest[b - r.len()] == s[b]);
            }
        }
        assert forall|k: int| 0 <= k < s.len() implies {
            let t = #[trigger] s[k];
            t.0 == i && j <= t.1 && in_range(t, i, n)
        } by {
            if k >= r.len() {
                assert(rest[k - r.len()] == s[k]);
            }
        }
        assert forall|t: Positions| t.0 == i && j <= t.1 && in_range(t, i, n) implies #[trigger] s.contains(t) by {
            if t.1 == j {
                let k = t.2 - j - 1;
                assert(r[k] == t);
                assert(s[k] == t);
            } else {
                assert(rest.contains(t));
                let k = choose|k: int| 0 <= k < rest.len() && rest[k] == t;
                assert(s[r.len() + k] == t);
            }
        }
    } else {
        assert forall|t: Positions| t.0 == i && j <= t.1 && in_range(t, i, n) implies #[trigger] block(i, j, n).contains(t) by {
        }
    }
}

proof fn lemma_triples_from(i: int, n: int)
    requires
        0 <= i,
        n <= usize::MAX,
    ensures
        triples_from(i, n).len() == choose3(if i <= n { (n - i) as nat } else { 0 }),
        strictly_sorted(triples_from(i, n)),
        forall|k: int| 0 <= k < triples_from(i, n).len() ==> in_range(#[trigger] triples_from(i, n)[k], i, n),
        forall|t: Positions| in_range(t, i, n) ==> #[trigger] triples_from(i, n).contains(t),
    decreases n - i,
{
    if i < n {
        lemma_block(i, i + 1, n);
        lemma_triples_from(i + 1, n);
        let b = block(i, i + 1, n);
        let rest = triples_from(i + 1, n);
        let s = triples_from(i, n);
        assert(s == b + rest);
        assert(choose3((n - i) as nat) == choose3((n - i - 1) as nat) + choose2((n - i - 1) as nat));
        assert forall|x: int, y: int| 0 <= x < y < s.len() implies lex_lt(
            #[trigger] s[x],
            #[trigger] s[y],
        ) by {
            if y < b.len() {
                assert(b[x] == s[x] && b[y] == s[y]);
            } else if x < b.len() {
                assert(b[x] == s[x]);
                assert(rest[y - b.len()] == s[y]);
            } else {
                assert(rest[x - b.len()] == s[x]);
                assert(rest[y - b.len()] == s[y]);
            }
        }
        assert forall|k: int| 0 <= k < s.len() implies in_range(#[trigger] s[k], i, n) by {
            if k < b.len() {
                assert(b[k] == s[k]);
            } else {
                assert(rest[k - b.len()] == s[k]);
            }
        }
        assert forall|t: Positions| in_range(t, i, n) implies #[trigger] s.contains(t) by {
            if t.0 == i {
                assert(b.contains(t));
                let k = choose|k: int| 0 <= k < b.len() && b[k] == t;
                assert(s[k] == t);
            } else {
                assert(rest.contains(t));
                let k = choose|k: int| 0 <= k < rest.len() && rest[k] == t;
                assert(s[b.len() + k] == t);
            }
        }
    } else {
        assert forall|t: Positions| in_range(t, i, n) implies #[trigger] triples_from(i, n).contains(t) by {
        }
    }
}

/// The enumeration covers every 3-combination of `0..n` exactly once: its
/// elements are combinations, each comes strictly before the next (so none
/// repeats), every combination occurs, and there are C(n, 3) of them.
pub proof fn lemma_all_triples(n: int)
    requires
        0 <= n <= usize::MAX,
    ensures
        all_triples(n).len() == choose3(n as nat),
        6 * choose3(n as nat) == n * (n - 1) * (n - 2),
        strictly_sorted(all_triples(n)),
        all_triples(n).no_duplicates(),
        forall|k: int| 0 <= k < all_triples(n).len() ==> in_range(#[trigger] all_triples(n)[k], 0, n),
        forall|t: Positions| in_range(t, 0, n) ==> #[trigger] all_triples(n).contains(t),
{
    lemma_triples_from(0, n);
    lemma_choose_closed(n as nat);
    let s = all_triples(n);
    assert forall|a: int, b: int| 0 <= a < s.len() && 0 <= b < s.len() && a != b implies s[a] != s[b] by {
        if a < b {
            assert(lex_lt(s[a], s[b]));
        } else {
            assert(lex_lt(s[b], s[a]));
        }
    }
}

/// Closed forms: C(m, 2) = m(m-1)/2 and C(m, 3) = m(m-1)(m-2)/6.
pub proof fn lemma_choose_closed(m: nat)
    ensures
        2 * choose2(m) == m * (m - 1),
        6 * choose3(m) == m * (m - 1) * (m - 2),
    decreases m,
{
    if m > 0 {
        lemma_choose_closed((m - 1) as nat);
        let p: int = m - 1;
        let c2: int = choose2(p as nat) as int;
        let c3: int = choose3(p as nat) as int;
        assert(choose2(m) == c2 + p);
        assert(choose3(m) == c3 + c2);
        assert(2 * c2 == p * (p - 1));
        assert(6 * c3 == p * (p - 1) * (p - 2));
        assert(2 * (c2 + p) == m * (m - 1)) by (nonlinear_arith)
            requires
                2 * c2 == p * (p - 1),
                p == m - 1,
        ;
        assert(6 * (c3 + c2) == m * (m - 1) * (m - 2)) by (nonlinear_arith)
            requires
                6 * c3 == p * (p - 1) * (p - 2),
                2 * c2 == p * (p - 1),
                p == m - 1,
        ;
    } else {
        assert(m == 0);
        assert(m * (m - 1) == 0) by (nonlinear_arith)
            requires m == 0;
        assert(m * (m - 1) * (m - 2) == 0) by (nonlinear_arith)
            requires m == 0;
    }
}

/// All 3-combinations of the positions `0..n`, in lexicographic order of
/// `(i, j, l)` with `i < j < l`.
pub fn index_triples(n: usize) -> (r: Vec<Positions>)
    ensures
        r@ == all_triples(n as int),
        r@.len() == choose3(n as nat),
        r@.no_duplicates(),
        forall|k: int| 0 <= k < r@.len() ==> in_range(#[trigger] r@[k], 0, n as int),
        forall|t: Positions| in_range(t, 0, n as int) ==> #[trigger] r@.contains(t),
{
    let ghost all = all_triples(n as int);
    let mut r: Vec<Positions> = Vec::new();
    let mut i: usize = 0;
    assert(r@ + triples_from(0, n as int) =~= all);
    while i < n
        invariant
            i <= n,
            r@ + triples_from(i as int, n as int) == all,
        decreases n - i,
    {
        let mut j: usize = i + 1;
        assert(triples_from(i as int, n as int) == block(i as int, j as int, n as int)
            + triples_from(i as int + 1, n as int));
        assert(r@ + block(i as int, j as int, n as int) + triples_from(i as int + 1, n as int)
            =~= all);
        while j < n
            invariant
                i < n,
                i < j <= n,
                r@ + block(i as int, j as int, n as int) + triples_from(i as int + 1, n as int)
                    == all,
            decreases n - j,
        {
            let mut l: usize = j + 1;
            let ghost tail = block(i as int, j as int + 1, n as int) + triples_from(
                i as int + 1,
                n as int,
            );
            assert(r@ + row(i as int, j as int, l as int, n as int) + tail =~= all);
            while l < n
                invariant
                    i < j < n,
                    j < l <= n,
                    r@ + row(i as int, j as int, l as int, n as int) + tail == all,
                decreases n - l,
            {
                let ghost before = r@;
                r.push((i, j, l));
                assert(row(i as int, j as int, l as int, n as int) =~= seq![(i, j, l)] + row(
                    i as int,
                    j as int,
                    l as int + 1,
                    n as int,
                ));
                assert(r@ + row(i as int, j as int, l as int + 1, n as int) + tail =~= before
                    + row(i as int, j as int, l as int, n as int) + tail);
                l = l + 1;
            }
            assert(row(i as int, j as int, n as int, n as int) =~= Seq::<Positions>::empty());
            assert(r@ + block(i as int, j as int + 1, n as int) + triples_from(
                i as int + 1,
                n as int,
            ) =~= all);
            j = j + 1;
        }
        assert(r@ + triples_from(i as int + 1, n as int) =~= all);
        i = i + 1;
    }
    assert(r@ =~= all);
    proof {
        lemma_all_triples(n as int);
    }
    r
}

/// Number of `k`-element subsets of an `m`-element set.
pub open spec fn binom(m: nat, k: nat) -> nat
    decreases m,
{
    if k == 0 {
        1
    } else if m == 0 {
        0
    } else {
        binom((m - 1) as nat, (k - 1) as nat) + binom((m - 1) as nat, k)
    }
}

/// `c` lists positions of `lo..n` in strictly increasing order.
pub open spec fn increasing_in(c: Seq<usize>, lo: int, n: int) -> bool {
    &&& forall|a: int| 0 <= a < c.len() ==> lo <= #[trigger] c[a] < n
    &&& forall|a: int, b: int| 0 <= a < b < c.len() ==> #[trigger] c[a] < #[trigger] c[b]
}

/// Lexicographic order on position sequences of equal length.
pub open spec fn seq_lex_lt(a: Seq<usize>, b: Seq<usize>) -> bool {
    exists|p: int|
        0 <= p < a.len() && p < b.len() && a[p] < b[p] && forall|q: int|
            0 <= q < p ==> #[trigger] a[q] == #[trigger] b[q]
}

/// The `k`-combinations of the positions `lo..n`, in lexicographic order:
/// those that start with `lo`, then those that do not.
pub open spec fn combs(lo: int, n: int, k: nat) -> Seq<Seq<usize>>
    decreases n - lo,
{
    if k == 0 {
        seq![Seq::empty()]
    } else if k > n - lo {
        Seq::empty()
    } else {
        combs(lo + 1, n, (k - 1) as nat).map_values(|c: Seq<usize>| seq![lo as usize] + c)
            + combs(lo + 1, n, k)
    }
}

/// Position `a` of an increasing sequence in `lo..n` is at least `lo + a`, so
/// such a sequence has at most `n - lo` elements.
proof fn lemma_increasing_at(c: Seq<usize>, lo: int, n: int, a: int)
    requires
        increasing_in(c, lo, n),
        0 <= a < c.len(),
    ensures
        c[a] >= lo + a,
    decreases a,
{
    if a > 0 {
        lemma_increasing_at(c, lo, n, a - 1);
        assert(c[a - 1] < c[a]);
    }
}

proof fn lemma_binom_zero(m: nat, k: nat)
    requires
        k > m,
    ensures
        binom(m, k) == 0,
    decreases m,
{
    if m > 0 {
        lemma_binom_zero((m - 1) as nat, (k - 1) as nat);
        lemma_binom_zero((m - 1) as nat, k);
    }
}

proof fn lemma_combs(lo: int, n: int, k: nat)
    requires
        0 <= lo <= n <= usize::MAX,
    ensures
        combs(lo, n, k).len() == binom((n - lo) as nat, k),
        forall|i: int|
            0 <= i < combs(lo, n, k).len() ==> (#[trigger] combs(lo, n, k)[i]).len() == k
                && increasing_in(combs(lo, n, k)[i], lo, n),
        forall|c: Seq<usize>|
            c.len() == k && increasing_in(c, lo, n) ==> #[trigger] combs(lo, n, k).contains(c),
        forall|i: int, j: int|
            0 <= i < j < combs(lo, n, k).len() ==> seq_lex_lt(
                #[trigger] combs(lo, n, k)[i],
                #[trigger] combs(lo, n, k)[j],
            ),
    decreases n - lo,
{
    let s = combs(lo, n, k);
    if k == 0 {
        assert forall|c: Seq<usize>| c.len() == k && increasing_in(c, lo, n) implies #[trigger] s.contains(c) by {
            assert(c =~= s[0]);
        }
    } else if k > n - lo {
        lemma_binom_zero((n - lo) as nat, k);
        assert forall|c: Seq<usize>| c.len() == k && increasing_in(c, lo, n) implies #[trigger] s.contains(c) by {
            lemma_increasing_at(c, lo, n, c.len() - 1);
        }
    } else {
        lemma_combs(lo + 1, n, (k - 1) as nat);
        lemma_combs(lo + 1, n, k);
        let inner = combs(lo + 1, n, (k - 1) as nat);
        let left = inner.map_values(|c: Seq<usize>| seq![lo as usize] + c);
        let right = combs(lo + 1, n, k);
        assert(s == left + right);
        assert forall|i: int| 0 <= i < s.len() implies (#[trigger] s[i]).len() == k && increasing_in(s[i], lo, n) by {
            if i < left.len() {
                let c = inner[i];
                assert(s[i] == seq![lo as usize] + c);
                assert forall|a: int, b: int| 0 <= a < b < s[i].len() implies #[trigger] s[i][a] < #[trigger] s[i][b] by {
                    if a > 0 {
                        assert(s[i][a] == c[a - 1] && s[i][b] == c[b - 1]);
                    } else {
                        assert(s[i][b] == c[b - 1]);
                    }
                }
                assert forall|a: int| 0 <= a < s[i].len() implies lo <= #[trigger] s[i][a] < n by {
                    if a > 0 {
                        assert(s[i][a] == c[a - 1]);
                    }
                }
            } else {
                assert(s[i] == right[i - left.len()]);
            }
        }
        assert forall|c: Seq<usize>| c.len() == k && increasing_in(c, lo, n) implies #[trigger] s.contains(c) by {
            if c[0] == lo {
                let rest = c.drop_first();
                assert forall|a: int| 0 <= a < rest.len() implies lo + 1 <= #[trigger] rest[a] < n by {
                    assert(c[0] < c[a + 1]);
                }
                assert forall|a: int, b: int| 0 <= a < b < rest.len() implies #[trigger] rest[a] < #[trigger] rest[b] by {
                    assert(c[a + 1] < c[b + 1]);
                }
                assert(inner.contains(rest));
                let x = choose|x: int| 0 <= x < inner.len() && inner[x] == rest;
                assert(left[x] =~= c);
                assert(s[x] == c);
            } else {
                assert forall|a: int| 0 <= a < c.len() implies lo + 1 <= #[trigger] c[a] < n by {
                    if a > 0 {
                        assert(c[0] < c[a]);
                    }
                }
                assert(right.contains(c));
                let x = choose|x: int| 0 <= x < right.len() && right[x] == c;
                assert(s[left.len() + x] == c);
            }
        }
        assert forall|i: int, j: int| 0 <= i < j < s.len() implies seq_lex_lt(
            #[trigger] s[i],
            #[trigger] s[j],
        ) by {
            if j < left.len() {
                let ci = inner[i];
                let cj = inner[j];
                assert(seq_lex_lt(ci, cj));
                let p = choose|p: int|
                    0 <= p < ci.len() && p < cj.len() && ci[p] < cj[p] && forall|q: int|
                        0 <= q < p ==> #[trigger] ci[q] == #[trigger] cj[q];
                assert(s[i] == seq![lo as usize] + ci);
                assert(s[j] == seq![lo as usize] + cj);
                assert(s[i][p + 1] < s[j][p + 1]);
                assert forall|q: int| 0 <= q < p + 1 implies #[trigger] s[i][q] == #[trigger] s[j][q] by {
                    if q > 0 {
                        assert(ci[q - 1] == cj[q - 1]);
                    }
                }
            } else if i < left.len() {
                assert(s[i] == seq![lo as usize] + inner[i]);
                assert(s[j] == right[j - left.len()]);
                assert(s[i][0] == lo);
                assert(right[j - left.len()][0] >= lo + 1);
                assert forall|q: int| 0 <= q < 0 implies #[trigger] s[i][q] == #[trigger] s[j][q] by {}
            } else {
                assert(s[i] == right[i - left.len()]);
                assert(s[j] == right[j - left.len()]);
            }
        }
    }
}

/// The position sequences that a vector of vectors holds.
pub open spec fn views(r: Seq<Vec<usize>>) -> Seq<Seq<usize>> {
    r.map_values(|v: Vec<usize>| v@)
}

fn combinations_from(lo: usize, n: usize, k: usize) -> (r: Vec<Vec<usize>>)
    requires
        lo <= n,
    ensures
        views(r@) == combs(lo as int, n as int, k as nat),
    decreases n - lo,
{
    if k == 0 {
        let r = vec![Vec::new()];
        assert(views(r@) =~= combs(lo as int, n as int, k as nat));
        return r;
    }
    if k > n - lo {
        let r: Vec<Vec<usize>> = Vec::new();
        assert(views(r@) =~= combs(lo as int, n as int, k as nat));
        return r;
    }
    let with = combinations_from(lo + 1, n, k - 1);
    let mut without = combinations_from(lo + 1, n, k);
    let ghost inner = combs(lo as int + 1, n as int, (k - 1) as nat);
    let mut r: Vec<Vec<usize>> = Vec::new();
    let mut i: usize = 0;
    while i < with.len()
        invariant
            views(with@) == inner,
            i <= with@.len(),
            r@.len() == i,
            forall|x: int| 0 <= x < i ==> (#[trigger] r@[x])@ == seq![lo] + inner[x],
        decreases with.len() - i,
    {
        let mut c: Vec<usize> = Vec::new();
        c.push(lo);
        let mut a: usize = 0;
        while a < with[i].len()
            invariant
                i < with@.len(),
                a <= with@[i as int]@.len(),
                c@ == seq![lo] + with@[i as int]@.take(a as int),
            decreases with@[i as int]@.len() - a,
        {
            c.push(with[i][a]);
            assert(with@[i as int]@.take(a as int + 1) =~= with@[i as int]@.take(a as int).push(
                with@[i as int]@[a as int],
            ));
            assert(c@ =~= seq![lo] + with@[i as int]@.take(a as int + 1));
            a = a + 1;
        }
        assert(with@[i as int]@.take(a as int) =~= with@[i as int]@);
        assert(with@[i as int]@ == inner[i as int]);
        r.push(c);
        i = i + 1;
    }
    r.append(&mut without);
    assert(views(r@) =~= combs(lo as int, n as int, k as nat));
    r
}

/// All `k`-combinations of the positions `0..n`: each a strictly increasing
/// sequence of `k` positions, listed in lexicographic order, each exactly
/// once, C(n, k) of them in all.
pub fn combinations(n: usize, k: usize) -> (r: Vec<Vec<usize>>)
    ensures
        views(r@) == combs(0, n as int, k as nat),
        r@.len() == binom(n as nat, k as nat),
        forall|i: int|
            0 <= i < r@.len() ==> (#[trigger] r@[i])@.len() == k && increasing_in(r@[i]@, 0, n as int),
        forall|c: Seq<usize>|
            c.len() == k && increasing_in(c, 0, n as int) ==> #[trigger] views(r@).contains(c),
        forall|i: int, j: int|
            0 <= i < j < r@.len() ==> seq_lex_lt(#[trigger] r@[i]@, #[trigger] r@[j]@),
{
    let r = combinations_from(0, n, k);
    proof {
        lemma_combs(0, n as int, k as nat);
        let s = combs(0, n as int, k as nat);
        assert forall|i: int| 0 <= i < r@.len() implies (#[trigger] r@[i])@ == s[i] by {
            assert(views(r@)[i] == r@[i]@);
        }
    }
    r
}

} // verus!
