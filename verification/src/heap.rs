//! Every order of a path's middle, reached by exchanging two cities at a time.
//!
//! The search works on one path in place. At level `size` the cities at
//! positions `1 .. size` are active. Each round visits every order of the
//! active cities but the last, then exchanges the last active city with
//! another: with the first where `size` is odd, with the city at the round's
//! own position where it is even.

use crate::tour::{home_order, is_tour};
use vstd::prelude::*;
use vstd::seq_lib::lemma_no_dup_in_concat;

verus! {

/// The product of the numbers from 1 to `n`.
pub open spec fn factorial(n: nat) -> nat
    decreases n,
{
    if n == 0 {
        1
    } else {
        n * factorial((n - 1) as nat)
    }
}

/// A factorial is at least 1.
pub proof fn lemma_factorial_positive(n: nat)
    ensures
        factorial(n) >= 1,
    decreases n,
{
    if n > 0 {
        lemma_factorial_positive((n - 1) as nat);
        assert(n * factorial((n - 1) as nat) >= 1) by (nonlinear_arith)
            requires
                n >= 1,
                factorial((n - 1) as nat) >= 1,
        ;
    }
}

/// Factorials grow with their argument.
pub proof fn lemma_factorial_grows(a: nat, b: nat)
    requires
        a <= b,
    ensures
        factorial(a) <= factorial(b),
    decreases b,
{
    if a < b {
        lemma_factorial_grows(a, (b - 1) as nat);
        lemma_factorial_positive((b - 1) as nat);
        assert(factorial((b - 1) as nat) <= b * factorial((b - 1) as nat)) by (nonlinear_arith)
            requires
                b >= 1,
                factorial((b - 1) as nat) >= 1,
        ;
    }
}

/// The tours of up to 21 cities can be counted in a `u64`: there are at most
/// 20! of them.
pub proof fn lemma_factorial_fits(n: nat)
    requires
        n <= 20,
    ensures
        factorial(n) <= 2_432_902_008_176_640_000,
        factorial(n) <= u64::MAX,
{
    lemma_factorial_grows(n, 20);
    assert(factorial(20) == 2_432_902_008_176_640_000) by {
        reveal_with_fuel(factorial, 21);
    }
}

/// `p` with the elements at `a` and `b` exchanged.
pub open spec fn swapped(p: Seq<u32>, a: int, b: int) -> Seq<u32> {
    p.update(a, p[b]).update(b, p[a])
}

/// The path after `k` rounds at level `size`, begun on `p`.
pub open spec fn after_rounds(p: Seq<u32>, size: nat, k: nat) -> Seq<u32>
    decreases size, k,
{
    if size < 2 || k == 0 {
        p
    } else {
        let before = after_rounds(p, size, (k - 1) as nat);
        let inner = after_rounds(before, (size - 1) as nat, (size - 2) as nat);
        swapped(
            inner,
            if size % 2 == 1 {
                1
            } else {
                k as int
            },
            size - 1,
        )
    }
}

/// The paths visited in the first `k` rounds at level `size`, begun on `p`,
/// in the order of the visits. Level 1 visits `p` itself.
pub open spec fn rounds_paths(p: Seq<u32>, size: nat, k: nat) -> Seq<Seq<u32>>
    decreases size, k,
{
    if size == 0 {
        Seq::empty()
    } else if size == 1 {
        seq![p]
    } else if k == 0 {
        Seq::empty()
    } else {
        rounds_paths(p, size, (k - 1) as nat) + rounds_paths(
            after_rounds(p, size, (k - 1) as nat),
            (size - 1) as nat,
            (size - 2) as nat,
        )
    }
}

/// The paths that an exhaustive search of `n` cities visits, in the order of
/// the visits.
pub open spec fn exact_paths(n: nat) -> Seq<Seq<u32>> {
    rounds_paths(home_order(n), n, (n - 1) as nat)
}

/// `p` with positions `1 ..= m` turned right by `k` places.
pub open spec fn rotated(p: Seq<u32>, m: int, k: int) -> Seq<u32> {
    Seq::new(
        p.len(),
        |i: int|
            if 1 <= i <= m {
                if i <= k {
                    p[m - k + i]
                } else {
                    p[i - k]
                }
            } else {
                p[i]
            },
    )
}

/// `p` after the last of positions `1 ..= m` was exchanged with the first,
/// then with the second, and so on `k` times.
pub open spec fn shifted(p: Seq<u32>, m: int, k: int) -> Seq<u32> {
    if k <= 0 {
        p
    } else {
        Seq::new(
            p.len(),
            |i: int|
                if i == 1 {
                    p[m]
                } else if 2 <= i <= k {
                    p[i - 1]
                } else if i == m {
                    p[k]
                } else {
                    p[i]
                },
        )
    }
}

/// The path after `k` rounds with `m` active cities, written out.
pub open spec fn rounds_state(p: Seq<u32>, m: int, k: int) -> Seq<u32> {
    if m % 2 == 0 {
        rotated(p, m, k)
    } else {
        shifted(p, m, k)
    }
}

/// Where in `p` the city at position `i` of `rounds_state(p, m, k)` stood.
pub open spec fn source(m: int, k: int, i: int) -> int {
    if m % 2 == 0 {
        if i <= k {
            m - k + i
        } else {
            i - k
        }
    } else if k <= 0 {
        i
    } else if i == 1 {
        m
    } else if 2 <= i <= k {
        i - 1
    } else if i == m {
        k
    } else {
        i
    }
}

/// Where in `rounds_state(p, m, k)` the city at position `j` of `p` stands.
pub open spec fn target(m: int, k: int, j: int) -> int {
    if m % 2 == 0 {
        if j + k <= m {
            j + k
        } else {
            j + k - m
        }
    } else if k <= 0 {
        j
    } else if j == m {
        1
    } else if j <= k - 1 {
        j + 1
    } else if j == k {
        m
    } else {
        j
    }
}

/// The round, of those with `m` active cities, before which the city at
/// position `j` of `p` stands last.
pub open spec fn round_of(m: int, j: int) -> int {
    if m % 2 == 0 {
        m - j
    } else if j == m {
        0
    } else {
        j
    }
}

/// `x` is one of the cities at positions `1 ..= m` of `p`.
pub open spec fn among(x: u32, p: Seq<u32>, m: int) -> bool {
    exists|j: int| 1 <= j <= m && #[trigger] p[j] == x
}

/// No city stands twice among positions `1 ..= m` of `p`.
pub open spec fn distinct_on(p: Seq<u32>, m: int) -> bool {
    forall|i: int, j: int| 1 <= i < j <= m ==> p[i] != p[j]
}

/// `q` is `p` with the cities at positions `1 ..= m` in some order.
pub open spec fn arranges(q: Seq<u32>, p: Seq<u32>, m: int) -> bool {
    &&& q.len() == p.len()
    &&& forall|i: int| 0 <= i < p.len() && !(1 <= i <= m) ==> #[trigger] q[i] == p[i]
    &&& forall|i: int| 1 <= i <= m ==> among(#[trigger] q[i], p, m)
    &&& distinct_on(q, m)
}

/// Every city at positions `1 ..= m` of `p` stands there in `s` too.
pub open spec fn covers(s: Seq<u32>, p: Seq<u32>, m: int) -> bool {
    forall|j: int| 1 <= j <= m ==> among(#[trigger] p[j], s, m)
}

/// `x` stood last before one of the first `k` rounds.
pub open spec fn seen_last(x: u32, p: Seq<u32>, m: int, k: int) -> bool {
    exists|r: int| 0 <= r < k && p[#[trigger] source(m, r, m)] == x
}

/// `v` holds each order of the `m` cities of `p` once, and nothing else.
pub open spec fn enumerates(v: Seq<Seq<u32>>, p: Seq<u32>, m: int) -> bool {
    &&& v.len() == factorial(m as nat)
    &&& v.no_duplicates()
    &&& forall|q: Seq<u32>| #[trigger] v.contains(q) <==> arranges(q, p, m)
}

/// `v` holds once each order of the `m` cities of `p` whose last city stood
/// last before one of the first `k` rounds, and nothing else.
pub open spec fn enumerates_rounds(v: Seq<Seq<u32>>, p: Seq<u32>, m: int, k: int) -> bool {
    &&& v.len() == k * factorial((m - 1) as nat)
    &&& v.no_duplicates()
    &&& forall|q: Seq<u32>| #[trigger]
        v.contains(q) <==> arranges(q, p, m) && seen_last(q[m], p, m, k)
}

/// Rounds change no length.
pub proof fn lemma_after_rounds_len(p: Seq<u32>, size: nat, k: nat)
    requires
        size <= p.len(),
        k < size || k == 0,
    ensures
        after_rounds(p, size, k).len() == p.len(),
    decreases size, k,
{
    if size >= 2 && k > 0 {
        lemma_after_rounds_len(p, size, (k - 1) as nat);
        let before = after_rounds(p, size, (k - 1) as nat);
        lemma_after_rounds_len(before, (size - 1) as nat, (size - 2) as nat);
    }
}

/// One round with an even number `m` of active cities turns them right by
/// one more place.
proof fn lemma_round_turns(p: Seq<u32>, m: int, k: int)
    requires
        2 <= m < p.len(),
        1 <= k <= m,
    ensures
        swapped(shifted(rotated(p, m, k - 1), m - 1, m - 1), 1, m) == rotated(p, m, k),
{
    let before = rotated(p, m, k - 1);
    let inner = shifted(before, m - 1, m - 1);
    let after = swapped(inner, 1, m);
    let goal = rotated(p, m, k);
    assert(after.len() == goal.len());
    assert forall|i: int| 0 <= i < p.len() implies after[i] == goal[i] by {
        if i == 1 {
            assert(after[i] == inner[m]);
            assert(inner[m] == before[m]);
        } else if i == m {
            assert(after[i] == inner[1]);
            assert(inner[1] == before[m - 1]);
        } else if 2 <= i < m {
            assert(after[i] == inner[i]);
            assert(inner[i] == before[i - 1]);
        } else {
            assert(after[i] == inner[i]);
            assert(inner[i] == before[i]);
        }
    }
    assert(after =~= goal);
}

/// One round with an odd number `m` of active cities exchanges the last of
/// them with the one at the round's own position.
proof fn lemma_round_shifts(p: Seq<u32>, m: int, k: int)
    requires
        1 <= m < p.len(),
        1 <= k <= m,
    ensures
        swapped(shifted(p, m, k - 1), k, m) == shifted(p, m, k),
{
    let before = shifted(p, m, k - 1);
    let after = swapped(before, k, m);
    let goal = shifted(p, m, k);
    assert(after.len() == goal.len());
    assert forall|i: int| 0 <= i < p.len() implies after[i] == goal[i] by {
        if i == k {
            assert(after[i] == before[m]);
        } else if i == m {
            assert(after[i] == before[k]);
        } else {
            assert(after[i] == before[i]);
        }
    }
    assert(after =~= goal);
}

/// The path after `k` rounds with `m` active cities is `p` turned right by
/// `k` places where `m` is even, and `p` after `k` exchanges with the last
/// where `m` is odd.
pub proof fn lemma_after_rounds(p: Seq<u32>, size: nat, k: nat)
    requires
        2 <= size <= p.len(),
        k < size,
    ensures
        after_rounds(p, size, k) == rounds_state(p, size - 1, k as int),
    decreases size, k,
{
    let m = size - 1;
    if k == 0 {
        assert(rotated(p, m, 0) =~= p);
    } else {
        lemma_after_rounds(p, size, (k - 1) as nat);
        lemma_after_rounds_len(p, size, (k - 1) as nat);
        let before = after_rounds(p, size, (k - 1) as nat);
        let inner = after_rounds(before, (size - 1) as nat, (size - 2) as nat);
        if m % 2 == 0 {
            lemma_after_rounds(before, (size - 1) as nat, (size - 2) as nat);
            assert(inner == shifted(before, m - 1, m - 1));
            lemma_round_turns(p, m, k as int);
        } else {
            if m >= 2 {
                lemma_after_rounds(before, (size - 1) as nat, (size - 2) as nat);
                assert(rotated(before, m - 1, m - 1) =~= before);
            }
            assert(inner == before);
            lemma_round_shifts(p, m, k as int);
        }
    }
}

/// The written-out state holds the cities of `p` at the places that
/// `source` and `target` name.
pub proof fn lemma_state_places(p: Seq<u32>, m: int, k: int)
    requires
        1 <= m < p.len(),
        0 <= k <= m,
    ensures
        rounds_state(p, m, k).len() == p.len(),
        forall|i: int|
            0 <= i < p.len() && !(1 <= i <= m) ==> #[trigger] rounds_state(p, m, k)[i] == p[i],
        forall|i: int|
            1 <= i <= m ==> #[trigger] rounds_state(p, m, k)[i] == p[source(m, k, i)] && 1
                <= source(m, k, i) <= m && target(m, k, source(m, k, i)) == i,
        forall|j: int|
            1 <= j <= m ==> 1 <= #[trigger] target(m, k, j) <= m && source(m, k, target(m, k, j))
                == j,
{
}

/// The written-out state is an order of the cities of `p`, and holds each
/// of them.
pub proof fn lemma_state_arranges(p: Seq<u32>, m: int, k: int)
    requires
        1 <= m < p.len(),
        0 <= k <= m,
        distinct_on(p, m),
    ensures
        arranges(rounds_state(p, m, k), p, m),
        covers(rounds_state(p, m, k), p, m),
{
    let s = rounds_state(p, m, k);
    lemma_state_places(p, m, k);
    assert forall|i: int| 1 <= i <= m implies among(#[trigger] s[i], p, m) by {
        assert(p[source(m, k, i)] == s[i]);
    }
    assert forall|j: int| 1 <= j <= m implies among(#[trigger] p[j], s, m) by {
        let i = target(m, k, j);
        assert(1 <= i <= m);
        assert(s[i] == p[source(m, k, i)]);
    }
    assert forall|i: int, j: int| 1 <= i < j <= m implies s[i] != s[j] by {
        assert(s[i] == p[source(m, k, i)]);
        assert(s[j] == p[source(m, k, j)]);
        assert(target(m, k, source(m, k, i)) == i);
        assert(target(m, k, source(m, k, j)) == j);
    }
}

/// An order of all but the last city of an order of `p` is an order of `p`.
pub proof fn lemma_arranges_up(v: Seq<u32>, s: Seq<u32>, p: Seq<u32>, m: int)
    requires
        1 <= m < p.len(),
        arranges(v, s, m - 1),
        arranges(s, p, m),
    ensures
        arranges(v, p, m),
        v[m] == s[m],
{
    assert(v[m] == s[m]);
    assert forall|i: int| 1 <= i <= m implies among(#[trigger] v[i], p, m) by {
        if i < m {
            assert(among(v[i], s, m - 1));
            let i1 = choose|j: int| 1 <= j <= m - 1 && #[trigger] s[j] == v[i];
            assert(among(s[i1], p, m));
        } else {
            assert(among(s[m], p, m));
        }
    }
    assert forall|i: int, j: int| 1 <= i < j <= m implies v[i] != v[j] by {
        if j == m {
            assert(among(v[i], s, m - 1));
            let i1 = choose|j: int| 1 <= j <= m - 1 && #[trigger] s[j] == v[i];
            assert(s[i1] != s[m]);
        }
    }
    assert forall|i: int| 0 <= i < p.len() && !(1 <= i <= m) implies #[trigger] v[i] == p[i] by {
        assert(v[i] == s[i]);
    }
}

/// An order of `p` that ends as `s` does is an order of all but the last
/// city of `s`, where `s` holds every city of `p`.
pub proof fn lemma_arranges_down(q: Seq<u32>, s: Seq<u32>, p: Seq<u32>, m: int)
    requires
        1 <= m < p.len(),
        arranges(q, p, m),
        arranges(s, p, m),
        covers(s, p, m),
        q[m] == s[m],
    ensures
        arranges(q, s, m - 1),
{
    assert forall|i: int| 1 <= i <= m - 1 implies among(#[trigger] q[i], s, m - 1) by {
        assert(among(q[i], p, m));
        let j = choose|j: int| 1 <= j <= m && #[trigger] p[j] == q[i];
        assert(among(p[j], s, m));
        let i1 = choose|i1: int| 1 <= i1 <= m && #[trigger] s[i1] == p[j];
        assert(q[i] != q[m]);
        assert(i1 != m);
    }
    assert forall|i: int| 0 <= i < s.len() && !(1 <= i <= m - 1) implies #[trigger] q[i]
        == s[i] by {
        if i != m {
            assert(q[i] == p[i]);
            assert(s[i] == p[i]);
        }
    }
}

/// A path is in a concatenation exactly if it is in one of the two parts.
pub proof fn lemma_concat_contains(a: Seq<Seq<u32>>, b: Seq<Seq<u32>>, q: Seq<u32>)
    ensures
        (a + b).contains(q) <==> a.contains(q) || b.contains(q),
{
    if a.contains(q) {
        let i = choose|i: int| 0 <= i < a.len() && a[i] == q;
        assert((a + b)[i] == q);
    }
    if b.contains(q) {
        let i = choose|i: int| 0 <= i < b.len() && b[i] == q;
        assert((a + b)[a.len() + i] == q);
    }
    if (a + b).contains(q) {
        let i = choose|i: int| 0 <= i < (a + b).len() && (a + b)[i] == q;
        if i < a.len() {
            assert(a[i] == q);
        } else {
            assert(b[i - a.len()] == q);
        }
    }
}

/// The first `k` rounds with `m` active cities visit once each order of
/// them whose last city stood last before one of these rounds.
pub proof fn lemma_rounds_enumerate(p: Seq<u32>, m: nat, k: nat)
    requires
        1 <= m < p.len(),
        k <= m,
        distinct_on(p, m as int),
    ensures
        enumerates_rounds(rounds_paths(p, m + 1, k), p, m as int, k as int),
    decreases m, k,
{
    let mi = m as int;
    let all = rounds_paths(p, m + 1, k);
    if k == 0 {
        assert forall|q: Seq<u32>| #[trigger] all.contains(q) <==> arranges(q, p, mi) && seen_last(
            q[mi],
            p,
            mi,
            0,
        ) by {}
    } else {
        let r = (k - 1) as nat;
        let v = rounds_paths(p, m + 1, r);
        let s = after_rounds(p, m + 1, r);
        let w = rounds_paths(s, m, (m - 1) as nat);
        assert(all == v + w);
        lemma_rounds_enumerate(p, m, r);
        lemma_after_rounds(p, m + 1, r);
        lemma_state_places(p, mi, r as int);
        lemma_state_arranges(p, mi, r as int);
        lemma_level_enumerates(s, (m - 1) as nat);
        assert(s[mi] == p[source(mi, r as int, mi)]);
        let f = factorial((m - 1) as nat) as int;
        assert(v.len() + w.len() == k * f) by (nonlinear_arith)
            requires
                v.len() == (k - 1) * f,
                w.len() == f,
        ;
        assert forall|q: Seq<u32>| #[trigger] all.contains(q) <==> arranges(q, p, mi) && seen_last(
            q[mi],
            p,
            mi,
            k as int,
        ) by {
            lemma_concat_contains(v, w, q);
            assert(v.contains(q) <==> arranges(q, p, mi) && seen_last(q[mi], p, mi, r as int));
            assert(w.contains(q) <==> arranges(q, s, mi - 1));
            if v.contains(q) {
                let r0 = choose|r0: int| 0 <= r0 < r && p[#[trigger] source(mi, r0, mi)] == q[mi];
                assert(seen_last(q[mi], p, mi, k as int));
            }
            if arranges(q, s, mi - 1) {
                lemma_arranges_up(q, s, p, mi);
                assert(p[source(mi, r as int, mi)] == q[mi]);
            }
            if arranges(q, p, mi) && seen_last(q[mi], p, mi, k as int) {
                let r0 = choose|r0: int| 0 <= r0 < k && p[#[trigger] source(mi, r0, mi)] == q[mi];
                if r0 < r {
                    assert(seen_last(q[mi], p, mi, r as int));
                } else {
                    lemma_arranges_down(q, s, p, mi);
                }
            }
        }
        assert forall|i: int, j: int| 0 <= i < v.len() && 0 <= j < w.len() implies v[i]
            != w[j] by {
            if v[i] == w[j] {
                let q = v[i];
                assert(v.contains(q));
                assert(w.contains(q));
                let r0 = choose|r0: int| 0 <= r0 < r && p[#[trigger] source(mi, r0, mi)] == q[mi];
                lemma_arranges_up(q, s, p, mi);
                let a = source(mi, r0, mi);
                let b = source(mi, r as int, mi);
                assert(p[a] == p[b]);
                assert(a != b);
                assert(1 <= a <= mi && 1 <= b <= mi);
                if a < b {
                    assert(p[a] != p[b]);
                } else {
                    assert(p[b] != p[a]);
                }
            }
        }
        lemma_no_dup_in_concat(v, w);
    }
}

/// A whole level with `m` active cities visits each order of them once.
pub proof fn lemma_level_enumerates(p: Seq<u32>, m: nat)
    requires
        m < p.len(),
        distinct_on(p, m as int),
    ensures
        enumerates(rounds_paths(p, m + 1, m), p, m as int),
    decreases m, m + 1,
{
    let mi = m as int;
    let all = rounds_paths(p, m + 1, m);
    if m == 0 {
        assert(all == seq![p]);
        assert forall|q: Seq<u32>| #[trigger] all.contains(q) <==> arranges(q, p, 0) by {
            if all.contains(q) {
                let i = choose|i: int| 0 <= i < all.len() && all[i] == q;
                assert(q == p);
            }
            if arranges(q, p, 0) {
                assert(q =~= p);
                assert(all[0] == q);
            }
        }
    } else {
        lemma_rounds_enumerate(p, m, m);
        assert forall|q: Seq<u32>| #[trigger] all.contains(q) <==> arranges(q, p, mi) by {
            assert(all.contains(q) <==> arranges(q, p, mi) && seen_last(q[mi], p, mi, mi));
            if arranges(q, p, mi) {
                assert(among(q[mi], p, mi));
                let j = choose|j: int| 1 <= j <= mi && #[trigger] p[j] == q[mi];
                let r = round_of(mi, j);
                assert(0 <= r < mi);
                assert(source(mi, r, mi) == j);
            }
        }
    }
}

/// The orders of the cities of `home_order(n)` are the tours of `n` cities.
pub proof fn lemma_tours_arrange_home_order(n: nat, q: Seq<u32>)
    requires
        1 <= n <= u32::MAX,
    ensures
        is_tour(q, n) <==> arranges(q, home_order(n), n - 1),
        is_tour(home_order(n), n),
        distinct_on(home_order(n), n - 1),
{
    let p = home_order(n);
    if is_tour(q, n) {
        assert forall|i: int| 1 <= i <= n - 1 implies among(#[trigger] q[i], p, n - 1) by {
            assert(p[q[i] as int] == q[i]);
        }
        assert forall|i: int| 0 <= i < p.len() && !(1 <= i <= n - 1) implies #[trigger] q[i]
            == p[i] by {}
    }
    if arranges(q, p, n - 1) {
        assert forall|i: int| 1 <= i < n implies 1 <= #[trigger] q[i] < n by {
            assert(among(q[i], p, n - 1));
        }
        assert(q[0] == p[0]);
        assert(q[n as int] == p[n as int]);
    }
}

/// An exhaustive search visits `(n - 1)!` paths, no path twice, and a path
/// exactly if it is a tour.
pub proof fn lemma_exact_paths(n: nat)
    requires
        1 <= n <= u32::MAX,
    ensures
        exact_paths(n).len() == factorial((n - 1) as nat),
        exact_paths(n).no_duplicates(),
        forall|q: Seq<u32>| #[trigger] exact_paths(n).contains(q) <==> is_tour(q, n),
{
    let p = home_order(n);
    lemma_tours_arrange_home_order(n, p);
    lemma_level_enumerates(p, (n - 1) as nat);
    assert forall|q: Seq<u32>| #[trigger] exact_paths(n).contains(q) <==> is_tour(q, n) by {
        lemma_tours_arrange_home_order(n, q);
    }
}

/// Exchanging two of the cities other than home keeps a tour a tour.
pub proof fn lemma_swap_keeps_tour(p: Seq<u32>, n: nat, a: int, b: int)
    requires
        is_tour(p, n),
        1 <= a < n,
        1 <= b < n,
    ensures
        is_tour(swapped(p, a, b), n),
{
    let s = swapped(p, a, b);
    let from = |i: int|
        if i == a {
            b
        } else if i == b {
            a
        } else {
            i
        };
    assert forall|i: int| 1 <= i < n implies 1 <= #[trigger] s[i] < n by {
        assert(s[i] == p[from(i)]);
    }
    assert forall|i: int, j: int| 1 <= i < j < n implies s[i] != s[j] by {
        assert(s[i] == p[from(i)]);
        assert(s[j] == p[from(j)]);
        if from(i) < from(j) {
            assert(p[from(i)] != p[from(j)]);
        } else {
            assert(p[from(j)] != p[from(i)]);
        }
    }
}

} // verus!
