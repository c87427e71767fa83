//! Tours through every city, and tours under construction.

use crate::ecm::ECM;
use vstd::prelude::*;

verus! {

/// A tour of `n` cities: it leaves the home city, visits every other city
/// once, and comes home.
pub open spec fn is_tour(path: Seq<u32>, n: nat) -> bool {
    &&& path.len() == n + 1
    &&& path[0] == 0
    &&& path[n as int] == 0
    &&& forall|i: int| 1 <= i < n ==> 1 <= #[trigger] path[i] < n
    &&& forall|i: int, j: int| 1 <= i < j < n ==> path[i] != path[j]
}

/// The cities other than home, in ascending order.
pub open spec fn cities(n: nat) -> Seq<u32> {
    if n == 0 {
        Seq::empty()
    } else {
        Seq::new((n - 1) as nat, |i: int| (i + 1) as u32)
    }
}

/// Home, then the other cities in ascending order, then home.
pub open spec fn home_order(n: nat) -> Seq<u32> {
    Seq::new(
        n + 1,
        |i: int|
            if i == n {
                0u32
            } else {
                i as u32
            },
    )
}

/// `s` without element `k`, whose place the last element takes.
pub open spec fn swap_removed(s: Seq<u32>, k: int) -> Seq<u32> {
    if 0 <= k < s.len() {
        s.update(k, s.last()).drop_last()
    } else {
        s.drop_last()
    }
}

/// `path` starts at home, and `path` followed by `left` holds each of the
/// `n` cities once.
pub open spec fn partial(path: Seq<u32>, left: Seq<u32>, n: nat) -> bool {
    let all = path + left;
    &&& path.len() >= 1
    &&& all.len() == n
    &&& all[0] == 0
    &&& forall|i: int| 1 <= i < n ==> 1 <= #[trigger] all[i] < n
    &&& forall|i: int, j: int| 0 <= i < j < n ==> all[i] != all[j]
}

/// Index in `left` of the city nearest to `from`; of several equally near,
/// the first.
pub open spec fn nearest(ecm: ECM, from: int, left: Seq<u32>) -> int
    decreases left.len(),
{
    if left.len() <= 1 {
        0
    } else {
        let k = nearest(ecm, from, left.drop_last());
        if ecm.cost(from, left.last() as int) < ecm.cost(from, left[k] as int) {
            left.len() - 1
        } else {
            k
        }
    }
}

/// The tour that results from `path` by going to the nearest city of `left`
/// again and again, and home at the end.
pub open spec fn greedy_from(ecm: ECM, path: Seq<u32>, left: Seq<u32>) -> Seq<u32>
    decreases left.len(),
{
    if left.len() == 0 {
        path.push(0)
    } else {
        let k = nearest(ecm, path.last() as int, left);
        greedy_from(ecm, path.push(left[k]), swap_removed(left, k))
    }
}

/// The nearest-neighbour tour of a matrix.
pub open spec fn greedy_tour(ecm: ECM) -> Seq<u32> {
    greedy_from(ecm, seq![0u32], cities(ecm.size()))
}

/// The nearest city is one of `left`, none of `left` is nearer, and none
/// before it is as near.
pub proof fn lemma_nearest(ecm: ECM, from: int, left: Seq<u32>)
    requires
        left.len() > 0,
    ensures
        0 <= nearest(ecm, from, left) < left.len(),
        forall|j: int|
            0 <= j < left.len() ==> ecm.cost(from, left[nearest(ecm, from, left)] as int)
                <= ecm.cost(from, #[trigger] left[j] as int),
        forall|j: int|
            0 <= j < nearest(ecm, from, left) ==> ecm.cost(
                from,
                left[nearest(ecm, from, left)] as int,
            ) < ecm.cost(from, #[trigger] left[j] as int),
    decreases left.len(),
{
    if left.len() > 1 {
        let shorter = left.drop_last();
        lemma_nearest(ecm, from, shorter);
        let k = nearest(ecm, from, shorter);
        assert forall|j: int| 0 <= j < left.len() implies ecm.cost(
            from,
            left[nearest(ecm, from, left)] as int,
        ) <= ecm.cost(from, #[trigger] left[j] as int) by {
            if j < left.len() - 1 {
                assert(shorter[j] == left[j]);
            }
        }
        assert forall|j: int| 0 <= j < nearest(ecm, from, left) implies ecm.cost(
            from,
            left[nearest(ecm, from, left)] as int,
        ) < ecm.cost(from, #[trigger] left[j] as int) by {
            assert(shorter[j] == left[j]);
        }
    }
}

/// Why a path is no tour.
#[derive(Debug, Clone, Copy, PartialEq, Eq, Structural)]
pub enum InvariantViolation {
    /// The path has not one element more than there are cities.
    WrongLength,
    /// The length is right, but the path does not start and end at home.
    WrongEndpoints,
    /// Length and ends are right, but between them stands home, or a number
    /// that names no city.
    NotACity,
    /// Only cities other than home stand between the ends, but one of them
    /// stands there twice.
    RepeatedCity,
}

/// Between the ends of `path` stand only cities other than home.
pub open spec fn cities_only(path: Seq<u32>, n: nat) -> bool {
    forall|i: int| 1 <= i < n ==> 1 <= #[trigger] path[i] < n
}

/// No city stands twice between the ends of `path`.
pub open spec fn no_city_twice(path: Seq<u32>, n: nat) -> bool {
    forall|i: int, j: int| 1 <= i < j < n ==> path[i] != path[j]
}

/// What is wrong with `path` as a tour of `n` cities: the first fault in the
/// order of [`InvariantViolation`]'s variants, or nothing.
pub open spec fn tour_fault(path: Seq<u32>, n: nat) -> Option<InvariantViolation> {
    if path.len() != n + 1 {
        Some(InvariantViolation::WrongLength)
    } else if !(path[0] == 0 && path[n as int] == 0) {
        Some(InvariantViolation::WrongEndpoints)
    } else if !cities_only(path, n) {
        Some(InvariantViolation::NotACity)
    } else if !no_city_twice(path, n) {
        Some(InvariantViolation::RepeatedCity)
    } else {
        None
    }
}

/// Says whether `path` is a tour of `n` cities, and if not, what is wrong
/// with it first.
pub fn check_tour(path: &[u32], n: usize) -> (r: Result<(), InvariantViolation>)
    ensures
        r is Ok <==> is_tour(path@, n as nat),
        r == match tour_fault(path@, n as nat) {
            Some(fault) => Err::<(), InvariantViolation>(fault),
            None => Ok::<(), InvariantViolation>(()),
        },
{
    if path.len() == 0 || path.len() - 1 != n {
        return Err(InvariantViolation::WrongLength);
    }
    if path[0] != 0 || path[n] != 0 {
        return Err(InvariantViolation::WrongEndpoints);
    }
    let mut i: usize = 1;
    while i < n
        invariant
            1 <= i,
            i <= n || n == 0,
            path@.len() == n + 1,
            path@[0] == 0 && path@[n as int] == 0,
            forall|j: int| 1 <= j < i && j < n ==> 1 <= #[trigger] path@[j] < n,
        decreases n - i,
    {
        if path[i] == 0 || path[i] as usize >= n {
            assert(!(1 <= path@[i as int] < n));
            return Err(InvariantViolation::NotACity);
        }
        i += 1;
    }
    let mut seen: Vec<bool> = Vec::new();
    let mut c: usize = 0;
    while c < n
        invariant
            c <= n,
            seen@.len() == c,
            forall|k: int| 0 <= k < c ==> !#[trigger] seen@[k],
        decreases n - c,
    {
        seen.push(false);
        c += 1;
    }
    i = 1;
    while i < n
        invariant
            1 <= i,
            i <= n || n == 0,
            path@.len() == n + 1,
            path@[0] == 0 && path@[n as int] == 0,
            seen@.len() == n,
            cities_only(path@, n as nat),
            forall|a: int, b: int| 1 <= a < b < i && b < n ==> path@[a] != path@[b],
            forall|k: int|
                0 <= k < n ==> (#[trigger] seen@[k] <==> exists|j: int|
                    1 <= j < i && #[trigger] path@[j] == k),
        decreases n - i,
    {
        let city = path[i] as usize;
        assert(1 <= path@[i as int] < n);
        if seen[city] {
            let ghost j = choose|j: int| 1 <= j < i && #[trigger] path@[j] == city;
            assert(path@[j] == path@[i as int]);
            return Err(InvariantViolation::RepeatedCity);
        }
        let ghost before = seen@;
        seen[city] = true;
        proof {
            assert forall|k: int| 0 <= k < n implies (#[trigger] seen@[k] <==> exists|j: int|
                1 <= j < i + 1 && #[trigger] path@[j] == k) by {
                if k == city {
                    assert(path@[i as int] == k);
                } else {
                    assert(seen@[k] == before[k]);
                    if before[k] {
                        let j = choose|j: int| 1 <= j < i && #[trigger] path@[j] == k;
                        assert(1 <= j < i + 1 && path@[j] == k);
                    }
                    if exists|j: int| 1 <= j < i + 1 && #[trigger] path@[j] == k {
                        let j = choose|j: int| 1 <= j < i + 1 && #[trigger] path@[j] == k;
                        assert(j != i);
                        assert(1 <= j < i && path@[j] == k);
                    }
                }
            }
            assert forall|a: int, b: int| 1 <= a < b < i + 1 && b < n implies path@[a]
                != path@[b] by {
                if b == i && path@[a] == path@[b] {
                    assert(1 <= a < i && path@[a] == city);
                    assert(before[city as int]);
                }
            }
        }
        i += 1;
    }
    Ok(())
}

/// A tour through at most one city, or through a matrix of zeros, costs
/// nothing. A tour that costs nothing goes over free edges only; so there is
/// at most one city, or, where a tour takes every edge, as it does of up to
/// three cities, the whole matrix is zero. Where every edge between two
/// cities costs something, only a tour through at most one city is free.
pub proof fn lemma_free_tours(ecm: ECM, path: Seq<u32>)
    requires
        ecm.wf(),
        is_tour(path, ecm.size()),
    ensures
        ecm.size() <= 1 || ecm.costs_within(0, 0) ==> ecm.spec_path_cost(path) == 0,
        ecm.spec_path_cost(path) == 0 <==> forall|i: int|
            0 <= i < ecm.size() ==> #[trigger] ecm.edge(path, i) == 0,
        ecm.spec_path_cost(path) == 0 && ecm.size() <= 3 ==> ecm.size() <= 1 || ecm.costs_within(
            0,
            0,
        ),
        ecm.spec_path_cost(path) == 0 && ecm.costs_within(1, u32::MAX as int) ==> ecm.size() <= 1,
{
    let n = ecm.size() as int;
    ecm.lemma_free_path(path);
    assert forall|i: int| 1 <= i < n implies 1 <= #[trigger] path[i] < n by {}
    if n == 1 {
        assert(ecm.edge(path, 0) == crate::ecm::entry(ecm.ecm@, 0, 0));
    }
    if ecm.costs_within(0, 0) && n >= 1 {
        assert forall|i: int| 0 <= i < n implies #[trigger] ecm.edge(path, i) == 0 by {
            let a = path[i] as int;
            let b = path[i + 1] as int;
            if 1 <= i {
                assert(1 <= path[i] < n);
            }
            if i + 1 < n {
                assert(1 <= path[i + 1] < n);
            }
            if a == b {
                assert(crate::ecm::entry(ecm.ecm@, a, a) == 0);
            } else {
                assert(0 <= ecm.cost(a, b) <= 0);
            }
        }
    }
    if ecm.spec_path_cost(path) == 0 && n >= 2 {
        assert(ecm.edge(path, 0) == 0);
        assert(1 <= path[1] < n);
        if ecm.costs_within(1, u32::MAX as int) {
            assert(1 <= ecm.cost(0, path[1] as int));
        }
        if n <= 3 {
            assert forall|a: int, b: int| 0 <= a < n && 0 <= b < n && a != b implies 0
                <= #[trigger] ecm.cost(a, b) <= 0 by {
                assert(crate::ecm::entry(ecm.ecm@, a, b) == crate::ecm::entry(ecm.ecm@, b, a));
                assert(ecm.edge(path, 0) == 0);
                assert(ecm.edge(path, 1) == 0);
                assert(crate::ecm::entry(ecm.ecm@, 0, path[1] as int) == crate::ecm::entry(
                    ecm.ecm@,
                    path[1] as int,
                    0,
                ));
                if n == 3 {
                    assert(1 <= path[2] < n);
                    assert(path[1] != path[2]);
                    assert(ecm.edge(path, 2) == 0);
                    assert(crate::ecm::entry(ecm.ecm@, 0, path[2] as int) == crate::ecm::entry(
                        ecm.ecm@,
                        path[2] as int,
                        0,
                    ));
                    assert(crate::ecm::entry(ecm.ecm@, 1, 2) == crate::ecm::entry(ecm.ecm@, 2, 1));
                }
            }
        }
    }
}

/// In the result of a nearest-neighbour construction the cities of `path`
/// stand first; each city after them is one of `left`; and from the last
/// city of `path` on, the next city is never farther than a later one.
pub proof fn lemma_greedy_from_goes_nearest(ecm: ECM, path: Seq<u32>, left: Seq<u32>)
    requires
        path.len() >= 1,
    ensures
        greedy_from(ecm, path, left).len() == path.len() + left.len() + 1,
        forall|i: int| 0 <= i < path.len() ==> #[trigger] greedy_from(ecm, path, left)[i] == path[i],
        forall|j: int|
            path.len() <= j < path.len() + left.len() ==> left.contains(
                #[trigger] greedy_from(ecm, path, left)[j],
            ),
        forall|i: int, j: int|
            path.len() - 1 <= i < j < path.len() + left.len() ==> ecm.cost(
                greedy_from(ecm, path, left)[i] as int,
                greedy_from(ecm, path, left)[i + 1] as int,
            ) <= #[trigger] ecm.cost(
                greedy_from(ecm, path, left)[i] as int,
                greedy_from(ecm, path, left)[j] as int,
            ),
    decreases left.len(),
{
    let r = greedy_from(ecm, path, left);
    if left.len() > 0 {
        let from = path.last() as int;
        let k = nearest(ecm, from, left);
        lemma_nearest(ecm, from, left);
        let longer = path.push(left[k]);
        let fewer = swap_removed(left, k);
        lemma_greedy_from_goes_nearest(ecm, longer, fewer);
        assert(r == greedy_from(ecm, longer, fewer));
        assert forall|i: int| 0 <= i < path.len() implies #[trigger] r[i] == path[i] by {
            assert(r[i] == longer[i]);
        }
        assert(r[path.len() as int] == longer[path.len() as int]);
        assert forall|j: int| path.len() <= j < path.len() + left.len() implies left.contains(
            #[trigger] r[j],
        ) by {
            if j == path.len() {
                assert(left[k] == r[j]);
            } else {
                assert(fewer.contains(r[j]));
                let a = choose|a: int| 0 <= a < fewer.len() && fewer[a] == r[j];
                if a == k {
                    assert(left[left.len() - 1] == r[j]);
                } else {
                    assert(left[a] == r[j]);
                }
            }
        }
        assert forall|i: int, j: int| path.len() - 1 <= i < j < path.len() + left.len() implies
            ecm.cost(r[i] as int, r[i + 1] as int) <= #[trigger] ecm.cost(
            r[i] as int,
            r[j] as int,
        ) by {
            if i == path.len() - 1 {
                assert(r[i] == path[i]);
                assert(left.contains(r[j]));
                let a = choose|a: int| 0 <= a < left.len() && left[a] == r[j];
                assert(ecm.cost(from, left[k] as int) <= ecm.cost(from, left[a] as int));
            }
        }
    }
}

/// On a nearest-neighbour tour the next city is never farther than a city
/// that the tour visits later.
pub proof fn lemma_greedy_tour_goes_nearest(ecm: ECM)
    requires
        1 <= ecm.size() <= u32::MAX,
    ensures
        forall|i: int, j: int|
            0 <= i < j < ecm.size() ==> ecm.cost(
                greedy_tour(ecm)[i] as int,
                greedy_tour(ecm)[i + 1] as int,
            ) <= #[trigger] ecm.cost(greedy_tour(ecm)[i] as int, greedy_tour(ecm)[j] as int),
{
    lemma_greedy_from_goes_nearest(ecm, seq![0u32], cities(ecm.size()));
}

/// The start of every construction is a partial tour.
pub proof fn lemma_partial_start(n: nat)
    requires
        1 <= n <= u32::MAX,
    ensures
        partial(seq![0u32], cities(n), n),
{
}

/// Where element `i` stood before a visit: `p` cities had been visited, and
/// city `k` of those left, `n` cities in all, was visited next.
pub open spec fn origin(p: int, k: int, n: int, i: int) -> int {
    if i < p {
        i
    } else if i == p {
        p + k
    } else if i - p - 1 == k {
        n - 1
    } else {
        i - 1
    }
}

/// Visiting one of the cities that are left keeps a partial tour partial.
pub proof fn lemma_partial_visit(path: Seq<u32>, left: Seq<u32>, n: nat, k: int)
    requires
        partial(path, left, n),
        0 <= k < left.len(),
    ensures
        partial(path.push(left[k]), swap_removed(left, k), n),
{
    let all = path + left;
    let next = path.push(left[k]) + swap_removed(left, k);
    let p = path.len() as int;
    assert forall|i: int| 0 <= i < n implies next[i] == all[#[trigger] origin(p, k, n as int, i)]
        && 0 <= origin(p, k, n as int, i) < n && (i >= 1 ==> origin(p, k, n as int, i) >= 1) by {}
    assert forall|i: int| 1 <= i < n implies 1 <= #[trigger] next[i] < n by {
        assert(next[i] == all[origin(p, k, n as int, i)]);
    }
    assert forall|i: int, j: int| 0 <= i < j < n implies next[i] != next[j] by {
        assert(next[i] == all[origin(p, k, n as int, i)]);
        assert(next[j] == all[origin(p, k, n as int, j)]);
        assert(origin(p, k, n as int, i) != origin(p, k, n as int, j));
    }
    assert(next[0] == all[origin(p, k, n as int, 0)]);
}

/// Going home once no city is left completes the tour.
pub proof fn lemma_partial_close(path: Seq<u32>, left: Seq<u32>, n: nat)
    requires
        partial(path, left, n),
        left.len() == 0,
    ensures
        is_tour(path.push(0), n),
{
    assert(path + left =~= path);
}

/// Nearest-neighbour construction from a partial tour gives a tour.
pub proof fn lemma_greedy_from_is_tour(ecm: ECM, path: Seq<u32>, left: Seq<u32>, n: nat)
    requires
        partial(path, left, n),
    ensures
        is_tour(greedy_from(ecm, path, left), n),
    decreases left.len(),
{
    if left.len() == 0 {
        lemma_partial_close(path, left, n);
    } else {
        let k = nearest(ecm, path.last() as int, left);
        lemma_nearest(ecm, path.last() as int, left);
        lemma_partial_visit(path, left, n, k);
        lemma_greedy_from_is_tour(ecm, path.push(left[k]), swap_removed(left, k), n);
    }
}

/// The nearest-neighbour tour of a matrix for at least one city is a tour.
pub proof fn lemma_greedy_tour_is_tour(ecm: ECM)
    requires
        1 <= ecm.size() <= u32::MAX,
    ensures
        is_tour(greedy_tour(ecm), ecm.size()),
{
    lemma_partial_start(ecm.size());
    lemma_greedy_from_is_tour(ecm, seq![0u32], cities(ecm.size()), ecm.size());
}

/// A tour names only cities of its matrix, and its cost fits in a `u64`.
pub proof fn lemma_tour_is_payable(ecm: ECM, path: Seq<u32>)
    requires
        is_tour(path, ecm.size()),
        1 <= ecm.size() <= u32::MAX,
    ensures
        ecm.knows(path),
        ecm.can_cost(path),
        0 <= ecm.spec_path_cost(path) <= u64::MAX,
{
    let n = ecm.size();
    assert forall|i: int| 0 <= i < path.len() implies #[trigger] path[i] < n by {
        if 1 <= i < n {
            assert(1 <= path[i] < n);
        }
    }
    ecm.lemma_path_cost_fits(path);
}

/// Any order of the cities other than home, with home put before and after
/// it, is a tour.
pub proof fn lemma_reordered_cities_make_tour(middle: Seq<u32>, n: nat)
    requires
        1 <= n <= u32::MAX,
        middle.to_multiset() == cities(n).to_multiset(),
    ensures
        is_tour(middle.insert(0, 0u32).push(0u32), n),
{
    let all = cities(n);
    vstd::seq_lib::to_multiset_len(middle);
    vstd::seq_lib::to_multiset_len(all);
    assert forall|i: int| 0 <= i < middle.len() implies 1 <= #[trigger] middle[i] < n by {
        let x = middle[i];
        assert(middle.contains(x));
        vstd::seq_lib::to_multiset_contains(middle, x);
        vstd::seq_lib::to_multiset_contains(all, x);
        let j = choose|j: int| 0 <= j < all.len() && all[j] == x;
        assert(all[j] == j + 1);
    }
    assert(all.no_duplicates());
    all.lemma_multiset_has_no_duplicates();
    middle.lemma_multiset_has_no_duplicates_conv();
    let path = middle.insert(0, 0u32).push(0u32);
    assert forall|i: int| 1 <= i < n implies 1 <= #[trigger] path[i] < n by {
        assert(path[i] == middle[i - 1]);
    }
    assert forall|i: int, j: int| 1 <= i < j < n implies path[i] != path[j] by {
        assert(path[i] == middle[i - 1]);
        assert(path[j] == middle[j - 1]);
    }
}

/// The cities other than home, in ascending order.
pub fn other_cities(n: usize) -> (v: Vec<u32>)
    requires
        n <= u32::MAX,
    ensures
        v@ == cities(n as nat),
{
    let mut v: Vec<u32> = Vec::new();
    let mut c: usize = 1;
    while c < n
        invariant
            1 <= c,
            c <= n || (n == 0 && c == 1),
            n <= u32::MAX,
            v@.len() == c - 1,
            forall|i: int| 0 <= i < c - 1 ==> v@[i] == i + 1,
        decreases n - c,
    {
        v.push(c as u32);
        c += 1;
    }
    assert(v@ =~= cities(n as nat));
    v
}

/// Home, then the other cities in ascending order, then home.
pub fn home_path(n: usize) -> (v: Vec<u32>)
    requires
        n <= u32::MAX,
    ensures
        v@ == home_order(n as nat),
{
    let mut v: Vec<u32> = Vec::new();
    let mut c: usize = 0;
    while c < n
        invariant
            c <= n <= u32::MAX,
            v@.len() == c,
            forall|i: int| 0 <= i < c ==> v@[i] == i,
        decreases n - c,
    {
        v.push(c as u32);
        c += 1;
    }
    v.push(0u32);
    assert(v@ =~= home_order(n as nat));
    v
}

/// A tour under construction: the cities visited so far, in order, and the
/// cities still to visit.
pub struct Route {
    n: usize,
    path: Vec<u32>,
    left: Vec<u32>,
}

impl Route {
    /// The number of cities of the tour.
    pub closed spec fn size(&self) -> nat {
        self.n as nat
    }

    /// The cities visited so far, home first.
    pub closed spec fn visited(&self) -> Seq<u32> {
        self.path@
    }

    /// The cities still to visit, in the order in which they are offered.
    pub closed spec fn unvisited(&self) -> Seq<u32> {
        self.left@
    }

    /// The route starts at home and holds each city once, visited or not.
    pub open spec fn wf(&self) -> bool {
        partial(self.visited(), self.unvisited(), self.size())
    }

    /// A route that has not left home yet.
    pub fn start(n: usize) -> (r: Route)
        requires
            1 <= n <= u32::MAX,
        ensures
            r.wf(),
            r.size() == n,
            r.visited() == seq![0u32],
            r.unvisited() == cities(n as nat),
    {
        let left = other_cities(n);
        let mut path: Vec<u32> = Vec::new();
        path.push(0u32);
        proof {
            assert(path@ =~= seq![0u32]);
            lemma_partial_start(n as nat);
        }
        Route { n, path, left }
    }

    /// The city the route has reached.
    pub fn last(&self) -> (c: u32)
        requires
            self.wf(),
        ensures
            c == self.visited().last(),
            c < self.size(),
    {
        proof {
            let all = self.path@ + self.left@;
            let i = self.path@.len() - 1;
            assert(all[i] == self.path@[i]);
            if i >= 1 {
                assert(1 <= all[i] < self.n);
            }
        }
        self.path[self.path.len() - 1]
    }

    /// The cities still to visit.
    pub fn left(&self) -> (l: &Vec<u32>)
        ensures
            l@ == self.unvisited(),
    {
        &self.left
    }

    /// Whether every city has been visited.
    pub fn is_complete(&self) -> (b: bool)
        ensures
            b <==> self.unvisited().len() == 0,
    {
        self.left.len() == 0
    }

    /// Goes to city `k` of those still to visit. The last of them takes its
    /// place in the list.
    pub fn visit(&mut self, k: usize)
        requires
            old(self).wf(),
            k < old(self).unvisited().len(),
        ensures
            final(self).wf(),
            final(self).size() == old(self).size(),
            final(self).visited() == old(self).visited().push(old(self).unvisited()[k as int]),
            final(self).unvisited() == swap_removed(old(self).unvisited(), k as int),
    {
        proof {
            lemma_partial_visit(self.path@, self.left@, self.n as nat, k as int);
        }
        let city = self.left.swap_remove(k);
        self.path.push(city);
    }

    /// Goes home and hands the finished tour out.
    pub fn close(self) -> (path: Vec<u32>)
        requires
            self.wf(),
            self.unvisited().len() == 0,
        ensures
            path@ == self.visited().push(0),
            is_tour(path@, self.size()),
    {
        proof {
            lemma_partial_close(self.path@, self.left@, self.n as nat);
        }
        let mut path = self.path;
        path.push(0u32);
        path
    }
}

} // verus!
