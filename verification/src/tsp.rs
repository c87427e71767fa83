//! The record of the best tour seen, and the search strategies that fill it.

use crate::ecm::ECM;
use crate::heap::{after_rounds, exact_paths, factorial, lemma_exact_paths, lemma_swap_keeps_tour,
    rounds_paths, swapped};
use crate::tour::{check_tour, cities, greedy_from, greedy_tour, home_order, home_path, is_tour,
    lemma_greedy_tour_goes_nearest, lemma_greedy_tour_is_tour, lemma_reordered_cities_make_tour,
    lemma_tour_is_payable, nearest, other_cities, tour_fault, InvariantViolation, Route};
use rand::Rng;
use vstd::prelude::*;
use vstd::slice::slice_to_vec;

verus! {

/// Index of the cheapest path of `h`; of several equally cheap, the first.
pub open spec fn best_index(ecm: ECM, h: Seq<Seq<u32>>) -> int
    decreases h.len(),
{
    if h.len() <= 1 {
        0
    } else {
        let k = best_index(ecm, h.drop_last());
        if ecm.spec_path_cost(h.last()) < ecm.spec_path_cost(h[k]) {
            h.len() - 1
        } else {
            k
        }
    }
}

/// The best path is one of `h`, none of `h` is cheaper, and none before it
/// is as cheap.
pub proof fn lemma_best_index(ecm: ECM, h: Seq<Seq<u32>>)
    requires
        h.len() > 0,
    ensures
        0 <= best_index(ecm, h) < h.len(),
        forall|j: int|
            0 <= j < h.len() ==> ecm.spec_path_cost(h[best_index(ecm, h)]) <= ecm.spec_path_cost(
                #[trigger] h[j],
            ),
        forall|j: int|
            0 <= j < best_index(ecm, h) ==> ecm.spec_path_cost(h[best_index(ecm, h)])
                < ecm.spec_path_cost(#[trigger] h[j]),
    decreases h.len(),
{
    if h.len() > 1 {
        let shorter = h.drop_last();
        lemma_best_index(ecm, shorter);
        assert forall|j: int| 0 <= j < h.len() implies ecm.spec_path_cost(h[best_index(ecm, h)])
            <= ecm.spec_path_cost(#[trigger] h[j]) by {
            if j < h.len() - 1 {
                assert(shorter[j] == h[j]);
            }
        }
        assert forall|j: int| 0 <= j < best_index(ecm, h) implies ecm.spec_path_cost(
            h[best_index(ecm, h)],
        ) < ecm.spec_path_cost(#[trigger] h[j]) by {
            assert(shorter[j] == h[j]);
        }
    }
}

/// The best cost of a record with a history is the least cost in it.
pub proof fn lemma_best_is_least(ecm: ECM, info: TSPInfo, q: Seq<u32>)
    requires
        info.tracks(ecm),
        info.history@.contains(q),
    ensures
        info.best_path is Some,
        info.best_cost <= ecm.spec_path_cost(q),
{
    lemma_best_index(ecm, info.history@);
}

/// Two records that track the same history of the same matrix hold the
/// same best path and the same best cost. So a record that was emptied holds,
/// after a search that always offers the same paths, what it held after that
/// search the last time.
pub proof fn lemma_record_follows_history(ecm: ECM, a: TSPInfo, b: TSPInfo)
    requires
        a.tracks(ecm),
        b.tracks(ecm),
        a.history@ == b.history@,
    ensures
        a.best_cost == b.best_cost,
        a.best_path is Some <==> b.best_path is Some,
        a.best_path is Some ==> a.best_path->0@ == b.best_path->0@,
{
}

/// Nearest-neighbour search on an empty record leaves the same best path
/// and the same best cost each time.
pub proof fn lemma_greedy_repeats(ecm: ECM, first: TSPInfo, again: TSPInfo)
    requires
        first.tracks(ecm),
        again.tracks(ecm),
        first.history@ == Seq::<Seq<u32>>::empty().push(greedy_tour(ecm)),
        again.history@ == Seq::<Seq<u32>>::empty().push(greedy_tour(ecm)),
    ensures
        first.best_cost == again.best_cost,
        first.best_path matches Some(p) && again.best_path matches Some(q) && p@ == q@ && p@
            == greedy_tour(ecm),
{
    lemma_record_follows_history(ecm, first, again);
    assert(best_index(ecm, first.history@) == 0);
}

/// Exhaustive search on an empty record leaves the same best path and the
/// same best cost each time.
pub proof fn lemma_exact_search_repeats(ecm: ECM, first: TSPInfo, again: TSPInfo)
    requires
        1 <= ecm.size() <= u32::MAX,
        first.tracks(ecm),
        again.tracks(ecm),
        first.history@ == Seq::<Seq<u32>>::empty() + exact_paths(ecm.size()),
        again.history@ == Seq::<Seq<u32>>::empty() + exact_paths(ecm.size()),
    ensures
        first.best_cost == again.best_cost,
        first.best_path matches Some(p) && again.best_path matches Some(q) && p@ == q@ && is_tour(
            p@,
            ecm.size(),
        ),
{
    lemma_record_follows_history(ecm, first, again);
    lemma_exact_paths(ecm.size());
    crate::heap::lemma_factorial_positive((ecm.size() - 1) as nat);
    let h = first.history@;
    assert(h =~= exact_paths(ecm.size()));
    lemma_best_index(ecm, h);
    assert(h.contains(h[best_index(ecm, h)]));
}

/// No search finds a cheaper tour than exhaustive search: a record that
/// was offered every tour holds a best cost no higher than that of a record
/// that was offered tours only.
pub proof fn lemma_exact_search_is_optimal(ecm: ECM, exact: TSPInfo, other: TSPInfo)
    requires
        exact.tracks(ecm),
        other.tracks(ecm),
        forall|q: Seq<u32>| #[trigger] is_tour(q, ecm.size()) ==> exact.history@.contains(q),
        other.history@.len() > 0,
        forall|k: int|
            0 <= k < other.history@.len() ==> is_tour(#[trigger] other.history@[k], ecm.size()),
    ensures
        exact.best_cost <= other.best_cost,
{
    let h = other.history@;
    lemma_best_index(ecm, h);
    let q = h[best_index(ecm, h)];
    assert(is_tour(q, ecm.size()));
    lemma_best_is_least(ecm, exact, q);
}

/// What one strategy has found so far: the best path, its cost, and the
/// number of paths looked at.
pub struct TSPInfo {
    pub best_path: Option<Vec<u32>>,
    pub best_cost: u64,
    pub paths_checked: u64,
    /// The paths that count as looked at since the record was last empty,
    /// oldest first.
    pub history: Ghost<Seq<Seq<u32>>>,
}

impl TSPInfo {
    /// The best path and its cost are those of the first cheapest path of the
    /// history; an empty history has neither.
    pub open spec fn tracks(&self, ecm: ECM) -> bool {
        let h = self.history@;
        if h.len() == 0 {
            self.best_path is None && self.best_cost == 0
        } else {
            &&& self.best_path matches Some(p)
            &&& p@ == h[best_index(ecm, h)]
            &&& self.best_cost == ecm.spec_path_cost(p@)
        }
    }

    /// The record tracks its history and has counted every path of it.
    pub open spec fn wf(&self, ecm: ECM) -> bool {
        self.tracks(ecm) && self.paths_checked == self.history@.len()
    }

    /// Nothing looked at yet.
    pub open spec fn is_empty(&self) -> bool {
        &&& self.best_path is None
        &&& self.best_cost == 0
        &&& self.paths_checked == 0
        &&& self.history@.len() == 0
    }

    /// An empty record.
    pub fn new() -> (info: TSPInfo)
        ensures
            info.is_empty(),
    {
        TSPInfo { best_path: None, best_cost: 0, paths_checked: 0, history: Ghost(Seq::empty()) }
    }

    /// Empties the record.
    pub fn reset(&mut self)
        ensures
            final(self).is_empty(),
    {
        self.best_path = None;
        self.best_cost = 0;
        self.paths_checked = 0;
        self.history = Ghost(Seq::empty());
    }

    /// Looks at one more path: counts it, and keeps it if the record is empty
    /// or the path is cheaper than the best so far. The count must have room
    /// for one more.
    pub fn consider(&mut self, ecm: &ECM, path: &[u32])
        requires
            ecm.is_square(),
            ecm.can_cost(path@),
            old(self).tracks(*ecm),
            old(self).paths_checked < u64::MAX,
        ensures
            final(self).tracks(*ecm),
            final(self).history@ == old(self).history@.push(path@),
            final(self).paths_checked == old(self).paths_checked + 1,
            old(self).best_path is None || ecm.spec_path_cost(path@) < old(self).best_cost ==> {
                &&& final(self).best_path matches Some(p)
                &&& p@ == path@
                &&& final(self).best_cost == ecm.spec_path_cost(path@)
            },
            old(self).best_path is Some && ecm.spec_path_cost(path@) >= old(self).best_cost ==> {
                &&& final(self).best_path == old(self).best_path
                &&& final(self).best_cost == old(self).best_cost
            },
    {
        let new_cost = ecm.path_cost(path);
        self.paths_checked += 1;
        let improves = match &self.best_path {
            None => true,
            Some(_) => new_cost < self.best_cost,
        };
        if improves {
            self.best_path = Some(slice_to_vec(path));
            self.best_cost = new_cost;
        }
        proof {
            let h = old(self).history@;
            assert(h.push(path@).drop_last() =~= h);
            if h.len() > 0 {
                lemma_best_index(*ecm, h);
            }
        }
        self.history = Ghost(self.history@.push(path@));
    }
}

/// One cost matrix, and a record for each of the four strategies.
pub struct TSP {
    pub ecm: ECM,
    pub brute_info: TSPInfo,
    pub greedy_info: TSPInfo,
    pub monte_info: TSPInfo,
    pub ant_system_info: TSPInfo,
}

impl TSP {
    /// The matrix is square, and a `u32` can name each of its cities.
    pub open spec fn ready(&self) -> bool {
        self.ecm.is_square() && self.ecm.size() <= u32::MAX
    }

    /// The matrix is ready, and each record tracks and has counted its
    /// history.
    pub open spec fn wf(&self) -> bool {
        &&& self.ready()
        &&& self.brute_info.wf(self.ecm)
        &&& self.greedy_info.wf(self.ecm)
        &&& self.monte_info.wf(self.ecm)
        &&& self.ant_system_info.wf(self.ecm)
    }

    /// Takes the matrix and starts with four empty records.
    pub fn new(ecm: ECM) -> (tsp: TSP)
        ensures
            tsp.ecm == ecm,
            tsp.brute_info.is_empty(),
            tsp.greedy_info.is_empty(),
            tsp.monte_info.is_empty(),
            tsp.ant_system_info.is_empty(),
            ecm.is_square() && ecm.size() <= u32::MAX ==> tsp.wf(),
    {
        TSP {
            ecm,
            brute_info: TSPInfo::new(),
            greedy_info: TSPInfo::new(),
            monte_info: TSPInfo::new(),
            ant_system_info: TSPInfo::new(),
        }
    }

    /// Offers `path` to `info`: see [`TSPInfo::consider`].
    pub fn update_best(&self, path: &[u32], info: &mut TSPInfo)
        requires
            self.ecm.is_square(),
            self.ecm.can_cost(path@),
            old(info).tracks(self.ecm),
            old(info).paths_checked < u64::MAX,
        ensures
            final(info).tracks(self.ecm),
            final(info).history@ == old(info).history@.push(path@),
            final(info).paths_checked == old(info).paths_checked + 1,
            old(info).best_path is None || self.ecm.spec_path_cost(path@) < old(info).best_cost ==> {
                &&& final(info).best_path matches Some(p)
                &&& p@ == path@
                &&& final(info).best_cost == self.ecm.spec_path_cost(path@)
            },
            old(info).best_path is Some && self.ecm.spec_path_cost(path@) >= old(info).best_cost
                ==> {
                &&& final(info).best_path == old(info).best_path
                &&& final(info).best_cost == old(info).best_cost
            },
    {
        info.consider(&self.ecm, path);
    }

    /// Offers `path` to `info` as [`TSP::update_best`] does, if it is a tour
    /// of the matrix's cities. If it is not, says what is wrong with it and
    /// leaves the record as it was.
    pub fn try_update_best(&self, path: &[u32], info: &mut TSPInfo) -> (r: Result<
        (),
        InvariantViolation,
    >)
        requires
            self.ready(),
            old(info).tracks(self.ecm),
            old(info).paths_checked < u64::MAX,
        ensures
            r is Ok <==> is_tour(path@, self.ecm.size()),
            r == match tour_fault(path@, self.ecm.size()) {
                Some(fault) => Err::<(), InvariantViolation>(fault),
                None => Ok::<(), InvariantViolation>(()),
            },
            r is Err ==> *final(info) == *old(info),
            r is Ok ==> {
                &&& final(info).tracks(self.ecm)
                &&& final(info).history@ == old(info).history@.push(path@)
                &&& final(info).paths_checked == old(info).paths_checked + 1
            },
            r is Ok && (old(info).best_path is None || self.ecm.spec_path_cost(path@) < old(
                info,
            ).best_cost) ==> {
                &&& final(info).best_path matches Some(p)
                &&& p@ == path@
                &&& final(info).best_cost == self.ecm.spec_path_cost(path@)
            },
            r is Ok && old(info).best_path is Some && self.ecm.spec_path_cost(path@) >= old(
                info,
            ).best_cost ==> {
                &&& final(info).best_path == old(info).best_path
                &&& final(info).best_cost == old(info).best_cost
            },
    {
        let n = self.ecm.ecm.len();
        match check_tour(path, n) {
            Err(fault) => Err(fault),
            Ok(()) => {
                proof {
                    if n >= 1 {
                        lemma_tour_is_payable(self.ecm, path@);
                    }
                }
                info.consider(&self.ecm, path);
                Ok(())
            },
        }
    }

    /// Index in `left` of the city nearest to `from`; of several equally
    /// near, the first.
    pub fn nearest_of(&self, from: u32, left: &Vec<u32>) -> (k: usize)
        requires
            self.ecm.is_square(),
            from < self.ecm.size(),
            self.ecm.knows(left@),
            left@.len() > 0,
        ensures
            k == nearest(self.ecm, from as int, left@),
            k < left@.len(),
    {
        let prev = from as usize;
        let mut idx: usize = 0;
        let mut i: usize = 1;
        while i < left.len()
            invariant
                1 <= i <= left@.len(),
                prev == from,
                self.ecm.is_square(),
                from < self.ecm.size(),
                self.ecm.knows(left@),
                idx < i,
                idx == nearest(self.ecm, from as int, left@.take(i as int)),
            decreases left@.len() - i,
        {
            let cur = left[i] as usize;
            let least = left[idx] as usize;
            proof {
                assert(left@.take(i + 1).drop_last() =~= left@.take(i as int));
                assert(left@[i as int] < self.ecm.size());
                assert(left@[idx as int] < self.ecm.size());
                assert(self.ecm.ecm@[prev as int]@.len() == self.ecm.size());
            }
            if self.ecm.ecm[prev][cur] < self.ecm.ecm[prev][least] {
                idx = i;
            }
            i += 1;
        }
        assert(left@.take(i as int) =~= left@);
        idx
    }

    /// Nearest-neighbour search: from the home city always on to the nearest
    /// city not yet visited, then home. The one tour that results is offered
    /// to the greedy record. There must be a home city to start from.
    pub fn greedy(&mut self)
        requires
            old(self).ready(),
            old(self).ecm.size() >= 1,
            old(self).greedy_info.tracks(old(self).ecm),
            old(self).greedy_info.paths_checked < u64::MAX,
        ensures
            final(self).ecm == old(self).ecm,
            final(self).brute_info == old(self).brute_info,
            final(self).monte_info == old(self).monte_info,
            final(self).ant_system_info == old(self).ant_system_info,
            is_tour(greedy_tour(old(self).ecm), old(self).ecm.size()),
            final(self).greedy_info.tracks(final(self).ecm),
            final(self).greedy_info.history@ == old(self).greedy_info.history@.push(
                greedy_tour(old(self).ecm),
            ),
            final(self).greedy_info.paths_checked == old(self).greedy_info.paths_checked + 1,
            forall|i: int, j: int|
                0 <= i < j < old(self).ecm.size() ==> old(self).ecm.cost(
                    greedy_tour(old(self).ecm)[i] as int,
                    greedy_tour(old(self).ecm)[i + 1] as int,
                ) <= #[trigger] old(self).ecm.cost(
                    greedy_tour(old(self).ecm)[i] as int,
                    greedy_tour(old(self).ecm)[j] as int,
                ),
            old(self).greedy_info.best_path is None || old(self).ecm.spec_path_cost(
                greedy_tour(old(self).ecm),
            ) < old(self).greedy_info.best_cost ==> {
                &&& final(self).greedy_info.best_path matches Some(p)
                &&& p@ == greedy_tour(old(self).ecm)
                &&& final(self).greedy_info.best_cost == old(self).ecm.spec_path_cost(p@)
            },
            old(self).greedy_info.best_path is Some && old(self).ecm.spec_path_cost(
                greedy_tour(old(self).ecm),
            ) >= old(self).greedy_info.best_cost ==> {
                &&& final(self).greedy_info.best_path == old(self).greedy_info.best_path
                &&& final(self).greedy_info.best_cost == old(self).greedy_info.best_cost
            },
    {
        let n = self.ecm.ecm.len();
        proof {
            lemma_greedy_tour_goes_nearest(self.ecm);
        }
        let mut route = Route::start(n);
        while !route.is_complete()
            invariant
                self.ready(),
                route.wf(),
                route.size() == self.ecm.size(),
                greedy_from(self.ecm, route.visited(), route.unvisited()) == greedy_tour(self.ecm),
            decreases route.unvisited().len(),
        {
            let prev = route.last();
            proof {
                let all = route.visited() + route.unvisited();
                assert forall|i: int| 0 <= i < route.unvisited().len() implies
                    #[trigger] route.unvisited()[i] < self.ecm.size() by {
                    assert(all[route.visited().len() + i] == route.unvisited()[i]);
                }
            }
            let k = self.nearest_of(prev, route.left());
            route.visit(k);
        }
        let path = route.close();
        proof {
            lemma_greedy_tour_is_tour(self.ecm);
            lemma_tour_is_payable(self.ecm, path@);
        }
        self.greedy_info.consider(&self.ecm, path.as_slice());
    }

    /// One level of the exhaustive search: visits every order of the cities
    /// at positions `1 .. size` of `path`, and offers each path to the
    /// brute-force record.
    fn brute(&mut self, path: &mut Vec<u32>, size: usize)
        requires
            old(self).ready(),
            1 <= size <= old(self).ecm.size(),
            is_tour(old(path)@, old(self).ecm.size()),
            old(self).brute_info.tracks(old(self).ecm),
            old(self).brute_info.paths_checked + factorial((size - 1) as nat) <= u64::MAX,
        ensures
            final(self).ecm == old(self).ecm,
            final(self).greedy_info == old(self).greedy_info,
            final(self).monte_info == old(self).monte_info,
            final(self).ant_system_info == old(self).ant_system_info,
            final(path)@ == after_rounds(old(path)@, size as nat, (size - 1) as nat),
            is_tour(final(path)@, old(self).ecm.size()),
            final(self).brute_info.tracks(final(self).ecm),
            final(self).brute_info.history@ == old(self).brute_info.history@ + rounds_paths(
                old(path)@,
                size as nat,
                (size - 1) as nat,
            ),
            final(self).brute_info.paths_checked == old(self).brute_info.paths_checked
                + factorial((size - 1) as nat),
        decreases size,
    {
        let ghost begun = path@;
        let ghost h0 = self.brute_info.history@;
        let ghost c0 = self.brute_info.paths_checked;
        let ghost n = self.ecm.size();
        if size == 1 {
            proof {
                lemma_tour_is_payable(self.ecm, path@);
            }
            self.brute_info.consider(&self.ecm, path.as_slice());
            assert(h0.push(begun) =~= h0 + seq![begun]);
            return ;
        }
        let ghost e0 = self.ecm;
        let ghost g0 = self.greedy_info;
        let ghost m0 = self.monte_info;
        let ghost a0 = self.ant_system_info;
        let ghost f = factorial((size - 2) as nat) as int;
        assert(factorial((size - 1) as nat) == (size - 1) * f);
        assert(h0 + rounds_paths(begun, size as nat, 0) =~= h0);
        let mut i: usize = 1;
        while i < size
            invariant
                2 <= size <= n,
                1 <= i <= size,
                n == e0.size(),
                f == factorial((size - 2) as nat),
                self.ready(),
                self.ecm == e0,
                self.greedy_info == g0,
                self.monte_info == m0,
                self.ant_system_info == a0,
                path@ == after_rounds(begun, size as nat, (i - 1) as nat),
                is_tour(path@, n),
                self.brute_info.tracks(self.ecm),
                self.brute_info.history@ == h0 + rounds_paths(begun, size as nat, (i - 1) as nat),
                self.brute_info.paths_checked == c0 + (i - 1) * f,
                c0 + (size - 1) * f <= u64::MAX,
            decreases size - i,
        {
            let ghost before = path@;
            let ghost hb = self.brute_info.history@;
            proof {
                assert((i - 1) * f + f <= (size - 1) * f) by (nonlinear_arith)
                    requires
                        1 <= i < size,
                        f >= 0,
                ;
                assert((i - 1) * f + f == i * f) by (nonlinear_arith);
            }
            self.brute(path, size - 1);
            let ghost inner = path@;
            let other = if size % 2 == 1 {
                1
            } else {
                i
            };
            swap_cities(path, other, size - 1);
            proof {
                lemma_swap_keeps_tour(inner, n, other as int, size - 1);
                let w = rounds_paths(before, (size - 1) as nat, (size - 2) as nat);
                let v = rounds_paths(begun, size as nat, (i - 1) as nat);
                assert(rounds_paths(begun, size as nat, i as nat) == v + w);
                assert((h0 + v) + w =~= h0 + (v + w));
                assert(path@ == after_rounds(begun, size as nat, i as nat));
            }
            i += 1;
        }
    }

    /// Exhaustive search: offers every tour to the brute-force record, each
    /// once. For no city at all there is no tour, and nothing happens. The
    /// record's count must have room for the `(n - 1)!` tours of `n` cities.
    pub fn brute_force(&mut self)
        requires
            old(self).ready(),
            old(self).brute_info.tracks(old(self).ecm),
            old(self).ecm.size() >= 1 ==> old(self).brute_info.paths_checked + factorial(
                (old(self).ecm.size() - 1) as nat,
            ) <= u64::MAX,
        ensures
            final(self).ecm == old(self).ecm,
            final(self).greedy_info == old(self).greedy_info,
            final(self).monte_info == old(self).monte_info,
            final(self).ant_system_info == old(self).ant_system_info,
            final(self).brute_info.tracks(final(self).ecm),
            old(self).ecm.size() == 0 ==> final(self).brute_info == old(self).brute_info,
            old(self).ecm.size() >= 1 ==> {
                let n = old(self).ecm.size();
                &&& final(self).brute_info.history@ == old(self).brute_info.history@ + exact_paths(n)
                &&& final(self).brute_info.paths_checked == old(self).brute_info.paths_checked
                    + factorial((n - 1) as nat)
                &&& exact_paths(n).len() == factorial((n - 1) as nat)
                &&& exact_paths(n).no_duplicates()
                &&& forall|q: Seq<u32>| #[trigger] exact_paths(n).contains(q) <==> is_tour(q, n)
                &&& final(self).brute_info.best_path is Some
                &&& old(self).brute_info.history@.len() == 0 ==> is_tour(
                    final(self).brute_info.best_path->0@,
                    n,
                )
                &&& forall|q: Seq<u32>| #[trigger]
                    is_tour(q, n) ==> final(self).brute_info.best_cost
                        <= final(self).ecm.spec_path_cost(q)
            },
    {
        let n = self.ecm.ecm.len();
        if n == 0 {
            return ;
        }
        let mut path = home_path(n);
        let ghost h0 = self.brute_info.history@;
        proof {
            lemma_exact_paths(n as nat);
            crate::heap::lemma_tours_arrange_home_order(n as nat, path@);
        }
        self.brute(&mut path, n);
        proof {
            let added = exact_paths(n as nat);
            let h = self.brute_info.history@;
            assert(added.contains(home_order(n as nat)));
            assert forall|q: Seq<u32>| #[trigger] is_tour(q, n as nat) implies h.contains(q) by {
                assert(added.contains(q));
                let i = choose|i: int| 0 <= i < added.len() && added[i] == q;
                assert(h[h0.len() + i] == q);
            }
            assert forall|q: Seq<u32>| #[trigger]
                is_tour(q, n as nat) implies self.brute_info.best_cost <= self.ecm.spec_path_cost(
                q,
            ) by {
                lemma_best_is_least(self.ecm, self.brute_info, q);
            }
            lemma_best_is_least(self.ecm, self.brute_info, home_order(n as nat));
            if h0.len() == 0 {
                assert(h =~= added);
                lemma_best_index(self.ecm, h);
                assert(added.contains(h[best_index(self.ecm, h)]));
            }
        }
    }

    /// Random search: offers `trials` tours to the Monte Carlo record, each
    /// the cities in an order drawn afresh. Without a city there is nothing
    /// to try, and the record's count must have room for the trials.
    pub fn monte_carlo(&mut self, trials: usize)
        requires
            old(self).ready(),
            trials > 0 ==> old(self).ecm.size() >= 1,
            old(self).monte_info.tracks(old(self).ecm),
            old(self).monte_info.paths_checked + trials <= u64::MAX,
        ensures
            final(self).ecm == old(self).ecm,
            final(self).brute_info == old(self).brute_info,
            final(self).greedy_info == old(self).greedy_info,
            final(self).ant_system_info == old(self).ant_system_info,
            final(self).monte_info.tracks(final(self).ecm),
            final(self).monte_info.paths_checked == old(self).monte_info.paths_checked + trials,
            final(self).monte_info.history@.len() == old(self).monte_info.history@.len() + trials,
            final(self).monte_info.history@.take(old(self).monte_info.history@.len() as int) == old(self).monte_info.history@,
            forall|k: int|
                old(self).monte_info.history@.len() <= k < final(self).monte_info.history@.len()
                    ==> is_tour(#[trigger] final(self).monte_info.history@[k], old(self).ecm.size()),
    {
        let ghost e0 = self.ecm;
        let ghost b0 = self.brute_info;
        let ghost g0 = self.greedy_info;
        let ghost a0 = self.ant_system_info;
        let ghost h0 = self.monte_info.history@;
        let ghost c0 = self.monte_info.paths_checked;
        let n = self.ecm.ecm.len();
        let src = other_cities(n);
        assert(h0.take(h0.len() as int) =~= h0);
        let mut t: usize = 0;
        while t < trials
            invariant
                t <= trials,
                trials > 0 ==> n >= 1,
                n == e0.size(),
                src@ == cities(n as nat),
                self.ready(),
                self.ecm == e0,
                self.brute_info == b0,
                self.greedy_info == g0,
                self.ant_system_info == a0,
                self.monte_info.tracks(self.ecm),
                self.monte_info.paths_checked == c0 + t,
                c0 + trials <= u64::MAX,
                self.monte_info.history@.len() == h0.len() + t,
                self.monte_info.history@.take(h0.len() as int) == h0,
                forall|k: int|
                    h0.len() <= k < self.monte_info.history@.len() ==> is_tour(
                        #[trigger] self.monte_info.history@[k],
                        n as nat,
                    ),
            decreases trials - t,
        {
            let ghost hb = self.monte_info.history@;
            let mut path = slice_to_vec(src.as_slice());
            shuffle(&mut path);
            let ghost middle = path@;
            path.insert(0, 0u32);
            path.push(0u32);
            proof {
                lemma_reordered_cities_make_tour(middle, n as nat);
                lemma_tour_is_payable(self.ecm, path@);
            }
            self.monte_info.consider(&self.ecm, path.as_slice());
            proof {
                assert(self.monte_info.history@.take(h0.len() as int) =~= hb.take(h0.len() as int));
            }
            t += 1;
        }
    }
}

/// Exchanges the cities at `a` and `b`.
fn swap_cities(path: &mut Vec<u32>, a: usize, b: usize)
    requires
        a < old(path)@.len(),
        b < old(path)@.len(),
    ensures
        final(path)@ == swapped(old(path)@, a as int, b as int),
{
    let x = path[a];
    let y = path[b];
    path[a] = y;
    path[b] = x;
}

/// Puts the elements in a random order: `rand::thread_rng()`, then
/// `Rng::shuffle`, which only exchanges elements of the slice. Claimed is
/// that the same elements are there afterwards, each as often as before.
/// The generator itself fails where the system has no source of entropy.
#[verifier::external_body]
fn shuffle(cities: &mut Vec<u32>)
    ensures
        final(cities)@.to_multiset() == old(cities)@.to_multiset(),
{
    rand::thread_rng().shuffle(cities);
}

} // verus!
