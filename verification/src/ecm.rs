//! The edge cost matrix and the cost of a path through it.

use rand::Rng;
use vstd::prelude::*;

verus! {

/// Lowest cost that [`generate_ecm`] draws for an edge.
pub const MIN_RANDOM_COST: u32 = 1;

/// Highest cost that [`generate_ecm`] draws for an edge.
pub const MAX_RANDOM_COST: u32 = 1000;

/// Entry `(a, b)` of a table of rows.
pub open spec fn entry(rows: Seq<Vec<u32>>, a: int, b: int) -> int {
    rows[a]@[b] as int
}

/// Every row is as long as the table is high.
pub open spec fn square(rows: Seq<Vec<u32>>) -> bool {
    forall|a: int| 0 <= a < rows.len() ==> (#[trigger] rows[a])@.len() == rows.len()
}

/// Every entry on the diagonal is zero.
pub open spec fn zero_diagonal(rows: Seq<Vec<u32>>) -> bool {
    forall|a: int| 0 <= a < rows.len() ==> #[trigger] entry(rows, a, a) == 0
}

/// Entry `(a, b)` equals entry `(b, a)`.
pub open spec fn symmetric(rows: Seq<Vec<u32>>) -> bool {
    forall|a: int, b: int|
        0 <= a < rows.len() && 0 <= b < rows.len() ==> #[trigger] entry(rows, a, b) == entry(
            rows,
            b,
            a,
        )
}

/// Why a table of rows is no cost matrix.
#[derive(Debug, Clone, Copy, PartialEq, Eq, Structural)]
pub enum ConfigurationError {
    /// Some row is not as long as the table is high.
    NotSquare,
    /// The table is square, but some city has a cost to itself.
    NonZeroDiagonal,
    /// The table is square with a zero diagonal, but some edge costs more one
    /// way than the other.
    Asymmetric,
}

/// The edge cost matrix of a complete graph.
pub struct ECM {
    pub ecm: Vec<Vec<u32>>,
}

impl ECM {
    /// The number of cities.
    pub open spec fn size(&self) -> nat {
        self.ecm@.len()
    }

    /// The cost of going from city `a` to city `b`.
    pub open spec fn cost(&self, a: int, b: int) -> int {
        entry(self.ecm@, a, b)
    }

    /// Every row has one entry for each city.
    pub open spec fn is_square(&self) -> bool {
        square(self.ecm@)
    }

    /// A valid cost matrix: square, symmetric, zero on the diagonal.
    pub open spec fn wf(&self) -> bool {
        &&& square(self.ecm@)
        &&& zero_diagonal(self.ecm@)
        &&& symmetric(self.ecm@)
    }

    /// Every edge between two different cities costs between `low` and `high`.
    pub open spec fn costs_within(&self, low: int, high: int) -> bool {
        forall|a: int, b: int|
            0 <= a < self.size() && 0 <= b < self.size() && a != b ==> low <= #[trigger] self.cost(
                a,
                b,
            ) <= high
    }

    /// Every element of `path` is a city of this matrix.
    pub open spec fn knows(&self, path: Seq<u32>) -> bool {
        forall|i: int| 0 <= i < path.len() ==> #[trigger] path[i] < self.size()
    }

    /// The cost of `path` can be worked out: its elements are cities of this
    /// matrix, unless it is too short to have an edge, and the sum of its
    /// edges fits in a `u64`.
    pub open spec fn can_cost(&self, path: Seq<u32>) -> bool {
        &&& path.len() < 2 || self.knows(path)
        &&& self.spec_path_cost(path) <= u64::MAX
    }

    /// The cost of the edge that `path` takes from its element `i`.
    pub open spec fn edge(&self, path: Seq<u32>, i: int) -> int {
        self.cost(path[i] as int, path[i + 1] as int)
    }

    /// The sum of the costs of the consecutive edges of `path`.
    pub open spec fn spec_path_cost(&self, path: Seq<u32>) -> int
        decreases path.len(),
    {
        if path.len() < 2 {
            0
        } else {
            self.spec_path_cost(path.drop_last()) + self.edge(path, path.len() - 2)
        }
    }

    /// A path costs no less than any of its prefixes, and no more than
    /// `u32::MAX` for each of its edges.
    pub proof fn lemma_path_cost_bounds(&self, path: Seq<u32>, k: int)
        requires
            0 <= k <= path.len(),
        ensures
            0 <= self.spec_path_cost(path.take(k)) <= self.spec_path_cost(path),
            self.spec_path_cost(path) <= path.len() * u32::MAX,
        decreases path.len(),
    {
        if path.len() < 2 {
            if k < path.len() {
                assert(path.take(k).len() < 2);
            } else {
                assert(path.take(k) =~= path);
            }
        } else {
            let shorter = path.drop_last();
            if k == path.len() {
                assert(path.take(k) =~= path);
                self.lemma_path_cost_bounds(shorter, 0);
            } else {
                assert(path.take(k) =~= shorter.take(k));
                self.lemma_path_cost_bounds(shorter, k);
            }
        }
    }

    /// A path costs nothing exactly if each of its edges costs nothing.
    pub proof fn lemma_free_path(&self, path: Seq<u32>)
        ensures
            self.spec_path_cost(path) == 0 <==> forall|i: int|
                0 <= i < path.len() - 1 ==> #[trigger] self.edge(path, i) == 0,
        decreases path.len(),
    {
        if path.len() >= 2 {
            let shorter = path.drop_last();
            let last = path.len() - 2;
            self.lemma_free_path(shorter);
            self.lemma_path_cost_bounds(shorter, 0);
            if self.spec_path_cost(path) == 0 {
                assert forall|i: int| 0 <= i < path.len() - 1 implies #[trigger] self.edge(path, i)
                    == 0 by {
                    if i < last {
                        assert(self.edge(shorter, i) == 0);
                    }
                }
            } else {
                if self.spec_path_cost(shorter) != 0 {
                    let i = choose|i: int|
                        0 <= i < shorter.len() - 1 && #[trigger] self.edge(shorter, i) != 0;
                    assert(self.edge(path, i) != 0);
                } else {
                    assert(self.edge(path, last) != 0);
                }
            }
        }
    }

    /// The cost of a path of at most 2^32 elements fits in a `u64`.
    pub proof fn lemma_path_cost_fits(&self, path: Seq<u32>)
        requires
            path.len() <= 0x1_0000_0000,
        ensures
            0 <= self.spec_path_cost(path) <= u64::MAX,
    {
        self.lemma_path_cost_bounds(path, 0);
        assert(path.len() * u32::MAX <= 0x1_0000_0000 * u32::MAX) by (nonlinear_arith)
            requires
                path.len() <= 0x1_0000_0000,
        ;
    }

    /// Total cost of travelling along `path`.
    pub fn path_cost(&self, path: &[u32]) -> (cost: u64)
        requires
            self.is_square(),
            self.can_cost(path@),
        ensures
            cost == self.spec_path_cost(path@),
    {
        if path.len() < 2 {
            return 0;
        }
        let mut cost: u64 = 0;
        let mut j: usize = 1;
        while j < path.len()
            invariant
                1 <= j <= path.len(),
                self.is_square(),
                self.knows(path@),
                self.spec_path_cost(path@) <= u64::MAX,
                cost == self.spec_path_cost(path@.take(j as int)),
            decreases path.len() - j,
        {
            let from = path[j - 1] as usize;
            let to = path[j] as usize;
            proof {
                let longer = path@.take(j + 1);
                assert(longer.drop_last() =~= path@.take(j as int));
                self.lemma_path_cost_bounds(path@, j + 1);
                assert(self.ecm@[from as int]@.len() == self.ecm@.len());
            }
            cost += self.ecm[from][to] as u64;
            j += 1;
        }
        assert(path@.take(j as int) =~= path@);
        cost
    }

    /// A random matrix for `n` cities, with the costs [`generate_ecm`] draws.
    pub fn new(n: usize) -> (m: ECM)
        ensures
            m.size() == n,
            m.wf(),
            m.costs_within(MIN_RANDOM_COST as int, MAX_RANDOM_COST as int),
    {
        generate_ecm(n)
    }

    /// A random matrix for `n` cities: each edge gets one cost, drawn
    /// uniformly from `min_cost ..= max_cost`, and a city costs nothing to
    /// itself.
    pub fn generate(n: usize, min_cost: u32, max_cost: u32) -> (m: ECM)
        requires
            min_cost <= max_cost,
        ensures
            m.size() == n,
            m.wf(),
            m.costs_within(min_cost as int, max_cost as int),
    {
        let mut rows: Vec<Vec<u32>> = Vec::new();
        let mut i: usize = 0;
        while i < n
            invariant
                i <= n,
                min_cost <= max_cost,
                rows@.len() == i,
                forall|a: int| 0 <= a < i ==> (#[trigger] rows@[a])@.len() == n,
                forall|a: int| 0 <= a < i ==> #[trigger] entry(rows@, a, a) == 0,
                forall|a: int, b: int|
                    0 <= a < i && 0 <= b < i ==> #[trigger] entry(rows@, a, b) == entry(
                        rows@,
                        b,
                        a,
                    ),
                forall|a: int, b: int|
                    0 <= a < i && 0 <= b < n && a != b ==> min_cost <= #[trigger] entry(
                        rows@,
                        a,
                        b,
                    ) <= max_cost,
            decreases n - i,
        {
            let mut row: Vec<u32> = Vec::new();
            let mut j: usize = 0;
            while j < n
                invariant
                    j <= n,
                    i < n,
                    min_cost <= max_cost,
                    rows@.len() == i,
                    row@.len() == j,
                    forall|a: int| 0 <= a < i ==> (#[trigger] rows@[a])@.len() == n,
                    forall|a: int, b: int|
                        0 <= a < i && 0 <= b < n && a != b ==> min_cost <= #[trigger] entry(
                            rows@,
                            a,
                            b,
                        ) <= max_cost,
                    forall|b: int| 0 <= b < j && b < i ==> #[trigger] row@[b] == entry(rows@, b, i as int),
                    j > i ==> row@[i as int] == 0,
                    forall|b: int| 0 <= b < j && b != i ==> min_cost <= #[trigger] row@[b] <= max_cost,
                decreases n - j,
            {
                let c: u32 = if j < i {
                    assert(min_cost <= entry(rows@, j as int, i as int) <= max_cost);
                    rows[j][i]
                } else if j == i {
                    0
                } else {
                    random_in_range(min_cost as u64, max_cost as u64 + 1) as u32
                };
                row.push(c);
                j += 1;
            }
            let ghost before = rows@;
            rows.push(row);
            proof {
                assert forall|a: int, b: int| 0 <= a < i + 1 && 0 <= b < i + 1 implies #[trigger] entry(
                    rows@,
                    a,
                    b,
                ) == entry(rows@, b, a) by {
                    if a < i && b < i {
                        assert(entry(before, a, b) == entry(before, b, a));
                    } else if a < i {
                        assert(row@[a] == entry(before, a, i as int));
                    } else if b < i {
                        assert(row@[b] == entry(before, b, i as int));
                    }
                }
                assert forall|a: int, b: int|
                    0 <= a < i + 1 && 0 <= b < n && a != b implies min_cost <= #[trigger] entry(
                    rows@,
                    a,
                    b,
                ) <= max_cost by {
                    if a < i {
                        assert(min_cost <= entry(before, a, b) <= max_cost);
                    } else {
                        assert(min_cost <= row@[b] <= max_cost);
                    }
                }
                assert forall|a: int| 0 <= a < i + 1 implies #[trigger] entry(rows@, a, a) == 0 by {
                    if a < i {
                        assert(entry(before, a, a) == 0);
                    }
                }
            }
            i += 1;
        }
        ECM { ecm: rows }
    }

    /// Checks a table of rows and makes a cost matrix of it.
    ///
    /// The first fault found, in the order of [`ConfigurationError`]'s
    /// variants, is the one reported.
    pub fn from_rows(rows: Vec<Vec<u32>>) -> (r: Result<ECM, ConfigurationError>)
        ensures
            r matches Ok(m) ==> m.ecm == rows && m.wf(),
            r is Ok <==> square(rows@) && zero_diagonal(rows@) && symmetric(rows@),
            r == Err::<ECM, ConfigurationError>(ConfigurationError::NotSquare) <==> !square(rows@),
            r == Err::<ECM, ConfigurationError>(ConfigurationError::NonZeroDiagonal) <==> square(
                rows@,
            ) && !zero_diagonal(rows@),
            r == Err::<ECM, ConfigurationError>(ConfigurationError::Asymmetric) <==> square(rows@)
                && zero_diagonal(rows@) && !symmetric(rows@),
    {
        let n = rows.len();
        let mut i: usize = 0;
        while i < n
            invariant
                i <= n,
                n == rows@.len(),
                forall|a: int| 0 <= a < i ==> (#[trigger] rows@[a])@.len() == n,
            decreases n - i,
        {
            if rows[i].len() != n {
                return Err(ConfigurationError::NotSquare);
            }
            i += 1;
        }
        i = 0;
        while i < n
            invariant
                i <= n,
                n == rows@.len(),
                square(rows@),
                forall|a: int| 0 <= a < i ==> #[trigger] entry(rows@, a, a) == 0,
            decreases n - i,
        {
            if rows[i][i] != 0 {
                assert(entry(rows@, i as int, i as int) != 0);
                return Err(ConfigurationError::NonZeroDiagonal);
            }
            i += 1;
        }
        i = 0;
        while i < n
            invariant
                i <= n,
                n == rows@.len(),
                square(rows@),
                zero_diagonal(rows@),
                forall|a: int, b: int|
                    0 <= a < i && 0 <= b < n ==> #[trigger] entry(rows@, a, b) == entry(rows@, b, a),
            decreases n - i,
        {
            let mut j: usize = 0;
            while j < n
                invariant
                    j <= n,
                    i < n,
                    n == rows@.len(),
                    square(rows@),
                    zero_diagonal(rows@),
                    forall|a: int, b: int|
                        0 <= a < i && 0 <= b < n ==> #[trigger] entry(rows@, a, b) == entry(
                            rows@,
                            b,
                            a,
                        ),
                    forall|b: int|
                        0 <= b < j ==> #[trigger] entry(rows@, i as int, b) == entry(rows@, b, i as int),
                decreases n - j,
            {
                if rows[i][j] != rows[j][i] {
                    assert(entry(rows@, i as int, j as int) != entry(rows@, j as int, i as int));
                    return Err(ConfigurationError::Asymmetric);
                }
                j += 1;
            }
            i += 1;
        }
        Ok(ECM { ecm: rows })
    }
}

/// A random matrix for `n` cities: each edge gets one cost, drawn uniformly
/// from 1 to 1000, and a city costs nothing to itself.
pub fn generate_ecm(n: usize) -> (m: ECM)
    ensures
        m.size() == n,
        m.wf(),
        m.costs_within(MIN_RANDOM_COST as int, MAX_RANDOM_COST as int),
{
    ECM::generate(n, MIN_RANDOM_COST, MAX_RANDOM_COST)
}

/// Draws from the thread's generator: `rand::thread_rng()`, then
/// `Rng::gen_range(low, high)`, which samples the half-open range and panics
/// unless `low < high`. Only the range of the result is claimed. The
/// generator itself fails where the system has no source of entropy.
#[verifier::external_body]
fn random_in_range(low: u64, high: u64) -> (r: u64)
    requires
        low < high,
    ensures
        low <= r < high,
{
    rand::thread_rng().gen_range(low, high)
}

} // verus!
