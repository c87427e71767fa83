//! The bookkeeping of an Ant System run.
//!
//! An Ant System sends a number of ants over the cities in each of a number
//! of rounds. How an ant chooses its next city, and how the trails it leaves
//! fade and grow, is arithmetic on real numbers and is left to the caller.
//! What is kept here is everything else: whose turn it is, which path was
//! the best of the run, and what the Ant System's record is told.

use crate::ecm::ECM;
use crate::tour::{home_order, home_path, lemma_tour_is_payable};
use crate::heap::lemma_tours_arrange_home_order;
use crate::tsp::{best_index, lemma_best_index, TSP, TSPInfo};
use vstd::prelude::*;
use vstd::slice::slice_to_vec;

verus! {

/// What a run needs next from its caller.
#[derive(Debug, Clone, Copy, PartialEq, Eq, Structural)]
pub enum AntAction {
    /// Another ant is to build a path, which is then recorded.
    Construct,
    /// Every ant of the round has gone: the trails are to fade and to be
    /// reinforced along the round's paths, and the round is to be ended.
    Reinforce,
    /// Every round is over: the run is to be finished.
    Finish,
}

/// The state of one Ant System run.
pub struct Colony {
    num_ants: usize,
    iterations: usize,
    round: usize,
    ants: usize,
    best_path: Vec<u32>,
    best_cost: u64,
    trail: Ghost<Seq<Seq<u32>>>,
    before: Ghost<Seq<Seq<u32>>>,
    counted: Ghost<int>,
}

impl Colony {
    /// The number of ants of each round.
    pub closed spec fn num_ants(&self) -> nat {
        self.num_ants as nat
    }

    /// The number of rounds of the run.
    pub closed spec fn iterations(&self) -> nat {
        self.iterations as nat
    }

    /// The number of rounds that are over.
    pub closed spec fn rounds_done(&self) -> nat {
        self.round as nat
    }

    /// The number of ants of the current round whose paths are recorded.
    pub closed spec fn ants_done(&self) -> nat {
        self.ants as nat
    }

    /// The baseline path, then the path of every ant so far.
    pub closed spec fn trail(&self) -> Seq<Seq<u32>> {
        self.trail@
    }

    /// The history that the Ant System's record had when the run began.
    pub closed spec fn started_from(&self) -> Seq<Seq<u32>> {
        self.before@
    }

    /// The count that the Ant System's record had when the run began.
    pub closed spec fn started_at(&self) -> int {
        self.counted@
    }

    /// The best path of the run so far.
    pub closed spec fn leader(&self) -> Seq<u32> {
        self.best_path@
    }

    /// The cost of the best path of the run so far.
    pub closed spec fn leader_cost(&self) -> u64 {
        self.best_cost
    }

    /// What the run needs next.
    pub open spec fn pending(&self) -> AntAction {
        if self.rounds_done() >= self.iterations() {
            AntAction::Finish
        } else if self.ants_done() < self.num_ants() {
            AntAction::Construct
        } else {
            AntAction::Reinforce
        }
    }

    /// The run has counted its ants, and its leader is the first cheapest
    /// path of the trail.
    pub open spec fn wf(&self, ecm: ECM) -> bool {
        &&& self.rounds_done() <= self.iterations()
        &&& self.ants_done() <= self.num_ants()
        &&& self.rounds_done() == self.iterations() ==> self.ants_done() == 0
        &&& self.trail().len() == 1 + self.rounds_done() * self.num_ants() + self.ants_done()
        &&& self.trail()[0] == home_order(ecm.size())
        &&& self.leader() == self.trail()[best_index(ecm, self.trail())]
        &&& self.leader_cost() == ecm.spec_path_cost(self.leader())
        &&& ecm.can_cost(self.leader())
    }

    /// `info` is the record of this run while it goes on: it has the
    /// baseline as its newest path, and has counted the trail.
    pub open spec fn drives(&self, info: TSPInfo, ecm: ECM) -> bool {
        &&& info.tracks(ecm)
        &&& info.history@ == self.started_from().push(self.trail()[0])
        &&& info.paths_checked == self.started_at() + self.trail().len()
    }

    /// What the run needs next.
    pub fn next_action(&self) -> (action: AntAction)
        ensures
            action == self.pending(),
    {
        if self.round >= self.iterations {
            AntAction::Finish
        } else if self.ants < self.num_ants {
            AntAction::Construct
        } else {
            AntAction::Reinforce
        }
    }

    /// The best path of the run so far.
    pub fn best_path(&self) -> (path: &Vec<u32>)
        ensures
            path@ == self.leader(),
    {
        &self.best_path
    }

    /// The cost of the best path of the run so far.
    pub fn best_cost(&self) -> (cost: u64)
        ensures
            cost == self.leader_cost(),
    {
        self.best_cost
    }

    /// Ends the current round, once the trails are reinforced.
    pub fn end_round(&mut self)
        requires
            old(self).pending() == AntAction::Reinforce,
        ensures
            final(self).rounds_done() == old(self).rounds_done() + 1,
            final(self).ants_done() == 0,
            final(self).num_ants() == old(self).num_ants(),
            final(self).iterations() == old(self).iterations(),
            final(self).trail() == old(self).trail(),
            final(self).started_from() == old(self).started_from(),
            final(self).started_at() == old(self).started_at(),
            final(self).leader() == old(self).leader(),
            final(self).leader_cost() == old(self).leader_cost(),
            forall|ecm: ECM| #[trigger] old(self).wf(ecm) ==> final(self).wf(ecm),
    {
        proof {
            assert((self.round + 1) * self.num_ants == self.round * self.num_ants + self.num_ants)
                by (nonlinear_arith);
        }
        self.round += 1;
        self.ants = 0;
    }
}

/// The first cheapest path of two histories put together is that of the
/// second where it is cheaper than that of the first, or the first is empty.
pub proof fn lemma_best_of_concat(ecm: ECM, x: Seq<Seq<u32>>, y: Seq<Seq<u32>>)
    requires
        y.len() > 0,
    ensures
        best_index(ecm, x + y) == if x.len() == 0 || ecm.spec_path_cost(y[best_index(ecm, y)])
            < ecm.spec_path_cost(x[best_index(ecm, x)]) {
            x.len() + best_index(ecm, y)
        } else {
            best_index(ecm, x)
        },
    decreases y.len(),
{
    let all = x + y;
    lemma_best_index(ecm, y);
    if x.len() > 0 {
        lemma_best_index(ecm, x);
    }
    if y.len() == 1 {
        assert(all.drop_last() =~= x);
        assert(all.last() == y[0]);
    } else {
        let shorter = y.drop_last();
        assert(all.drop_last() =~= x + shorter);
        assert(all.last() == y.last());
        lemma_best_of_concat(ecm, x, shorter);
        lemma_best_index(ecm, shorter);
        let k = best_index(ecm, shorter);
        assert(shorter[k] == y[k]);
        assert((x + shorter)[x.len() + k] == y[k]);
        if x.len() > 0 {
            assert((x + shorter)[best_index(ecm, x)] == x[best_index(ecm, x)]);
        }
    }
}

impl TSP {
    /// Begins an Ant System run of `iterations` rounds of `num_ants` ants:
    /// offers the baseline path, the cities in ascending order, to the Ant
    /// System's record, and makes it the leader of the run.
    pub fn ant_system(&mut self, num_ants: usize, iterations: usize) -> (colony: Colony)
        requires
            old(self).ready(),
            old(self).ant_system_info.tracks(old(self).ecm),
            old(self).ant_system_info.paths_checked < u64::MAX,
        ensures
            final(self).ecm == old(self).ecm,
            final(self).brute_info == old(self).brute_info,
            final(self).greedy_info == old(self).greedy_info,
            final(self).monte_info == old(self).monte_info,
            colony.wf(final(self).ecm),
            colony.drives(final(self).ant_system_info, final(self).ecm),
            colony.num_ants() == num_ants,
            colony.iterations() == iterations,
            colony.rounds_done() == 0,
            colony.ants_done() == 0,
            colony.trail() == seq![home_order(old(self).ecm.size())],
            colony.leader() == home_order(old(self).ecm.size()),
            colony.started_from() == old(self).ant_system_info.history@,
            colony.started_at() == old(self).ant_system_info.paths_checked,
    {
        let n = self.ecm.ecm.len();
        let initial_path = home_path(n);
        let ghost before = self.ant_system_info.history@;
        let ghost counted = self.ant_system_info.paths_checked as int;
        proof {
            if n >= 1 {
                lemma_tours_arrange_home_order(n as nat, initial_path@);
                lemma_tour_is_payable(self.ecm, initial_path@);
            }
        }
        self.ant_system_info.consider(&self.ecm, initial_path.as_slice());
        let best_cost = self.ecm.path_cost(initial_path.as_slice());
        let ghost trail = seq![home_order(n as nat)];
        Colony {
            num_ants,
            iterations,
            round: 0,
            ants: 0,
            best_path: initial_path,
            best_cost,
            trail: Ghost(trail),
            before: Ghost(before),
            counted: Ghost(counted),
        }
    }

    /// Begins an Ant System run with as many ants as there are cities.
    pub fn aco(&mut self, iterations: usize) -> (colony: Colony)
        requires
            old(self).ready(),
            old(self).ant_system_info.tracks(old(self).ecm),
            old(self).ant_system_info.paths_checked < u64::MAX,
        ensures
            final(self).ecm == old(self).ecm,
            final(self).brute_info == old(self).brute_info,
            final(self).greedy_info == old(self).greedy_info,
            final(self).monte_info == old(self).monte_info,
            colony.wf(final(self).ecm),
            colony.drives(final(self).ant_system_info, final(self).ecm),
            colony.num_ants() == old(self).ecm.size(),
            colony.iterations() == iterations,
            colony.rounds_done() == 0,
            colony.ants_done() == 0,
            colony.trail() == seq![home_order(old(self).ecm.size())],
            colony.leader() == home_order(old(self).ecm.size()),
            colony.started_from() == old(self).ant_system_info.history@,
            colony.started_at() == old(self).ant_system_info.paths_checked,
    {
        let num_ants = self.ecm.ecm.len();
        self.ant_system(num_ants, iterations)
    }

    /// Records the path that an ant has built: works out its cost, makes it
    /// the leader of the run if it is cheaper than the leader, and counts it
    /// in the Ant System's record.
    pub fn record_ant(&mut self, colony: &mut Colony, path: &[u32]) -> (cost: u64)
        requires
            old(self).ready(),
            old(colony).wf(old(self).ecm),
            old(colony).drives(old(self).ant_system_info, old(self).ecm),
            old(colony).pending() == AntAction::Construct,
            old(self).ecm.can_cost(path@),
            old(self).ant_system_info.paths_checked < u64::MAX,
        ensures
            final(self).ecm == old(self).ecm,
            final(self).brute_info == old(self).brute_info,
            final(self).greedy_info == old(self).greedy_info,
            final(self).monte_info == old(self).monte_info,
            final(self).ant_system_info.best_path == old(self).ant_system_info.best_path,
            final(self).ant_system_info.best_cost == old(self).ant_system_info.best_cost,
            final(self).ant_system_info.history@ == old(self).ant_system_info.history@,
            final(self).ant_system_info.paths_checked == old(self).ant_system_info.paths_checked
                + 1,
            cost == old(self).ecm.spec_path_cost(path@),
            final(colony).wf(final(self).ecm),
            final(colony).drives(final(self).ant_system_info, final(self).ecm),
            final(colony).trail() == old(colony).trail().push(path@),
            final(colony).num_ants() == old(colony).num_ants(),
            final(colony).iterations() == old(colony).iterations(),
            final(colony).rounds_done() == old(colony).rounds_done(),
            final(colony).ants_done() == old(colony).ants_done() + 1,
            final(colony).started_from() == old(colony).started_from(),
            final(colony).started_at() == old(colony).started_at(),
            final(colony).leader_cost() <= old(colony).leader_cost(),
            cost < old(colony).leader_cost() ==> final(colony).leader() == path@ && final(colony).leader_cost() == cost,
            cost >= old(colony).leader_cost() ==> final(colony).leader() == old(colony).leader()
                && final(colony).leader_cost() == old(colony).leader_cost(),
    {
        let cost = self.ecm.path_cost(path);
        proof {
            let h = colony.trail@;
            assert(h.push(path@).drop_last() =~= h);
            lemma_best_index(self.ecm, h);
        }
        if cost < colony.best_cost {
            colony.best_path = slice_to_vec(path);
            colony.best_cost = cost;
        }
        self.ant_system_info.paths_checked += 1;
        colony.ants += 1;
        colony.trail = Ghost(colony.trail@.push(path@));
        cost
    }

    /// Finishes an Ant System run: offers the leader of the run to the Ant
    /// System's record, and takes one off its count, so that the baseline
    /// and each ant's path are counted once.
    pub fn finish_ant_system(&mut self, colony: Colony)
        requires
            old(self).ready(),
            colony.wf(old(self).ecm),
            colony.drives(old(self).ant_system_info, old(self).ecm),
            colony.pending() == AntAction::Finish,
            old(self).ant_system_info.paths_checked < u64::MAX,
        ensures
            final(self).ecm == old(self).ecm,
            final(self).brute_info == old(self).brute_info,
            final(self).greedy_info == old(self).greedy_info,
            final(self).monte_info == old(self).monte_info,
            final(self).ant_system_info.tracks(final(self).ecm),
            final(self).ant_system_info.history@ == colony.started_from() + colony.trail(),
            colony.trail().len() == 1 + colony.iterations() * colony.num_ants(),
            final(self).ant_system_info.paths_checked == colony.started_at() + 1
                + colony.iterations() * colony.num_ants(),
            final(self).ant_system_info.best_path is Some,
            final(self).ant_system_info.best_cost <= colony.leader_cost(),
            old(self).ant_system_info.best_cost <= colony.leader_cost() ==> final(self).ant_system_info.best_path == old(self).ant_system_info.best_path,
            old(self).ant_system_info.best_cost > colony.leader_cost() ==> (final(self).ant_system_info.best_path matches Some(p) && p@ == colony.leader()),
    {
        let ghost x = colony.before@;
        let ghost y = colony.trail@;
        let ghost best = colony.best_path@;
        let ghost base = y[0];
        self.ant_system_info.consider(&self.ecm, colony.best_path.as_slice());
        self.ant_system_info.paths_checked -= 1;
        proof {
            let z = seq![base, best];
            let h1 = self.ant_system_info.history@;
            assert(h1 =~= x + z);
            lemma_best_index(self.ecm, y);
            let first = z.drop_last();
            assert(first =~= seq![base]);
            assert(best_index(self.ecm, first) == 0);
            assert(z.last() == best && z[0] == base);
            if self.ecm.spec_path_cost(best) < self.ecm.spec_path_cost(base) {
                assert(best_index(self.ecm, z) == 1);
            } else {
                if best_index(self.ecm, y) > 0 {
                    assert(self.ecm.spec_path_cost(y[best_index(self.ecm, y)])
                        < self.ecm.spec_path_cost(y[0]));
                }
                assert(best_index(self.ecm, z) == 0);
            }
            assert(z[best_index(self.ecm, z)] == best);
            lemma_best_of_concat(self.ecm, x, z);
            lemma_best_of_concat(self.ecm, x, y);
            let bz = best_index(self.ecm, z);
            let by = best_index(self.ecm, y);
            assert(y[by] == best);
            if x.len() > 0 {
                lemma_best_index(self.ecm, x);
                let bx = best_index(self.ecm, x);
                assert((x + z)[bx] == x[bx]);
                assert((x + y)[bx] == x[bx]);
            }
            assert((x + z)[x.len() + bz] == z[bz]);
            assert((x + y)[x.len() + by] == y[by]);
            assert((x + z)[best_index(self.ecm, x + z)] == (x + y)[best_index(self.ecm, x + y)]);
        }
        self.ant_system_info.history = Ghost(colony.before@ + colony.trail@);
    }
}

} // verus!
