use tsp::ecm::{generate_ecm, ECM};
use tsp::tour::{check_tour, InvariantViolation};
use tsp::tsp::{TSPInfo, TSP};

fn four_cities() -> ECM {
    ECM { ecm: vec![vec![0, 1, 2, 3], vec![1, 0, 4, 5], vec![2, 4, 0, 6], vec![3, 5, 6, 0]] }
}

fn five_cities() -> ECM {
    ECM {
        ecm: vec![
            vec![0, 7, 3, 9, 4],
            vec![7, 0, 3, 2, 8],
            vec![3, 3, 0, 6, 5],
            vec![9, 2, 6, 0, 1],
            vec![4, 8, 5, 1, 0],
        ],
    }
}

fn bad_for_greedy() -> ECM {
    ECM {
        ecm: vec![
            vec![0, 2000000000, 371, 111, 933, 360, 434, 779],
            vec![2000000000, 0, 630, 178, 947, 540, 215, 853],
            vec![371, 630, 0, 462, 884, 354, 722, 413],
            vec![111, 178, 462, 0, 811, 828, 142, 323],
            vec![933, 947, 884, 811, 0, 404, 146, 153],
            vec![360, 540, 354, 828, 404, 0, 120, 531],
            vec![434, 215, 722, 142, 146, 120, 0, 59],
            vec![779, 853, 413, 323, 153, 531, 59, 0],
        ],
    }
}

fn factorial(n: u64) -> u64 {
    (1..=n).product()
}

#[test]
fn new_orchestrator_has_empty_records() {
    let tsp = TSP::new(four_cities());
    for info in [&tsp.brute_info, &tsp.greedy_info, &tsp.monte_info, &tsp.ant_system_info] {
        assert_eq!(info.best_path, None);
        assert_eq!(info.best_cost, 0);
        assert_eq!(info.paths_checked, 0);
    }
    assert_eq!(tsp.ecm.ecm, four_cities().ecm);
}

#[test]
fn record_keeps_first_of_equally_cheap_paths() {
    let m = four_cities();
    let mut info = TSPInfo::new();
    info.consider(&m, &[0, 2, 1, 3, 0]);
    assert_eq!(info.best_path, Some(vec![0, 2, 1, 3, 0]));
    assert_eq!(info.best_cost, 14);
    assert_eq!(info.paths_checked, 1);
    info.consider(&m, &[0, 1, 2, 3, 0]);
    assert_eq!(info.best_path, Some(vec![0, 2, 1, 3, 0]));
    assert_eq!(info.best_cost, 14);
    assert_eq!(info.paths_checked, 2);
}

#[test]
fn record_takes_strictly_cheaper_path_only() {
    let m = five_cities();
    let mut info = TSPInfo::new();
    info.consider(&m, &[0, 1, 2, 3, 4, 0]);
    assert_eq!(info.best_cost, 7 + 3 + 6 + 1 + 4);
    info.consider(&m, &[0, 4, 3, 2, 1, 0]);
    assert_eq!(info.best_path, Some(vec![0, 1, 2, 3, 4, 0]));
    info.consider(&m, &[0, 2, 1, 3, 4, 0]);
    assert_eq!(info.best_path, Some(vec![0, 2, 1, 3, 4, 0]));
    assert_eq!(info.best_cost, 13);
    info.consider(&m, &[0, 1, 2, 3, 4, 0]);
    assert_eq!(info.best_path, Some(vec![0, 2, 1, 3, 4, 0]));
    assert_eq!(info.best_cost, 13);
    assert_eq!(info.paths_checked, 4);
}

#[test]
fn first_path_is_kept_whatever_it_costs() {
    let m = ECM { ecm: vec![vec![0]] };
    let mut info = TSPInfo::new();
    info.consider(&m, &[0, 0]);
    assert_eq!(info.best_path, Some(vec![0, 0]));
    assert_eq!(info.best_cost, 0);
    assert_eq!(info.paths_checked, 1);
}

#[test]
fn update_best_writes_the_given_record() {
    let tsp = TSP::new(four_cities());
    let mut info = TSPInfo::new();
    tsp.update_best(&[0, 3, 1, 2, 0], &mut info);
    assert_eq!(info.best_path, Some(vec![0, 3, 1, 2, 0]));
    assert_eq!(info.best_cost, 3 + 5 + 4 + 2);
    assert_eq!(info.paths_checked, 1);
    assert_eq!(tsp.brute_info.paths_checked, 0);
}

#[test]
fn reset_empties_a_record() {
    let mut tsp = TSP::new(five_cities());
    tsp.greedy();
    tsp.greedy_info.reset();
    assert_eq!(tsp.greedy_info.best_path, None);
    assert_eq!(tsp.greedy_info.best_cost, 0);
    assert_eq!(tsp.greedy_info.paths_checked, 0);
}

#[test]
fn nearest_of_takes_first_of_equally_near() {
    let tsp = TSP::new(ECM {
        ecm: vec![vec![0, 5, 2, 2], vec![5, 0, 1, 1], vec![2, 1, 0, 9], vec![2, 1, 9, 0]],
    });
    assert_eq!(tsp.nearest_of(0, &vec![1, 2, 3]), 1);
    assert_eq!(tsp.nearest_of(0, &vec![3, 1, 2]), 0);
    assert_eq!(tsp.nearest_of(1, &vec![3, 2]), 0);
    assert_eq!(tsp.nearest_of(2, &vec![3, 1]), 1);
    assert_eq!(tsp.nearest_of(2, &vec![3]), 0);
}

#[test]
fn four_city_scenario() {
    let mut tsp = TSP::new(four_cities());
    tsp.brute_force();
    tsp.greedy();
    assert_eq!(tsp.greedy_info.best_path, Some(vec![0, 1, 2, 3, 0]));
    assert_eq!(tsp.greedy_info.best_cost, 14);
    assert_eq!(tsp.greedy_info.paths_checked, 1);
    assert_eq!(tsp.brute_info.paths_checked, 6);
    assert_eq!(tsp.brute_info.best_cost, 14);
    assert_eq!(tsp.brute_info.best_path, Some(vec![0, 1, 2, 3, 0]));
    let cycles: [[u32; 5]; 3] = [[0, 1, 2, 3, 0], [0, 1, 3, 2, 0], [0, 2, 1, 3, 0]];
    let least = cycles.iter().map(|c| tsp.ecm.path_cost(c)).min();
    assert_eq!(least, Some(tsp.brute_info.best_cost));
}

#[test]
fn greedy_can_be_made_arbitrarily_bad() {
    let mut tsp = TSP::new(bad_for_greedy());
    tsp.brute_force();
    tsp.greedy();
    assert_eq!(tsp.greedy_info.best_path, Some(vec![0, 3, 6, 7, 4, 5, 2, 1, 0]));
    assert_eq!(tsp.greedy_info.best_cost, 2000001853);
    assert_eq!(tsp.brute_info.best_path, Some(vec![0, 3, 1, 6, 7, 4, 5, 2, 0]));
    assert_eq!(tsp.brute_info.best_cost, 1845);
    assert_eq!(tsp.brute_info.paths_checked, 5040);
    assert!(tsp.greedy_info.best_cost > 1_000_000 * tsp.brute_info.best_cost);
}

#[test]
fn greedy_goes_to_the_nearest_city_each_time() {
    let mut tsp = TSP::new(five_cities());
    tsp.greedy();
    assert_eq!(tsp.greedy_info.best_path, Some(vec![0, 2, 1, 3, 4, 0]));
    assert_eq!(tsp.greedy_info.best_cost, 3 + 3 + 2 + 1 + 4);
}

#[test]
fn greedy_breaks_ties_by_the_order_of_the_cities_left() {
    let mut tsp = TSP::new(ECM {
        ecm: vec![vec![0, 5, 5, 5], vec![5, 0, 5, 5], vec![5, 5, 0, 5], vec![5, 5, 5, 0]],
    });
    tsp.greedy();
    assert_eq!(tsp.greedy_info.best_path, Some(vec![0, 1, 3, 2, 0]));
    assert_eq!(tsp.greedy_info.best_cost, 20);
}

#[test]
fn greedy_is_deterministic_and_offers_one_path() {
    let m = generate_ecm(9);
    let mut first = TSP::new(ECM { ecm: m.ecm.clone() });
    let mut second = TSP::new(m);
    first.greedy();
    second.greedy();
    assert_eq!(first.greedy_info.paths_checked, 1);
    assert_eq!(first.greedy_info.best_path, second.greedy_info.best_path);
    assert_eq!(first.greedy_info.best_cost, second.greedy_info.best_cost);
    let found = first.greedy_info.best_path.clone();
    let cost = first.greedy_info.best_cost;
    first.greedy();
    assert_eq!(first.greedy_info.paths_checked, 2);
    assert_eq!(first.greedy_info.best_path, found);
    assert_eq!(first.greedy_info.best_cost, cost);
    assert_eq!(found.map(|p| check_tour(&p, 9)), Some(Ok(())));
}

#[test]
fn greedy_on_a_single_city() {
    let mut tsp = TSP::new(ECM { ecm: vec![vec![0]] });
    tsp.greedy();
    assert_eq!(tsp.greedy_info.best_path, Some(vec![0, 0]));
    assert_eq!(tsp.greedy_info.best_cost, 0);
    assert_eq!(tsp.greedy_info.paths_checked, 1);
}

#[test]
fn exact_search_checks_factorially_many_paths() {
    for n in 1..9usize {
        let mut tsp = TSP::new(generate_ecm(n));
        tsp.brute_force();
        assert_eq!(tsp.brute_info.paths_checked, factorial(n as u64 - 1));
        let best = tsp.brute_info.best_path.clone();
        assert_eq!(best.as_ref().map(|p| check_tour(p, n)), Some(Ok(())));
        assert_eq!(best.map(|p| tsp.ecm.path_cost(&p)), Some(tsp.brute_info.best_cost));
    }
}

#[test]
fn exact_search_without_cities_does_nothing() {
    let mut tsp = TSP::new(ECM { ecm: Vec::new() });
    tsp.brute_force();
    assert_eq!(tsp.brute_info.best_path, None);
    assert_eq!(tsp.brute_info.best_cost, 0);
    assert_eq!(tsp.brute_info.paths_checked, 0);
}

#[test]
fn exact_search_on_one_and_two_cities() {
    let mut one = TSP::new(ECM { ecm: vec![vec![0]] });
    one.brute_force();
    assert_eq!(one.brute_info.best_path, Some(vec![0, 0]));
    assert_eq!(one.brute_info.paths_checked, 1);
    let mut two = TSP::new(ECM { ecm: vec![vec![0, 8], vec![8, 0]] });
    two.brute_force();
    assert_eq!(two.brute_info.best_path, Some(vec![0, 1, 0]));
    assert_eq!(two.brute_info.best_cost, 16);
    assert_eq!(two.brute_info.paths_checked, 1);
}

#[test]
fn exact_search_finds_the_cheapest_of_all_orders() {
    let m = five_cities();
    let mut least = u64::MAX;
    for a in 1..5u32 {
        for b in 1..5u32 {
            for c in 1..5u32 {
                for d in 1..5u32 {
                    let path = [0, a, b, c, d, 0];
                    if check_tour(&path, 5).is_ok() {
                        least = least.min(m.path_cost(&path));
                    }
                }
            }
        }
    }
    let mut tsp = TSP::new(m);
    tsp.brute_force();
    assert_eq!(tsp.brute_info.best_cost, least);
    assert_eq!(tsp.brute_info.best_cost, 13);
    assert_eq!(tsp.brute_info.best_path, Some(vec![0, 2, 1, 3, 4, 0]));
    assert_eq!(tsp.brute_info.paths_checked, 24);
}

#[test]
fn exact_search_accumulates_until_reset() {
    let mut tsp = TSP::new(four_cities());
    tsp.brute_force();
    tsp.brute_force();
    assert_eq!(tsp.brute_info.paths_checked, 12);
    assert_eq!(tsp.brute_info.best_path, Some(vec![0, 1, 2, 3, 0]));
}

#[test]
fn exact_search_is_never_beaten() {
    for n in 1..8usize {
        let mut tsp = TSP::new(generate_ecm(n));
        tsp.brute_force();
        tsp.greedy();
        tsp.monte_carlo(50);
        assert!(tsp.brute_info.best_cost <= tsp.greedy_info.best_cost);
        assert!(tsp.brute_info.best_cost <= tsp.monte_info.best_cost);
    }
}

#[test]
fn reset_and_rerun_reproduces_the_result() {
    let mut tsp = TSP::new(generate_ecm(7));
    tsp.greedy();
    tsp.brute_force();
    let greedy = (tsp.greedy_info.best_path.clone(), tsp.greedy_info.best_cost);
    let exact = (tsp.brute_info.best_path.clone(), tsp.brute_info.best_cost);
    tsp.greedy_info.reset();
    tsp.brute_info.reset();
    tsp.greedy();
    tsp.brute_force();
    assert_eq!((tsp.greedy_info.best_path.clone(), tsp.greedy_info.best_cost), greedy);
    assert_eq!((tsp.brute_info.best_path.clone(), tsp.brute_info.best_cost), exact);
    assert_eq!(tsp.greedy_info.paths_checked, 1);
    assert_eq!(tsp.brute_info.paths_checked, 720);
}

#[test]
fn random_search_counts_its_trials() {
    let mut tsp = TSP::new(generate_ecm(6));
    tsp.monte_carlo(0);
    assert_eq!(tsp.monte_info.paths_checked, 0);
    assert_eq!(tsp.monte_info.best_path, None);
    tsp.monte_carlo(20);
    assert_eq!(tsp.monte_info.paths_checked, 20);
    tsp.monte_carlo(7);
    assert_eq!(tsp.monte_info.paths_checked, 27);
    tsp.monte_info.reset();
    tsp.monte_carlo(3);
    assert_eq!(tsp.monte_info.paths_checked, 3);
}

#[test]
fn random_search_offers_tours() {
    for n in 1..10usize {
        for _ in 0..20 {
            let mut tsp = TSP::new(generate_ecm(n));
            tsp.monte_carlo(1);
            let path = tsp.monte_info.best_path.clone();
            assert_eq!(path.as_ref().map(|p| check_tour(p, n)), Some(Ok(())));
            assert_eq!(path.map(|p| tsp.ecm.path_cost(&p)), Some(tsp.monte_info.best_cost));
        }
    }
}

#[test]
fn random_search_without_cities_and_trials() {
    let mut tsp = TSP::new(ECM { ecm: Vec::new() });
    tsp.monte_carlo(0);
    assert_eq!(tsp.monte_info.paths_checked, 0);
}

#[test]
fn random_search_reorders_the_cities() {
    let n = 8usize;
    let mut rows = vec![vec![1u32; n]; n];
    for i in 0..n {
        rows[i][i] = 0;
        let next = (i + 1) % n;
        rows[i][next] = 1000;
        rows[next][i] = 1000;
    }
    let mut tsp = TSP::new(ECM { ecm: rows });
    let in_order: Vec<u32> = vec![0, 1, 2, 3, 4, 5, 6, 7, 0];
    let worst = tsp.ecm.path_cost(&in_order);
    assert_eq!(worst, 8000);
    tsp.monte_carlo(200);
    assert!(tsp.monte_info.best_cost < worst);
    assert_ne!(tsp.monte_info.best_path, Some(in_order));
}

#[test]
fn strategies_write_their_own_records_only() {
    let mut tsp = TSP::new(generate_ecm(5));
    tsp.greedy();
    assert_eq!(tsp.brute_info.paths_checked, 0);
    assert_eq!(tsp.monte_info.paths_checked, 0);
    assert_eq!(tsp.ant_system_info.paths_checked, 0);
    tsp.monte_carlo(4);
    tsp.brute_force();
    assert_eq!(tsp.greedy_info.paths_checked, 1);
    assert_eq!(tsp.monte_info.paths_checked, 4);
    assert_eq!(tsp.brute_info.paths_checked, 24);
    assert_eq!(tsp.ant_system_info.paths_checked, 0);
}

#[test]
fn try_update_best_takes_tours_only() {
    let tsp = TSP::new(four_cities());
    let mut info = TSPInfo::new();
    assert_eq!(tsp.try_update_best(&[0, 1, 2, 0], &mut info), Err(InvariantViolation::WrongLength));
    assert_eq!(tsp.try_update_best(&[0, 1, 2, 3, 1], &mut info), Err(InvariantViolation::WrongEndpoints));
    assert_eq!(tsp.try_update_best(&[0, 1, 9, 3, 0], &mut info), Err(InvariantViolation::NotACity));
    assert_eq!(tsp.try_update_best(&[0, 1, 3, 3, 0], &mut info), Err(InvariantViolation::RepeatedCity));
    assert_eq!(info.best_path, None);
    assert_eq!(info.best_cost, 0);
    assert_eq!(info.paths_checked, 0);
    assert_eq!(tsp.try_update_best(&[0, 3, 1, 2, 0], &mut info), Ok(()));
    assert_eq!(info.best_path, Some(vec![0, 3, 1, 2, 0]));
    assert_eq!(info.best_cost, 14);
    assert_eq!(info.paths_checked, 1);
}
