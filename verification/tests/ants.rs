use tsp::aco::{AntAction, Colony};
use tsp::ecm::{generate_ecm, ECM};
use tsp::tour::{check_tour, Route};
use tsp::tsp::TSP;

fn five_cities() -> ECM {
    ECM {
        ecm: vec![
            vec![0, 7, 3, 9, 4],
            vec![7, 0, 3, 2, 8],
            vec![3, 3, 0, 6, 5],
            vec![9, 2, 6, 0, 1],
            vec![4, 8, 5, 1, 0],
        ],
    }
}

fn walk(n: usize, step: usize) -> Vec<u32> {
    let mut route = Route::start(n);
    let mut turn = step;
    while !route.is_complete() {
        let k = turn % route.left().len();
        route.visit(k);
        turn += step;
    }
    route.close()
}

fn run(tsp: &mut TSP, mut colony: Colony) -> (usize, usize) {
    let n = tsp.ecm.ecm.len();
    let mut ants = 0;
    let mut rounds = 0;
    loop {
        match colony.next_action() {
            AntAction::Construct => {
                let path = walk(n, ants);
                let before = colony.best_cost();
                let cost = tsp.record_ant(&mut colony, &path);
                assert_eq!(cost, tsp.ecm.path_cost(&path));
                assert!(colony.best_cost() <= before);
                assert_eq!(colony.best_cost(), before.min(cost));
                ants += 1;
            }
            AntAction::Reinforce => {
                colony.end_round();
                rounds += 1;
            }
            AntAction::Finish => break,
        }
    }
    tsp.finish_ant_system(colony);
    (ants, rounds)
}

#[test]
fn run_begins_with_the_baseline() {
    let mut tsp = TSP::new(five_cities());
    let colony = tsp.ant_system(3, 2);
    assert_eq!(colony.best_path(), &vec![0, 1, 2, 3, 4, 0]);
    assert_eq!(colony.best_cost(), 7 + 3 + 6 + 1 + 4);
    assert_eq!(colony.next_action(), AntAction::Construct);
    assert_eq!(tsp.ant_system_info.paths_checked, 1);
    assert_eq!(tsp.ant_system_info.best_path, Some(vec![0, 1, 2, 3, 4, 0]));
    assert_eq!(tsp.ant_system_info.best_cost, 21);
}

#[test]
fn run_asks_for_each_ant_of_each_round() {
    let mut tsp = TSP::new(five_cities());
    let mut colony = tsp.ant_system(2, 2);
    let path = [0, 2, 1, 3, 4, 0];
    assert_eq!(colony.next_action(), AntAction::Construct);
    tsp.record_ant(&mut colony, &path);
    assert_eq!(colony.next_action(), AntAction::Construct);
    tsp.record_ant(&mut colony, &path);
    assert_eq!(colony.next_action(), AntAction::Reinforce);
    colony.end_round();
    assert_eq!(colony.next_action(), AntAction::Construct);
    tsp.record_ant(&mut colony, &path);
    tsp.record_ant(&mut colony, &path);
    assert_eq!(colony.next_action(), AntAction::Reinforce);
    colony.end_round();
    assert_eq!(colony.next_action(), AntAction::Finish);
    tsp.finish_ant_system(colony);
    assert_eq!(tsp.ant_system_info.paths_checked, 5);
    assert_eq!(tsp.ant_system_info.best_path, Some(vec![0, 2, 1, 3, 4, 0]));
    assert_eq!(tsp.ant_system_info.best_cost, 13);
}

#[test]
fn ants_are_counted_as_they_are_recorded() {
    let mut tsp = TSP::new(five_cities());
    let mut colony = tsp.ant_system(3, 1);
    tsp.record_ant(&mut colony, &[0, 2, 1, 3, 4, 0]);
    assert_eq!(tsp.ant_system_info.paths_checked, 2);
    assert_eq!(tsp.ant_system_info.best_cost, 21);
    assert_eq!(colony.best_cost(), 13);
    assert_eq!(colony.best_path(), &vec![0, 2, 1, 3, 4, 0]);
    tsp.record_ant(&mut colony, &[0, 4, 3, 1, 2, 0]);
    assert_eq!(tsp.ant_system_info.paths_checked, 3);
    assert_eq!(colony.best_cost(), 13);
    assert_eq!(colony.best_path(), &vec![0, 2, 1, 3, 4, 0]);
}

#[test]
fn leader_keeps_first_of_equally_cheap_paths() {
    let mut tsp = TSP::new(five_cities());
    let mut colony = tsp.ant_system(2, 1);
    tsp.record_ant(&mut colony, &[0, 4, 3, 1, 2, 0]);
    tsp.record_ant(&mut colony, &[0, 2, 1, 3, 4, 0]);
    assert_eq!(colony.best_cost(), 13);
    assert_eq!(colony.best_path(), &vec![0, 4, 3, 1, 2, 0]);
    colony.end_round();
    tsp.finish_ant_system(colony);
    assert_eq!(tsp.ant_system_info.best_path, Some(vec![0, 4, 3, 1, 2, 0]));
    assert_eq!(tsp.ant_system_info.best_cost, 13);
    assert_eq!(tsp.ant_system_info.paths_checked, 3);
}

#[test]
fn run_counts_baseline_and_ants() {
    for (ants, rounds) in [(0usize, 0usize), (0, 3), (4, 0), (1, 1), (3, 5), (7, 2)] {
        let mut tsp = TSP::new(generate_ecm(6));
        let colony = tsp.ant_system(ants, rounds);
        let (recorded, ended) = run(&mut tsp, colony);
        assert_eq!(recorded, ants * rounds);
        assert_eq!(ended, rounds);
        assert_eq!(tsp.ant_system_info.paths_checked, (ants * rounds) as u64 + 1);
        let best = tsp.ant_system_info.best_path.clone();
        assert_eq!(best.as_ref().map(|p| check_tour(p, 6)), Some(Ok(())));
        assert_eq!(best.map(|p| tsp.ecm.path_cost(&p)), Some(tsp.ant_system_info.best_cost));
    }
}

#[test]
fn aco_sends_as_many_ants_as_there_are_cities() {
    let mut tsp = TSP::new(generate_ecm(5));
    let colony = tsp.aco(3);
    let (recorded, ended) = run(&mut tsp, colony);
    assert_eq!(recorded, 15);
    assert_eq!(ended, 3);
    assert_eq!(tsp.ant_system_info.paths_checked, 16);
}

#[test]
fn run_without_ants_keeps_the_baseline() {
    let mut tsp = TSP::new(five_cities());
    let colony = tsp.ant_system(0, 4);
    let (recorded, ended) = run(&mut tsp, colony);
    assert_eq!((recorded, ended), (0, 4));
    assert_eq!(tsp.ant_system_info.best_path, Some(vec![0, 1, 2, 3, 4, 0]));
    assert_eq!(tsp.ant_system_info.best_cost, 21);
    assert_eq!(tsp.ant_system_info.paths_checked, 1);
}

#[test]
fn run_without_cities() {
    let mut tsp = TSP::new(ECM { ecm: Vec::new() });
    let colony = tsp.aco(2);
    assert_eq!(colony.best_path(), &vec![0]);
    assert_eq!(colony.best_cost(), 0);
    assert_eq!(colony.next_action(), AntAction::Reinforce);
    let (recorded, ended) = run(&mut tsp, colony);
    assert_eq!((recorded, ended), (0, 2));
    assert_eq!(tsp.ant_system_info.best_path, Some(vec![0]));
    assert_eq!(tsp.ant_system_info.paths_checked, 1);
}

#[test]
fn runs_accumulate_in_the_record() {
    let mut tsp = TSP::new(five_cities());
    let colony = tsp.ant_system(2, 2);
    run(&mut tsp, colony);
    let first = tsp.ant_system_info.best_cost;
    let colony = tsp.ant_system(3, 1);
    run(&mut tsp, colony);
    assert_eq!(tsp.ant_system_info.paths_checked, 5 + 4);
    assert!(tsp.ant_system_info.best_cost <= first);
    tsp.ant_system_info.reset();
    assert_eq!(tsp.ant_system_info.paths_checked, 0);
}

#[test]
fn exact_search_is_never_beaten_by_ants() {
    let mut tsp = TSP::new(generate_ecm(6));
    tsp.brute_force();
    let colony = tsp.aco(4);
    run(&mut tsp, colony);
    assert!(tsp.brute_info.best_cost <= tsp.ant_system_info.best_cost);
}
