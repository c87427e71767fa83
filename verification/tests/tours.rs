use tsp::tour::{check_tour, home_path, other_cities, InvariantViolation, Route};

#[test]
fn check_tour_accepts_tours() {
    assert_eq!(check_tour(&[0, 1, 2, 3, 0], 4), Ok(()));
    assert_eq!(check_tour(&[0, 3, 1, 2, 0], 4), Ok(()));
    assert_eq!(check_tour(&[0, 0], 1), Ok(()));
    assert_eq!(check_tour(&[0, 1, 0], 2), Ok(()));
    assert_eq!(check_tour(&[0], 0), Ok(()));
}

#[test]
fn check_tour_rejects_wrong_length() {
    assert_eq!(check_tour(&[0, 1, 2, 0], 4), Err(InvariantViolation::WrongLength));
    assert_eq!(check_tour(&[0, 1, 2, 3, 0, 0], 4), Err(InvariantViolation::WrongLength));
    assert_eq!(check_tour(&[], 0), Err(InvariantViolation::WrongLength));
    assert_eq!(check_tour(&[], 3), Err(InvariantViolation::WrongLength));
    assert_eq!(check_tour(&[0], usize::MAX), Err(InvariantViolation::WrongLength));
}

#[test]
fn check_tour_rejects_wrong_endpoints() {
    assert_eq!(check_tour(&[1, 2, 3, 0, 0], 4), Err(InvariantViolation::WrongEndpoints));
    assert_eq!(check_tour(&[0, 1, 2, 3, 3], 4), Err(InvariantViolation::WrongEndpoints));
    assert_eq!(check_tour(&[5], 0), Err(InvariantViolation::WrongEndpoints));
}

#[test]
fn check_tour_rejects_what_names_no_city() {
    assert_eq!(check_tour(&[0, 1, 4, 3, 0], 4), Err(InvariantViolation::NotACity));
    assert_eq!(check_tour(&[0, 1, 0, 3, 0], 4), Err(InvariantViolation::NotACity));
    assert_eq!(check_tour(&[0, 4, 4, 3, 0], 4), Err(InvariantViolation::NotACity));
}

#[test]
fn check_tour_rejects_repeated_city() {
    assert_eq!(check_tour(&[0, 1, 1, 3, 0], 4), Err(InvariantViolation::RepeatedCity));
    assert_eq!(check_tour(&[0, 2, 3, 2, 0], 4), Err(InvariantViolation::RepeatedCity));
}

#[test]
fn home_path_and_other_cities() {
    assert_eq!(home_path(0), vec![0]);
    assert_eq!(home_path(1), vec![0, 0]);
    assert_eq!(home_path(4), vec![0, 1, 2, 3, 0]);
    assert_eq!(other_cities(0), Vec::<u32>::new());
    assert_eq!(other_cities(1), Vec::<u32>::new());
    assert_eq!(other_cities(4), vec![1, 2, 3]);
}

#[test]
fn route_moves_last_city_into_the_gap() {
    let mut route = Route::start(5);
    assert_eq!(route.last(), 0);
    assert_eq!(route.left(), &vec![1, 2, 3, 4]);
    assert!(!route.is_complete());
    route.visit(1);
    assert_eq!(route.last(), 2);
    assert_eq!(route.left(), &vec![1, 4, 3]);
    route.visit(0);
    assert_eq!(route.last(), 1);
    assert_eq!(route.left(), &vec![3, 4]);
    route.visit(1);
    assert_eq!(route.left(), &vec![3]);
    route.visit(0);
    assert!(route.is_complete());
    let path = route.close();
    assert_eq!(path, vec![0, 2, 1, 4, 3, 0]);
    assert_eq!(check_tour(&path, 5), Ok(()));
}

#[test]
fn route_of_one_city_goes_straight_home() {
    let route = Route::start(1);
    assert!(route.is_complete());
    assert_eq!(route.close(), vec![0, 0]);
}

#[test]
fn every_choice_of_visits_gives_a_tour() {
    for first in 0..4usize {
        for second in 0..3usize {
            for third in 0..2usize {
                let mut route = Route::start(5);
                route.visit(first);
                route.visit(second);
                route.visit(third);
                route.visit(0);
                assert_eq!(check_tour(&route.close(), 5), Ok(()));
            }
        }
    }
}
