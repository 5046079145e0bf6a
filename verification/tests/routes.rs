use qroute::compose::{best_route, route};
use qroute::learn::{train, train_from_draws, Config, QTable};
use qroute::model::{state_to_location, Environment};
use qroute::random::RandomSource;
use qroute::RouteError;
use qroute::{DENOM, GOAL_BONUS, MAX_REWARD};

fn reference_setup() -> (Environment, Config) {
    (Environment::reference(), Config::reference())
}

fn well_trained() -> Config {
    Config { gamma_num: 750, alpha_num: 900, episodes: 4000 }
}

#[test]
fn constants_of_the_reference_configuration() {
    let cfg = Config::reference();
    assert_eq!(cfg.gamma_num, 750);
    assert_eq!(cfg.alpha_num, 900);
    assert_eq!(cfg.episodes, 1000);
    assert_eq!(DENOM, 1000);
    assert_eq!(GOAL_BONUS, 1000);
}

#[test]
fn route_from_a_location_to_itself_is_that_location() {
    let (env, cfg) = reference_setup();
    let mut src = RandomSource::from_seed(11);
    let r = route(&env, &cfg, &mut src, "E", "E").unwrap();
    assert_eq!(r, vec!["E".to_string()]);
}

#[test]
fn goal_matrix_alters_exactly_one_entry() {
    let env = Environment::reference();
    let goal: usize = 6;
    let m = env.rewards_for_goal(goal);
    let mut altered = 0;
    for i in 0..12 {
        for j in 0..12 {
            if m[i][j] != env.reward(i, j) {
                altered += 1;
                assert_eq!((i, j), (goal, goal));
                assert_eq!(m[i][j], GOAL_BONUS);
            }
        }
    }
    assert_eq!(altered, 1);
}

#[test]
fn goal_matrix_alters_exactly_one_entry_for_every_goal() {
    let env = Environment::reference();
    for goal in 0..12 {
        let m = env.rewards_for_goal(goal);
        for i in 0..12 {
            for j in 0..12 {
                if i == goal && j == goal {
                    assert_eq!(m[i][j], GOAL_BONUS);
                } else {
                    assert_eq!(m[i][j], env.reward(i, j));
                }
            }
        }
    }
}

#[test]
fn extraction_is_deterministic_for_a_fixed_table() {
    let rows = vec![
        vec![5, 80, 3, 0],
        vec![0, 0, 90, 7],
        vec![1, 2, 3, 400],
        vec![0, 0, 0, 1000],
    ];
    let q = QTable::from_rows(rows).unwrap();
    let r1 = qroute::extract::extract_route(&q, 0, 3, 4).unwrap();
    let r2 = qroute::extract::extract_route(&q, 0, 3, 4).unwrap();
    assert_eq!(r1, r2);
    assert_eq!(r1, vec![0, 1, 2, 3]);
}

#[test]
fn extraction_breaks_ties_toward_the_lowest_index() {
    let rows = vec![vec![0, 7, 7], vec![0, 9, 9], vec![0, 0, 0]];
    let q = QTable::from_rows(rows).unwrap();
    // Row 0 has the tie 7/7 at indices 1 and 2: the scan keeps index 1.
    let r = qroute::extract::extract_route(&q, 0, 1, 3).unwrap();
    assert_eq!(r, vec![0, 1]);
}

#[test]
fn extraction_stalls_on_an_untrained_table() {
    let rows = vec![vec![0; 12]; 12];
    let q = QTable::from_rows(rows).unwrap();
    let r = qroute::extract::extract_route(&q, 4, 6, 12);
    assert_eq!(r.unwrap_err(), RouteError::RouteExtractionStalled);
}

#[test]
fn reference_route_is_a_real_path_to_the_goal() {
    let env = Environment::reference();
    let cfg = well_trained();
    let mut src = RandomSource::from_seed(7);
    let r = route(&env, &cfg, &mut src, "E", "G").unwrap();
    assert_eq!(r.first().unwrap(), "E");
    assert_eq!(r.last().unwrap(), "G");
    assert!(r.len() <= 12);
    for pair in r.windows(2) {
        let i = env.state_of(&pair[0]).unwrap();
        let j = env.state_of(&pair[1]).unwrap();
        assert!(env.reward(i, j) > 0, "{}->{} is not an aisle", pair[0], pair[1]);
    }
}

#[test]
fn reference_routes_reach_every_goal() {
    let env = Environment::reference();
    let cfg = well_trained();
    let names = ["A", "B", "C", "D", "E", "F", "G", "H", "I", "J", "K", "L"];
    for (k, goal) in names.iter().enumerate() {
        let mut src = RandomSource::from_seed(100 + k as u64);
        let r = route(&env, &cfg, &mut src, "A", goal).unwrap();
        assert_eq!(r.first().unwrap(), "A");
        assert_eq!(r.last().unwrap(), goal);
    }
}

#[test]
fn waypoint_route_passes_through_the_waypoint_once() {
    let env = Environment::reference();
    let cfg = well_trained();
    let mut src = RandomSource::from_seed(3);
    let r = best_route(&env, &cfg, &mut src, "E", "K", "G").unwrap();
    assert_eq!(r.first().unwrap(), "E");
    assert_eq!(r.last().unwrap(), "G");
    assert!(r.contains(&"K".to_string()));
    for pair in r.windows(2) {
        let i = env.state_of(&pair[0]).unwrap();
        let j = env.state_of(&pair[1]).unwrap();
        assert!(env.reward(i, j) > 0);
    }
}

#[test]
fn waypoint_route_is_the_two_legs_minus_the_duplicate() {
    let env = Environment::reference();
    let cfg = well_trained();
    // The same seed gives the same draws, so the two-leg query must equal
    // the two one-leg queries run on sources in the same states.
    let mut src_both = RandomSource::from_seed(21);
    let stitched = best_route(&env, &cfg, &mut src_both, "E", "K", "G").unwrap();
    let mut src_again = RandomSource::from_seed(21);
    let leg1 = route(&env, &cfg, &mut src_again, "E", "K").unwrap();
    let leg2 = route(&env, &cfg, &mut src_again, "K", "G").unwrap();
    let mut expected = leg1.clone();
    expected.extend_from_slice(&leg2[1..]);
    assert_eq!(stitched, expected);
    assert_eq!(leg1.last(), leg2.first());
}

#[test]
fn unknown_start_is_rejected() {
    let (env, cfg) = reference_setup();
    let mut src = RandomSource::from_seed(1);
    let r = route(&env, &cfg, &mut src, "X", "G");
    assert_eq!(r.unwrap_err(), RouteError::UnknownLocation("X".to_string()));
}

#[test]
fn unknown_end_is_rejected() {
    let (env, cfg) = reference_setup();
    let mut src = RandomSource::from_seed(1);
    let r = route(&env, &cfg, &mut src, "E", "Z");
    assert_eq!(r.unwrap_err(), RouteError::UnknownLocation("Z".to_string()));
}

#[test]
fn unknown_waypoint_is_rejected_before_either_leg() {
    let (env, cfg) = reference_setup();
    let mut src = RandomSource::from_seed(1);
    let r = best_route(&env, &cfg, &mut src, "E", "?", "G");
    assert_eq!(r.unwrap_err(), RouteError::UnknownLocation("?".to_string()));
}

#[test]
fn update_rule_computes_the_fixed_point_formula_exactly() {
    // Two states; moving 0 -> 1 pays 5, staying 1 -> 1 pays 100.
    let rewards = vec![vec![0, 5], vec![0, 100]];
    // Discount 0.5, learning rate 1: each update lands on its target.
    let cfg = Config { gamma_num: 500, alpha_num: 1000, episodes: 2 };
    let draws = vec![(1usize, 1usize), (0usize, 1usize)];
    let q = train_from_draws(&rewards, &cfg, &draws);
    // First draw: target = 100 * 1000 + 0 = 100000 thousandths.
    assert_eq!(q.value(1, 1), 100_000);
    // Second draw: target = 5 * 1000 + (500 * 100000) / 1000 = 55000.
    assert_eq!(q.value(0, 1), 55_000);
    assert_eq!(q.value(0, 0), 0);
    assert_eq!(q.value(1, 0), 0);
    // Learning rate 0.9 steps nine tenths of the way, rounding down.
    let cfg = Config { gamma_num: 500, alpha_num: 900, episodes: 2 };
    let q = train_from_draws(&rewards, &cfg, &draws);
    assert_eq!(q.value(1, 1), 90_000);
    assert_eq!(q.value(0, 1), (900 * (5_000 + (500 * 90_000) / 1000)) / 1000);
}

#[test]
fn training_with_the_same_seed_is_bit_identical() {
    let env = Environment::reference();
    let cfg = Config::reference();
    let goal = env.rewards_for_goal(6);
    let mut src1 = RandomSource::from_seed(42);
    let mut src2 = RandomSource::from_seed(42);
    let q1 = train(&goal, &cfg, &mut src1);
    let q2 = train(&goal, &cfg, &mut src2);
    assert_eq!(q1.size(), 12);
    assert_eq!(q2.size(), 12);
    for i in 0..12 {
        for j in 0..12 {
            assert_eq!(q1.value(i, j), q2.value(i, j));
        }
    }
}

#[test]
fn training_stays_within_the_value_bound() {
    let env = Environment::reference();
    let cfg = well_trained();
    let goal = env.rewards_for_goal(6);
    let mut src = RandomSource::from_seed(9);
    let q = train(&goal, &cfg, &mut src);
    for i in 0..12 {
        for j in 0..12 {
            assert!(q.value(i, j) >= 0);
            assert!(q.value(i, j) <= qroute::Q_BOUND);
        }
    }
    // The goal's self-transition must have learned a strictly positive value.
    assert!(q.value(6, 6) > 0);
}

#[test]
fn environment_rejects_bad_data() {
    // Duplicate names.
    let names = vec!["A".to_string(), "A".to_string()];
    let rewards = vec![vec![0, 1], vec![1, 0]];
    assert!(Environment::new(names, rewards).is_none());
    // Matrix not square.
    let names = vec!["A".to_string(), "B".to_string()];
    let rewards = vec![vec![0, 1]];
    assert!(Environment::new(names, rewards).is_none());
    // Ragged row.
    let names = vec!["A".to_string(), "B".to_string()];
    let rewards = vec![vec![0, 1], vec![1]];
    assert!(Environment::new(names, rewards).is_none());
    // Entry out of bounds.
    let names = vec!["A".to_string(), "B".to_string()];
    let rewards = vec![vec![0, -1], vec![1, 0]];
    assert!(Environment::new(names, rewards).is_none());
    let names = vec!["A".to_string(), "B".to_string()];
    let rewards = vec![vec![0, MAX_REWARD + 1], vec![1, 0]];
    assert!(Environment::new(names, rewards).is_none());
    // No locations at all.
    assert!(Environment::new(Vec::new(), Vec::new()).is_none());
    // A well-formed instance passes.
    let names = vec!["A".to_string(), "B".to_string()];
    let rewards = vec![vec![0, 1], vec![1, 0]];
    assert!(Environment::new(names, rewards).is_some());
}

#[test]
fn environment_accepts_a_custom_instance() {
    let names = vec!["dock".to_string(), "aisle".to_string(), "bay".to_string()];
    let rewards = vec![vec![0, 1, 0], vec![1, 0, 1], vec![0, 1, 0]];
    let env = Environment::new(names, rewards).unwrap();
    let cfg = well_trained();
    let mut src = RandomSource::from_seed(5);
    let r = route(&env, &cfg, &mut src, "dock", "bay").unwrap();
    assert_eq!(r, vec!["dock".to_string(), "aisle".to_string(), "bay".to_string()]);
}

#[test]
fn locations_lists_the_reference_names_in_state_order() {
    let env = Environment::reference();
    let names = env.locations();
    assert_eq!(
        names,
        ["A", "B", "C", "D", "E", "F", "G", "H", "I", "J", "K", "L"]
            .iter()
            .map(|s| s.to_string())
            .collect::<Vec<_>>()
    );
}

#[test]
fn state_to_location_maps_every_state() {
    let m = state_to_location();
    assert_eq!(m.len(), 12);
    let names = ["A", "B", "C", "D", "E", "F", "G", "H", "I", "J", "K", "L"];
    for (s, name) in names.iter().enumerate() {
        assert_eq!(m[&s], *name);
    }
    assert!(!m.contains_key(&12));
}

#[test]
fn random_source_draws_stay_in_range() {
    let mut src = RandomSource::from_seed(77);
    for _ in 0..200 {
        assert!(src.next_below(5) < 5);
    }
    assert_eq!(src.next_below(1), 0);
    let items = vec![3usize, 7, 9];
    for _ in 0..50 {
        let picked = src.pick_from(&items);
        assert!(items.contains(&picked));
    }
}
