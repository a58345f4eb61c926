use complete_iter::fixed::SCALE;
use complete_iter::models::{Edge, ModelState, StateLink, SystemState};

fn fx(x: f64) -> i64 {
    (x * SCALE as f64).round() as i64
}

// Simple system state creation
#[test]
fn creation_test() {
    // A state with a single action that points to itself
    let action = String::from("Single_Action");
    let mut test_state = ModelState::new(0);
    test_state.insert_link(0, &action, fx(1.), fx(10.));
    test_state.calc_eval_rewards();
    test_state.calc_eval_transition();

    let links = vec![StateLink(0, 0, "Single_Action".to_string(), fx(1.), fx(10.))];
    let mut test_system = SystemState::create_and_build(links);
    test_system.build();

    assert_eq!(test_state, *test_system.get_state(&0).unwrap());
}

// Model with initial and final state
#[test]
fn transition_test() {
    // An initial state and an end state
    // Two actions, one leads to end without reward
    // Other leads to either same state or end with a reward
    let action_1 = String::from("First_Action");
    let action_2 = String::from("Second_Action");

    let mut test_state_1 = ModelState::new(0);
    test_state_1.insert_link(1, &action_1, fx(1.), fx(0.));
    test_state_1.insert_link(0, &action_2, fx(0.9), fx(0.));
    test_state_1.insert_link(1, &action_2, fx(0.1), fx(10.));
    test_state_1.calc_eval_rewards();
    test_state_1.calc_eval_transition();

    let mut test_state_2 = ModelState::new(1);
    test_state_2.calc_eval_rewards();
    test_state_2.calc_eval_transition();

    let test_states: Vec<ModelState> = vec![test_state_1, test_state_2];

    // Using built in builder
    let links = vec![
        StateLink(0, 1, action_1.clone(), fx(1.), fx(0.)),
        StateLink(0, 0, action_2.clone(), fx(0.9), fx(0.)),
        StateLink(0, 1, action_2.clone(), fx(0.1), fx(10.)),
    ];
    let test_system = SystemState::create_and_build(links);

    assert_eq!(test_states, *test_system.get_all_states());
}

// Test eval_action_rewards and eval_transition_probs
#[test]
fn eval_action_rewards_test() {
    let action_1 = String::from("First_Action");
    let action_2 = String::from("Second_Action");

    let links = vec![
        StateLink(0, 1, action_1.clone(), fx(1.), fx(0.)),
        StateLink(0, 0, action_2.clone(), fx(0.9), fx(0.)),
        StateLink(0, 1, action_2.clone(), fx(0.1), fx(10.)),
    ];
    let test_system = SystemState::create_and_build(links);
    let state = test_system.get_state(&0).unwrap();

    // Action order is First_Action, Second_Action.
    let expected_rewards: Vec<i64> = vec![fx(0.), fx(1.)];
    // Destinations in order of first appearance: 1, then 0.
    let expected_dests: Vec<i64> = vec![1, 0];
    let expected_probs: Vec<Vec<i64>> = vec![vec![fx(1.), fx(0.1)], vec![fx(0.), fx(0.9)]];

    assert_eq!(*state.get_eval_rewards(), expected_rewards);
    assert_eq!(*state.get_eval_dests(), expected_dests);
    assert_eq!(*state.get_eval_probs(), expected_probs);
}

#[test]
fn build_creates_every_endpoint_and_only_those() {
    let links = vec![
        StateLink(5, 7, "a".to_string(), fx(0.5), fx(1.)),
        StateLink(5, 9, "a".to_string(), fx(0.5), fx(2.)),
        StateLink(9, 5, "b".to_string(), fx(1.), fx(0.)),
    ];
    let sys = SystemState::create_and_build(links);
    let ids: Vec<i64> = sys.get_all_states().iter().map(|s| s.get_id()).collect();
    assert_eq!(ids, vec![5, 7, 9]);
    assert_eq!(sys.state_ids(), vec![5, 7, 9]);
    assert!(sys.get_state(&8).is_none());
    assert_eq!(sys.get_state(&7).unwrap().get_all_probs().len(), 0);
    assert_eq!(
        sys.get_state(&5).unwrap().get_probs(&"a".to_string()),
        Some(vec![(7, fx(0.5)), (9, fx(0.5))])
    );
    assert_eq!(
        sys.get_state(&5).unwrap().get_action_reward(&"a".to_string()),
        Some(vec![(7, fx(1.)), (9, fx(2.))])
    );
    assert_eq!(sys.get_state(&5).unwrap().get_probs(&"b".to_string()), None);
    assert_eq!(sys.get_state(&9).unwrap().get_action_reward(&"a".to_string()), None);
}

#[test]
fn repeated_action_and_destination_overwrites() {
    let links = vec![
        StateLink(0, 1, "a".to_string(), fx(0.3), fx(1.)),
        StateLink(0, 1, "a".to_string(), fx(1.), fx(4.)),
    ];
    let sys = SystemState::create_and_build(links);
    let state = sys.get_state(&0).unwrap();
    assert_eq!(
        *state.get_all_probs(),
        vec![Edge { action: 0, dest: 1, prob: fx(1.), reward: fx(4.) }]
    );
    assert_eq!(*state.get_eval_rewards(), vec![fx(4.)]);
    assert_eq!(state.get_actions().len(), 1);
}

#[test]
fn uniform_random_policy_of_a_state() {
    let mut state = ModelState::new(3);
    assert_eq!(state.get_random_policy(), Vec::<i64>::new());
    state.insert_link(4, &"x".to_string(), fx(1.), 0);
    state.insert_link(4, &"y".to_string(), fx(1.), 0);
    state.insert_link(5, &"z".to_string(), fx(1.), 0);
    assert_eq!(state.get_random_policy(), vec![SCALE / 3; 3]);
    assert_eq!(*state.action_label(1), "y".to_string());
}

#[test]
fn state_reward_is_kept() {
    let mut state = ModelState::new(2);
    assert_eq!(state.get_reward(), 0);
    state.set_reward(fx(2.5));
    assert_eq!(state.get_reward(), fx(2.5));
    assert_eq!(state.get_id(), 2);
}

#[test]
fn all_action_rewards_by_action() {
    let links = vec![
        StateLink(0, 1, "a".to_string(), fx(0.5), fx(1.)),
        StateLink(0, 2, "b".to_string(), fx(1.), fx(3.)),
        StateLink(0, 2, "a".to_string(), fx(0.5), fx(2.)),
    ];
    let sys = SystemState::create_and_build(links);
    let state = sys.get_state(&0).unwrap();
    assert_eq!(
        state.get_all_action_rewards(),
        vec![vec![(1, fx(1.)), (2, fx(2.))], vec![(2, fx(3.))]]
    );
    assert_eq!(
        sys.get_state(&1).unwrap().get_all_action_rewards(),
        Vec::<Vec<(i64, i64)>>::new()
    );
}

#[test]
fn built_states_have_no_base_reward_and_rebuild_keeps_them() {
    let links = vec![
        StateLink(0, 1, "a".to_string(), fx(0.5), fx(1.)),
        StateLink(0, 0, "a".to_string(), fx(0.5), fx(2.)),
        StateLink(1, 0, "b".to_string(), fx(1.), fx(3.)),
    ];
    let mut sys = SystemState::create_and_build(links);
    for state in sys.get_all_states() {
        assert_eq!(state.get_reward(), 0);
    }
    let before: Vec<ModelState> = sys
        .get_all_states()
        .iter()
        .map(|s| {
            let mut copy = ModelState::new(s.get_id());
            for e in s.get_all_probs() {
                copy.insert_link(e.dest, s.action_label(e.action), e.prob, e.reward);
            }
            copy.calc_eval_rewards();
            copy.calc_eval_transition();
            copy
        })
        .collect();
    sys.build();
    assert_eq!(*sys.get_all_states(), before);
}

#[test]
fn link_order_does_not_change_outcomes() {
    let l = |f: i64, t: i64, a: &str, p: f64, r: f64| StateLink(f, t, a.to_string(), fx(p), fx(r));
    let one = SystemState::create_and_build(vec![
        l(0, 1, "a", 0.5, 1.),
        l(0, 2, "a", 0.5, 2.),
        l(0, 2, "b", 1., 3.),
    ]);
    let two = SystemState::create_and_build(vec![
        l(0, 2, "b", 1., 3.),
        l(0, 2, "a", 0.5, 2.),
        l(0, 1, "a", 0.5, 1.),
    ]);
    let mut ids_one = one.state_ids();
    let mut ids_two = two.state_ids();
    ids_one.sort();
    ids_two.sort();
    assert_eq!(ids_one, ids_two);
    for action in ["a", "b"] {
        let mut p1 = one.get_state(&0).unwrap().get_probs(&action.to_string()).unwrap();
        let mut p2 = two.get_state(&0).unwrap().get_probs(&action.to_string()).unwrap();
        p1.sort();
        p2.sort();
        assert_eq!(p1, p2);
        let mut r1 = one.get_state(&0).unwrap().get_action_reward(&action.to_string()).unwrap();
        let mut r2 = two.get_state(&0).unwrap().get_action_reward(&action.to_string()).unwrap();
        r1.sort();
        r2.sort();
        assert_eq!(r1, r2);
    }
}
