use complete_iter::fixed::SCALE;
use complete_iter::models::{StateLink, SystemState};
use complete_iter::Agent;

fn fx(x: f64) -> i64 {
    (x * SCALE as f64).round() as i64
}

fn close(value: i64, expected: f64, tolerance: f64) -> bool {
    ((value as f64 / SCALE as f64) - expected).abs() < tolerance
}

fn arms() -> [String; 3] {
    ["Arm_1".to_string(), "Arm_2".to_string(), "Arm_3".to_string()]
}

fn one_step_arms() -> Vec<StateLink> {
    let arms = arms();
    vec![
        StateLink(0, 1, arms[0].clone(), fx(1.), fx(1.)),
        StateLink(0, 1, arms[1].clone(), fx(1.), fx(2.)),
        StateLink(0, 1, arms[2].clone(), fx(1.), fx(3.)),
    ]
}

fn two_step_arms() -> Vec<StateLink> {
    let arms = arms();
    vec![
        StateLink(0, 1, arms[0].clone(), fx(1.), fx(1.)),
        StateLink(0, 1, arms[1].clone(), fx(1.), fx(2.)),
        StateLink(0, 1, arms[2].clone(), fx(1.), fx(3.)),
        StateLink(1, 2, arms[0].clone(), fx(1.), fx(3.)),
        StateLink(1, 2, arms[1].clone(), fx(1.), fx(2.)),
        StateLink(1, 2, arms[2].clone(), fx(1.), fx(1.)),
    ]
}

#[test]
fn policy_initialization_test() {
    let action_1 = String::from("First_Action");
    let action_2 = String::from("Second_Action");
    let action_3 = String::from("Third_action");

    let links = vec![
        StateLink(0, 1, action_1.clone(), fx(0.9), fx(0.)),
        StateLink(0, 2, action_1.clone(), fx(0.1), fx(10.)),
        StateLink(0, 0, action_2.clone(), fx(0.9), fx(0.)),
        StateLink(0, 1, action_2.clone(), fx(0.1), fx(0.)),
        StateLink(0, 1, action_3.clone(), fx(1.), fx(1.)),
        StateLink(1, 2, action_1.clone(), fx(1.), fx(5.)),
        StateLink(1, 0, action_2.clone(), fx(0.5), fx(0.)),
        StateLink(1, 2, action_2.clone(), fx(0.5), fx(0.)),
    ];

    let test_system = SystemState::create_and_build(links);
    let test_agent = Agent::init_random(test_system);

    // States in order 0, 1, 2; actions in order of first appearance.
    let policy_0: Vec<i64> = vec![SCALE / 3, SCALE / 3, SCALE / 3];
    let policy_1: Vec<i64> = vec![SCALE / 2, SCALE / 2];
    let random_policy: Vec<Vec<i64>> = vec![policy_0, policy_1, Vec::new()];

    assert_eq!(*test_agent.get_policy(), random_policy);
    assert_eq!(*test_agent.get_evaluation(), vec![0, 0, 0]);
}

#[test]
fn policy_eval_test_1() {
    // Simple n-armed model with a single attempt
    let system_state = SystemState::create_and_build(one_step_arms());
    let mut test_agent = Agent::init_random(system_state);

    let epsilon = 0.01;
    test_agent.evaluate_policy(fx(1.), fx(epsilon), 10);
    assert!(close(test_agent.get_evaluation()[0], 2., 2. * epsilon));

    let new_policy: Vec<Vec<i64>> = vec![vec![fx(0.), fx(0.), fx(1.)], Vec::new()];
    test_agent.set_polity(new_policy);
    test_agent.evaluate_policy(fx(1.), fx(epsilon), 10);
    assert!(close(test_agent.get_evaluation()[0], 3., 2. * epsilon));
}

#[test]
fn policy_eval_test_2() {
    // Two n-armed model with a single attempt each
    let system_state = SystemState::create_and_build(two_step_arms());
    let mut test_agent = Agent::init_random(system_state);

    let epsilon = 0.01;
    test_agent.evaluate_policy(fx(1.), fx(epsilon), 10);
    assert!(close(test_agent.get_evaluation()[0], 4., 2. * epsilon));
    assert!(close(test_agent.get_evaluation()[1], 2., 2. * epsilon));

    let new_policy: Vec<Vec<i64>> = vec![
        vec![fx(0.), fx(0.), fx(1.)],
        vec![fx(1.), fx(0.), fx(0.)],
        Vec::new(),
    ];
    test_agent.set_polity(new_policy);
    test_agent.evaluate_policy(fx(1.), fx(epsilon), 10);
    assert!(close(test_agent.get_evaluation()[0], 6., 2. * epsilon));
    assert!(close(test_agent.get_evaluation()[1], 3., 2. * epsilon));
}

#[test]
pub fn policy_improv_test_1() {
    // Simple n-armed model with a single attempt
    let system_state = SystemState::create_and_build(one_step_arms());
    let mut test_agent = Agent::init_random(system_state);

    let epsilon = 0.01;
    test_agent.deterministic_policy_improvement(fx(1.), fx(epsilon), 100, 100);

    // Prints only when it fails
    println!("Policy: {:?}", test_agent.get_policy());
    println!("Eval 0: {:?}", test_agent.get_evaluation()[0]);

    assert!(close(test_agent.get_evaluation()[0], 3., 2. * epsilon));
}

#[test]
pub fn policy_improv_test_2() {
    // Two n-armed model with a single attempt each
    let system_state = SystemState::create_and_build(two_step_arms());
    let mut test_agent = Agent::init_random(system_state);

    let epsilon = 0.01;
    test_agent.deterministic_policy_improvement(fx(1.), fx(epsilon), 100, 100);

    // Prints only when it fails
    println!("Policy: {:?}", test_agent.get_policy());
    println!("Eval 0: {:?}", test_agent.get_evaluation()[0]);
    println!("Eval 1: {:?}", test_agent.get_evaluation()[1]);

    assert!(close(test_agent.get_evaluation()[0], 6., 2. * epsilon));
    assert!(close(test_agent.get_evaluation()[1], 3., 2. * epsilon));
}

#[test]
fn single_action_single_reward_converges() {
    let r = 7.25;
    let links = vec![StateLink(0, 1, "go".to_string(), fx(1.), fx(r))];
    let mut agent = Agent::init_random(SystemState::create_and_build(links));
    agent.evaluate_policy(fx(1.), fx(0.001), 50);
    assert_eq!(*agent.get_evaluation(), vec![fx(r), 0]);
}

#[test]
fn multi_arm_expected_value_is_the_mean() {
    let mut agent = Agent::init_random(SystemState::create_and_build(one_step_arms()));
    agent.evaluate_policy(fx(1.), fx(0.001), 50);
    // Each arm has probability SCALE / 3, so the mean is just under 2.
    assert_eq!(*agent.get_evaluation(), vec![1_999_998, 0]);
}

#[test]
fn improvement_picks_the_largest_reward_arm() {
    let mut agent = Agent::init_random(SystemState::create_and_build(one_step_arms()));
    agent.deterministic_policy_improvement(fx(1.), fx(0.01), 100, 100);
    assert_eq!(*agent.get_policy(), vec![vec![0, 0, SCALE], Vec::new()]);
    assert_eq!(*agent.get_evaluation(), vec![fx(3.), 0]);
    let best = agent.get_best_action(0).unwrap();
    assert_eq!(best.0.as_str(), "Arm_3");
    assert_eq!(best.1, SCALE);
}

#[test]
fn chained_maxima_add_up() {
    let mut agent = Agent::init_random(SystemState::create_and_build(two_step_arms()));
    agent.deterministic_policy_improvement(fx(1.), fx(0.01), 100, 100);
    assert_eq!(
        *agent.get_policy(),
        vec![vec![0, 0, SCALE], vec![SCALE, 0, 0], Vec::new()]
    );
    assert_eq!(*agent.get_evaluation(), vec![fx(6.), fx(3.), 0]);
    assert_eq!(agent.get_best_action(1).unwrap().0.as_str(), "Arm_1");
}

#[test]
fn evaluating_again_after_convergence_changes_little() {
    // A discounted loop whose values converge only in the limit.
    let links = vec![
        StateLink(0, 0, "stay".to_string(), fx(0.5), fx(1.)),
        StateLink(0, 1, "stay".to_string(), fx(0.5), fx(2.)),
        StateLink(1, 0, "back".to_string(), fx(1.), fx(0.5)),
    ];
    let mut agent = Agent::init_random(SystemState::create_and_build(links));
    let epsilon = fx(0.001);
    agent.evaluate_policy(fx(0.9), epsilon, 10_000);
    let before = agent.get_evaluation().clone();
    agent.evaluate_policy(fx(0.9), epsilon, 10_000);
    let after = agent.get_evaluation().clone();
    for i in 0..before.len() {
        assert!((after[i] - before[i]).abs() < epsilon);
    }
}

#[test]
fn no_action_terminal_states() {
    let mut agent = Agent::init_random(SystemState::create_and_build(two_step_arms()));
    assert_eq!(agent.get_policy()[2], Vec::<i64>::new());
    assert!(agent.get_best_action(2).is_none());
    let terminal = agent.get_system_state().get_state(&2).unwrap();
    assert_eq!(agent.calc_best_action(terminal, fx(1.)), None);
    assert_eq!(agent.calc_best_policy(terminal, None), Vec::<i64>::new());
    agent.deterministic_policy_improvement(fx(1.), fx(0.01), 10, 10);
    assert_eq!(agent.get_policy()[2], Vec::<i64>::new());
    assert!(agent.get_best_action(2).is_none());
}

#[test]
fn unknown_state_has_no_best_action() {
    let agent = Agent::init_random(SystemState::create_and_build(one_step_arms()));
    assert!(agent.get_best_action(42).is_none());
}

#[test]
fn greedy_action_uses_discounted_values_and_label_order_on_ties() {
    // From state 0, "safe" pays 1 now; "far" pays 0 now but leads to state 2,
    // whose only action pays 4.
    let links = vec![
        StateLink(0, 1, "safe".to_string(), fx(1.), fx(1.)),
        StateLink(0, 2, "far".to_string(), fx(1.), fx(0.)),
        StateLink(2, 1, "cash".to_string(), fx(1.), fx(4.)),
    ];
    let mut agent = Agent::init_random(SystemState::create_and_build(links));
    agent.evaluate_policy(fx(1.), fx(0.001), 10);
    assert_eq!(*agent.get_evaluation(), vec![fx(2.5), 0, fx(4.)]);
    let state_0 = agent.get_system_state().get_state(&0).unwrap();
    assert_eq!(agent.calc_best_action(state_0, fx(1.)), Some(1));
    // With a discount of 0.25 both actions are worth 1: "far" comes before
    // "safe", so it wins the tie.
    assert_eq!(agent.calc_best_action(state_0, fx(0.25)), Some(1));
    assert_eq!(agent.calc_best_policy(state_0, Some(1)), vec![0, SCALE]);
}

#[test]
fn zero_sweeps_keep_the_values() {
    let mut agent = Agent::init_random(SystemState::create_and_build(one_step_arms()));
    agent.evaluate_policy(fx(1.), fx(0.01), 0);
    assert_eq!(*agent.get_evaluation(), vec![0, 0]);
}

#[test]
fn tie_break_does_not_depend_on_link_order() {
    let forward = vec![
        StateLink(0, 1, "b".to_string(), fx(1.), fx(2.)),
        StateLink(0, 1, "a".to_string(), fx(1.), fx(2.)),
        StateLink(0, 1, "c".to_string(), fx(1.), fx(1.)),
    ];
    let backward = vec![
        StateLink(0, 1, "c".to_string(), fx(1.), fx(1.)),
        StateLink(0, 1, "a".to_string(), fx(1.), fx(2.)),
        StateLink(0, 1, "b".to_string(), fx(1.), fx(2.)),
    ];
    for links in [forward, backward] {
        let agent = Agent::init_random(SystemState::create_and_build(links));
        let state = agent.get_system_state().get_state(&0).unwrap();
        let best = agent.calc_best_action(state, fx(1.)).unwrap();
        assert_eq!(state.action_label(best).as_str(), "a");
    }
}
