use frobenius::petri::{PetriNet, PetriNetDisplay};

#[test]
fn test_initial_marking() {
    let net = PetriNet::new_example();
    assert_eq!(net.get_marking(), 1);
}

#[test]
fn test_transition_enabling() {
    let net = PetriNet::new_example();
    assert!(net.is_transition_enabled(0));
    assert!(!net.is_transition_enabled(1));
}

#[test]
fn test_transition_firing() {
    let mut net = PetriNet::new_example();
    assert!(net.fire_transition(0));
    assert!(!net.fire_transition(0));

    assert_eq!(net.get_marking(), (1 << 1) | (1 << 2));

    assert!(net.is_transition_enabled(1));
    assert!(net.is_transition_enabled(2));
}

#[test]
fn test_from_matrices() {
    let pre_matrix = vec![
        vec![true, false, false],
        vec![false, true, false],
        vec![false, false, true],
    ];

    let post_matrix = vec![
        vec![false, true, false],
        vec![false, false, true],
        vec![true, false, false],
    ];

    let place_names = vec!["p1".to_string(), "p2".to_string(), "p3".to_string()];

    let transition_names = vec!["t1".to_string(), "t2".to_string(), "t3".to_string()];

    let result = PetriNet::from_matrices(&pre_matrix, &post_matrix, place_names, transition_names);

    assert!(result.is_ok());

    let net = result.unwrap();
    assert_eq!(net.num_places(), 3);
    assert_eq!(net.num_transitions(), 3);
}

#[test]
fn test_add_transition() {
    let mut net = PetriNet::default();

    net.num_places = 3;
    net.place_names = vec!["p1".to_string(), "p2".to_string(), "p3".to_string()];

    let result = net.add_transition("t1", &[0], &[1]);
    assert!(result.is_ok());

    let result = net.add_transition("t2", &[1], &[2]);
    assert!(result.is_ok());

    let result = net.add_transition("t3", &[2], &[3]);
    assert!(result.is_err());

    assert_eq!(net.num_transitions(), 2);
}

#[test]
fn test_simulation() {
    let mut net = PetriNet::new_example();

    let history = net.simulate(3);
    assert!(history.len() > 1);
}

#[test]
fn test_simulation_runs_to_quiescence() {
    let mut net = PetriNet::new_example();
    let history = net.simulate(100);
    assert!(history.len() <= 101);
    assert_eq!(history[0], (1, None));
    for step in history.iter().skip(1) {
        assert!(step.1.is_some());
    }
    assert_eq!(net.get_marking(), 1 << 5);
}

#[test]
fn test_reset_restores_initial_marking() {
    let mut net = PetriNet::new_example();
    net.fire_transition(0);
    assert_ne!(net.get_marking(), 1);
    net.reset();
    assert_eq!(net.get_marking(), 1);
}

#[test]
fn test_from_matrices_rejects_bad_sizes() {
    let pre: Vec<Vec<bool>> = vec![];
    let post: Vec<Vec<bool>> = vec![];
    let r = PetriNet::from_matrices(&pre, &post, vec![], vec![]);
    assert!(r.is_err());

    let pre = vec![vec![true, false]];
    let post = vec![vec![false, true], vec![true, false]];
    let r = PetriNet::from_matrices(
        &pre,
        &post,
        vec!["p1".to_string(), "p2".to_string()],
        vec!["t1".to_string()],
    );
    assert!(r.is_err());
}

#[test]
fn test_format_marking_names_marked_places() {
    let net = PetriNet::new_example();
    let line = net.format_marking();
    assert!(line.contains("p1"));
    assert!(!line.contains("p2"));
    let enabled = net.format_enabled_transitions();
    assert!(enabled.contains("t1"));
}
