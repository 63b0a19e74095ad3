use cifly::reach::reach;
use cifly::{Graph, Ruletable, Sets, Settings};

fn graph_input(lists: &[(&str, &[(usize, usize)])]) -> Vec<(String, Vec<(usize, usize)>)> {
    lists
        .iter()
        .map(|(name, edges)| (name.to_string(), edges.to_vec()))
        .collect()
}

fn sets_input(lists: &[(&str, &[usize])]) -> Vec<(String, Vec<usize>)> {
    lists
        .iter()
        .map(|(name, elems)| (name.to_string(), elems.to_vec()))
        .collect()
}

#[test]
fn test_reach() {
    let ruletable_str = "
EDGES --> <--, ---
SETS X
COLORS init, yield
START ... [init] AT X
OUTPUT ... [yield]

... [init]  | ---      [yield] | next not in X
... [yield] | ---, --> [yield] | next not in X";
    let ruletable = Ruletable::from_multiline_string(ruletable_str).expect("should parse ruletable");

    let edge_lists = graph_input(&[
        ("-->", &[(2, 1), (2, 3), (3, 4), (5, 4)]),
        ("---", &[(0, 1), (0, 2)]),
    ]);
    let graph = Graph::new(&edge_lists, &ruletable).expect("should parse graph");

    let sets = sets_input(&[("X", &[1])]);
    let sets = Sets::new(&sets, &ruletable).expect("should parse sets");

    let settings = Settings::new(false, false);

    assert_eq!(reach(&graph, &sets, &ruletable, &settings), vec![0, 2, 3, 4]);
}

#[test]
fn reach_result_is_order_independent() {
    let ruletable_str = "
EDGES --> <--, ---
SETS X
COLORS init, yield
START ... [init] AT X
OUTPUT ... [yield]

... [init]  | ---      [yield] | next not in X
... [yield] | ---, --> [yield] | next not in X";
    let ruletable = Ruletable::from_multiline_string(ruletable_str).unwrap();
    let sets = Sets::new(&sets_input(&[("X", &[1])]), &ruletable).unwrap();
    let settings = Settings::new(false, false);

    // the same arc set, handed over in another order
    let permuted = graph_input(&[
        ("---", &[(0, 2), (0, 1)]),
        ("-->", &[(5, 4), (3, 4), (2, 3), (2, 1)]),
    ]);
    let graph = Graph::new(&permuted, &ruletable).unwrap();
    let mut result = reach(&graph, &sets, &ruletable, &settings);
    result.sort();
    assert_eq!(result, vec![0, 2, 3, 4]);
}

#[test]
fn reach_output_has_no_duplicates() {
    // a diamond: every vertex is reachable along two ways
    let ruletable_str = "
EDGES ---
SETS X
START --- AT X
OUTPUT ---
--- | --- | true";
    let ruletable = Ruletable::from_multiline_string(ruletable_str).unwrap();
    let graph = Graph::new(
        &graph_input(&[("---", &[(0, 1), (0, 2), (1, 3), (2, 3)])]),
        &ruletable,
    )
    .unwrap();
    let sets = Sets::new(&sets_input(&[("X", &[0])]), &ruletable).unwrap();
    let result = reach(&graph, &sets, &ruletable, &Settings::new(false, false));
    let mut sorted = result.clone();
    sorted.sort();
    sorted.dedup();
    assert_eq!(sorted.len(), result.len());
    assert_eq!(sorted, vec![0, 1, 2, 3]);
}

#[test]
fn reach_isolated_set_member_is_its_own_state() {
    // vertex 7 exists only in the start set, beyond every graph vertex; it is
    // reached as its own state and qualifies through the output declaration
    let ruletable_str = "
EDGES -->  <--
SETS X
START --> AT X
OUTPUT -->
--> | --> | true";
    let ruletable = Ruletable::from_multiline_string(ruletable_str).unwrap();
    let graph = Graph::new(&graph_input(&[("-->", &[(0, 1)])]), &ruletable).unwrap();
    let sets = Sets::new(&sets_input(&[("X", &[7])]), &ruletable).unwrap();
    let result = reach(&graph, &sets, &ruletable, &Settings::new(false, false));
    assert_eq!(result, vec![7]);
}

#[test]
fn reach_respects_rule_guards() {
    // the guard blocks the walk at the vertex in Z
    let ruletable_str = "
EDGES -->  <--
SETS X, Z
START --> AT X
OUTPUT -->
--> | --> | next not in Z";
    let ruletable = Ruletable::from_multiline_string(ruletable_str).unwrap();
    let graph = Graph::new(
        &graph_input(&[("-->", &[(0, 1), (1, 2), (2, 3)])]),
        &ruletable,
    )
    .unwrap();
    let sets = Sets::new(&sets_input(&[("X", &[0]), ("Z", &[2])]), &ruletable).unwrap();
    let mut result = reach(&graph, &sets, &ruletable, &Settings::new(false, false));
    result.sort();
    // 0 starts, 1 is admitted, 2 is blocked by the guard, 3 never reached
    assert_eq!(result, vec![0, 1]);
}

#[test]
fn reach_without_start_declarations_returns_nothing() {
    let ruletable_str = "
EDGES ---
SETS X
OUTPUT ---
--- | --- | true";
    let ruletable = Ruletable::from_multiline_string(ruletable_str).unwrap();
    let graph = Graph::new(&graph_input(&[("---", &[(0, 1)])]), &ruletable).unwrap();
    let sets = Sets::new(&sets_input(&[("X", &[0])]), &ruletable).unwrap();
    let result = reach(&graph, &sets, &ruletable, &Settings::new(false, false));
    assert!(result.is_empty());
}

#[test]
fn reach_first_match_decides_between_overlapping_rules() {
    // both rules govern the same transitions; the first one wins and blocks
    let blocked = "
EDGES ---
SETS X
START --- AT X
OUTPUT ---
--- | --- | false
--- | --- | true";
    let ruletable = Ruletable::from_multiline_string(blocked).unwrap();
    let graph = Graph::new(&graph_input(&[("---", &[(0, 1)])]), &ruletable).unwrap();
    let sets = Sets::new(&sets_input(&[("X", &[0])]), &ruletable).unwrap();
    let result = reach(&graph, &sets, &ruletable, &Settings::new(false, false));
    // the start vertex itself still qualifies; the transition to 1 is blocked
    assert_eq!(result, vec![0]);
}

#[test]
fn settings_carry_their_flags() {
    let s = Settings::new(true, false);
    assert!(s.verbose);
    assert!(!s.fmt_one_indexed);
    let d = Settings::default();
    assert!(!d.verbose);
    assert!(!d.fmt_one_indexed);
}

#[test]
fn reach_trace_records_the_walk() {
    let ruletable_str = "
EDGES -->  <--
SETS X
START --> AT X
OUTPUT -->
--> | --> | true";
    let ruletable = Ruletable::from_multiline_string(ruletable_str).unwrap();
    let graph = Graph::new(&graph_input(&[("-->", &[(0, 1)])]), &ruletable).unwrap();
    let sets = Sets::new(&sets_input(&[("X", &[0])]), &ruletable).unwrap();

    let quiet = cifly::reach::reach_trace(&graph, &sets, &ruletable, &Settings::new(false, false));
    assert!(quiet.1.is_empty());

    let (result, trace) = cifly::reach::reach_trace(
        &graph,
        &sets,
        &ruletable,
        &Settings::new(true, false),
    );
    assert_eq!(result, vec![0, 1]);
    assert!(trace[0].starts_with("Initial States: "));
    assert!(trace[0].contains("0, -->"));
    assert!(trace.iter().any(|l| l.starts_with("Processing state ")));
    assert!(trace.iter().any(|l| l.contains("Found transition")));

    // one-indexed rendering shifts every vertex up by one
    let (_, trace1) = cifly::reach::reach_trace(
        &graph,
        &sets,
        &ruletable,
        &Settings::new(true, true),
    );
    assert!(trace1[0].contains("1, -->"));
}
