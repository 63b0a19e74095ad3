use cifly::reach::reach;
use cifly::{Graph, Ruletable, Sets, Settings};

fn simple_table(edges_line: &str) -> Ruletable {
    let table = format!(
        "EDGES {}\nSETS X\nSTART ... AT X\nOUTPUT ...\n... | ... | true",
        edges_line
    );
    Ruletable::from_multiline_string(&table).unwrap()
}

#[test]
fn graph_build_rejects_unknown_edge_name() {
    let rt = simple_table("-->  <--");
    let lists = vec![("~~>".to_string(), vec![(0usize, 1usize)])];
    let err = Graph::new(&lists, &rt).unwrap_err();
    assert!(err.message().contains("~~>"));
}

#[test]
fn sets_build_rejects_duplicate_element() {
    let rt = simple_table("---");
    let input = vec![("X".to_string(), vec![3usize, 1, 3])];
    let err = Sets::new(&input, &rt).unwrap_err();
    assert!(err.message().contains("duplicate"));
    assert!(err.message().contains("X"));
}

#[test]
fn sets_build_rejects_unknown_set_name() {
    let rt = simple_table("---");
    let input = vec![("Y".to_string(), vec![0usize])];
    let err = Sets::new(&input, &rt).unwrap_err();
    assert!(err.message().contains("Y"));
}

#[test]
fn symmetric_edge_gets_one_id_for_both_directions() {
    // a 1-name group is symmetric: forward id equals reverse id
    let rt = simple_table("---");
    assert_eq!(rt.get_edge_ids("---"), Some((0, 0)));

    // both arcs of one undirected edge carry that id
    let lists = vec![("---".to_string(), vec![(0usize, 1usize)])];
    let g = Graph::new(&lists, &rt).unwrap();
    assert_eq!(g.num_vertices(), 2);
    assert_eq!(g.neighbors(0), &[(1, 0)]);
    assert_eq!(g.neighbors(1), &[(0, 0)]);
}

#[test]
fn two_name_group_gets_coupled_ids() {
    let rt = simple_table("-->  <--");
    assert_eq!(rt.get_edge_ids("-->"), Some((0, 1)));
    assert_eq!(rt.get_edge_ids("<--"), Some((1, 0)));

    // the reverse arc carries the reverse id
    let lists = vec![("-->".to_string(), vec![(0usize, 1usize)])];
    let g = Graph::new(&lists, &rt).unwrap();
    assert_eq!(g.neighbors(0), &[(1, 0)]);
    assert_eq!(g.neighbors(1), &[(0, 1)]);
}

#[test]
fn symmetric_edge_walks_both_directions() {
    // over a symmetric edge type the walk runs an undirected line graph
    let rt = simple_table("---");
    let lists = vec![("---".to_string(), vec![(1usize, 0usize), (1, 2)])];
    let g = Graph::new(&lists, &rt).unwrap();
    let sets = Sets::new(&vec![("X".to_string(), vec![0usize])], &rt).unwrap();
    let mut r = reach(&g, &sets, &rt, &Settings::new(false, false));
    r.sort();
    assert_eq!(r, vec![0, 1, 2]);
}

#[test]
fn graph_vertex_count_is_one_past_the_largest_endpoint() {
    let rt = simple_table("---");
    let lists = vec![("---".to_string(), vec![(0usize, 9usize)])];
    let g = Graph::new(&lists, &rt).unwrap();
    assert_eq!(g.num_vertices(), 10);

    let empty: Vec<(String, Vec<(usize, usize)>)> = Vec::new();
    let g2 = Graph::new(&empty, &rt).unwrap();
    assert_eq!(g2.num_vertices(), 1);
}

#[test]
fn sets_membership_and_sizes() {
    let table = "EDGES ---\nSETS X, Z\nSTART ... AT X\nOUTPUT ...\n... | ... | true";
    let rt = Ruletable::from_multiline_string(table).unwrap();
    let input = vec![
        ("X".to_string(), vec![0usize, 4]),
        ("Z".to_string(), vec![2usize]),
    ];
    let sets = Sets::new(&input, &rt).unwrap();
    assert_eq!(sets.num_ids(), 2);
    assert!(sets.contains(0, 0));
    assert!(sets.contains(0, 4));
    assert!(!sets.contains(0, 1));
    assert!(sets.contains(1, 2));
    assert!(!sets.contains(1, 9));
    assert_eq!(sets.elements(0), vec![0, 4]);
    assert_eq!(sets.elements(1), vec![2]);
    assert_eq!(sets.max_size(), 5);
}

#[test]
fn sets_not_handed_in_stay_empty() {
    let table = "EDGES ---\nSETS X, Z\nSTART ... AT X\nOUTPUT ...\n... | ... | true";
    let rt = Ruletable::from_multiline_string(table).unwrap();
    let input = vec![("Z".to_string(), vec![1usize])];
    let sets = Sets::new(&input, &rt).unwrap();
    assert!(!sets.contains(0, 0));
    assert!(sets.elements(0).is_empty());
    assert!(sets.contains(1, 1));
}
