use cifly::Ruletable;

#[test]
fn compile_resolves_names_to_dense_ids() {
    let table = "
# a comment line and blank lines are ignored

EDGES --> <--, ---
COLORS init, yield
SETS X, Z
START ... [init] AT X
OUTPUT ... [yield]
... | ... | true";
    let rt = Ruletable::from_multiline_string(table).unwrap();
    assert_eq!(rt.num_edges(), 3);
    assert_eq!(rt.num_colors(), 2);
    assert_eq!(rt.num_sets(), 2);
    assert_eq!(rt.get_edge_ids("-->"), Some((0, 1)));
    assert_eq!(rt.get_edge_ids("<--"), Some((1, 0)));
    assert_eq!(rt.get_edge_ids("---"), Some((2, 2)));
    assert_eq!(rt.get_edge_ids("missing"), None);
    assert_eq!(rt.get_color_id("init"), Some(0));
    assert_eq!(rt.get_color_id("yield"), Some(1));
    assert_eq!(rt.get_color_id("missing"), None);
    assert_eq!(rt.get_set_id("X"), Some(0));
    assert_eq!(rt.get_set_id("Z"), Some(1));
    assert_eq!(rt.get_set_id("missing"), None);
}

#[test]
fn start_expands_the_declared_cross_product() {
    let table = "
EDGES a, b
COLORS p, q
SETS X
START a, b [p] AT X
OUTPUT a";
    let rt = Ruletable::from_multiline_string(table).unwrap();
    assert_eq!(rt.starts(), &vec![(0, 0, 0), (0, 1, 0)]);
    assert_eq!(rt.outputs(), &vec![(0, 0), (0, 1)]);
}

#[test]
fn a_table_without_colors_has_one_implicit_color() {
    let table = "EDGES a\nSETS X\nSTART a AT X\nOUTPUT a\na | a | true";
    let rt = Ruletable::from_multiline_string(table).unwrap();
    assert_eq!(rt.num_colors(), 1);
    assert_eq!(rt.starts(), &vec![(0, 0, 0)]);
}

#[test]
fn possible_colors_lists_only_governed_transitions() {
    let table = "
EDGES a
COLORS p, q
SETS X
START a [p] AT X
OUTPUT a
a [p] | a [q] | true";
    let rt = Ruletable::from_multiline_string(table).unwrap();
    // from (a, p) over an `a` arc, only color q is admitted by some rule
    assert_eq!(rt.possible_colors(0, 0, 0), &vec![1]);
    // from (a, q), no rule governs anything
    assert!(rt.possible_colors(0, 1, 0).is_empty());
}

#[test]
fn compile_rejects_duplicate_names() {
    assert!(Ruletable::from_multiline_string("EDGES a, a").is_err());
    assert!(Ruletable::from_multiline_string("COLORS p, p").is_err());
    assert!(Ruletable::from_multiline_string("SETS X, X").is_err());
}

#[test]
fn compile_rejects_oversized_edge_groups() {
    let err = Ruletable::from_multiline_string("EDGES a b c").unwrap_err();
    assert!(err.message().contains("edge"));
}

#[test]
fn compile_rejects_undeclared_names_in_patterns() {
    assert!(Ruletable::from_multiline_string("EDGES a\nSTART b AT X").is_err());
    assert!(Ruletable::from_multiline_string("EDGES a\nSETS X\nSTART a [q] AT X").is_err());
    assert!(Ruletable::from_multiline_string("EDGES a\nSTART a AT X").is_err());
    assert!(Ruletable::from_multiline_string("EDGES a\nOUTPUT b").is_err());
}

#[test]
fn compile_rejects_undeclared_set_in_expression() {
    let table = "EDGES a\nSETS X\nSTART a AT X\nOUTPUT a\na | a | current in Q";
    let err = Ruletable::from_multiline_string(table).unwrap_err();
    assert!(err.message().contains("Q"));
}

#[test]
fn compile_rejects_wrong_rule_segment_count() {
    let table = "EDGES a\nSETS X\na | a";
    let err = Ruletable::from_multiline_string(table).unwrap_err();
    assert!(err.message().contains("|"));
}

#[test]
fn compile_rejects_unbalanced_brackets() {
    assert!(Ruletable::from_multiline_string("EDGES a\nCOLORS p\nOUTPUT a [p").is_err());
    assert!(Ruletable::from_multiline_string("EDGES a\nCOLORS p\nOUTPUT a [p] [p]").is_err());
}

#[test]
fn compile_errors_carry_the_line_number_and_kind() {
    let table = "EDGES a\nSETS X\nSTART b AT X";
    let err = Ruletable::from_multiline_string(table).unwrap_err();
    assert!(err.message().contains("line 3"));
    assert!(err.message().contains("start declaration"));
}

#[test]
fn later_declarations_replace_earlier_ones() {
    let table = "EDGES a\nEDGES b, c\nSETS X\nSTART b AT X\nOUTPUT c";
    let rt = Ruletable::from_multiline_string(table).unwrap();
    assert_eq!(rt.num_edges(), 2);
    assert_eq!(rt.get_edge_ids("a"), None);
    assert_eq!(rt.get_edge_ids("b"), Some((0, 0)));
}

#[test]
fn a_start_outliving_its_id_space_is_rejected() {
    // the start refers to edge ids of the first declaration; the second
    // declaration shrinks the id space, so the table cannot stand
    let table = "EDGES a, b\nSETS X\nSTART b AT X\nEDGES c";
    assert!(Ruletable::from_multiline_string(table).is_err());
}

#[test]
fn compile_rejects_extra_rule_segments() {
    let table = "EDGES a\nSETS X\na | a | true | true";
    assert!(Ruletable::from_multiline_string(table).is_err());
}

#[test]
fn start_and_output_lines_append_across_lines() {
    let table = "EDGES a, b\nSETS X, Z\nSTART a AT X\nSTART b AT Z\nOUTPUT a\nOUTPUT b";
    let rt = Ruletable::from_multiline_string(table).unwrap();
    assert_eq!(rt.starts(), &vec![(0, 0, 0), (1, 1, 0)]);
    assert_eq!(rt.outputs(), &vec![(0, 0), (1, 0)]);
}

#[test]
fn long_failing_lines_are_truncated_in_the_report() {
    let long = format!("START {} AT X", "x".repeat(100));
    let table = format!("EDGES a\nSETS X\n{}", long);
    let err = Ruletable::from_multiline_string(&table).unwrap_err();
    // the quoted copy of the line is cut at 80 characters with an ellipsis
    assert!(err.message().ends_with("..."));
    assert!(err.message().contains("line 3"));
}

#[test]
fn a_text_of_blanks_and_comments_compiles_to_an_empty_table() {
    let rt = Ruletable::from_multiline_string("\n# nothing here\n\n# still nothing").unwrap();
    assert_eq!(rt.num_edges(), 0);
    assert_eq!(rt.num_sets(), 0);
    assert_eq!(rt.num_colors(), 1);
    assert!(rt.starts().is_empty());
    assert!(rt.outputs().is_empty());
}
