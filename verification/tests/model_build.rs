use gwt::{parse, split_label, Model, Transition};

#[test]
fn build_model() {
    let mut model = Model::new();
    let w = Transition::Named("w".into());
    model.connect_to_transition("A", &w);
    model.connect_to_place(&w, "B");
    let _a = model.get_node("A");
    let _b = model.get_node("B");
}

#[test]
fn round_trip_smoke() {
    let input = "WORKING_ON demo
STEP s1
  GIVEN A
  WHEN X
  THEN B
STEP s2
  GIVEN B
  WHEN X
  THEN C
";
    let ast = parse(input, "demo").unwrap();
    assert_eq!(ast.nodes.len(), 2);
    let model = gwt::build_model(ast);
    let place_names: Vec<String> = model.places().iter().map(|p| p.0.clone()).collect();
    assert_eq!(place_names, vec!["A".to_string(), "B".to_string(), "C".to_string()]);
    assert_eq!(model.transitions().len(), 1);
    match &model.transitions()[0].0 {
        Transition::Named(name) => assert_eq!(name, "X"),
        Transition::Empty(_) => panic!("the transition must carry its action text"),
    }
    let a = model.get_node("A").unwrap();
    let b = model.get_node("B").unwrap();
    let c = model.get_node("C").unwrap();
    let x = model.transitions()[0].1;
    assert_eq!(model.edges(), vec![(a, x), (x, b), (b, x), (x, c)]);
    assert_eq!(model.node_count(), 4);
    assert_eq!(model.edge_count(), 4);
}

#[test]
fn equal_action_text_shares_one_transition() {
    let mut model = Model::new();
    model.add_step(&["A".to_string()], "act", &["B".to_string()]);
    model.add_step(&["C".to_string()], "act", &["D".to_string()]);
    assert_eq!(model.transitions().len(), 1);
    let t = model.transitions()[0].1;
    let a = model.get_node("A").unwrap();
    let b = model.get_node("B").unwrap();
    let c = model.get_node("C").unwrap();
    let d = model.get_node("D").unwrap();
    assert_eq!(model.edges(), vec![(a, t), (t, b), (c, t), (t, d)]);
}

#[test]
fn empty_action_text_never_merges() {
    let mut model = Model::new();
    model.add_step(&["A".to_string()], "", &["B".to_string()]);
    model.add_step(&["A".to_string()], "", &["B".to_string()]);
    assert_eq!(model.transitions().len(), 2);
    let t1 = model.transitions()[0].1;
    let t2 = model.transitions()[1].1;
    assert_ne!(t1, t2);
    match (&model.transitions()[0].0, &model.transitions()[1].0) {
        (Transition::Empty(n1), Transition::Empty(n2)) => {
            assert_eq!((*n1, *n2), (1, 2));
        },
        _ => panic!("both transitions must be serial-numbered"),
    }
    // identical given/then sets, yet two distinct fan-ins and fan-outs
    let a = model.get_node("A").unwrap();
    let b = model.get_node("B").unwrap();
    assert_eq!(model.edges(), vec![(a, t1), (t1, b), (a, t2), (t2, b)]);
}

#[test]
fn repeated_place_name_has_one_node() {
    let mut model = Model::new();
    model.add_step(&["P".to_string(), "P".to_string()], "u", &["P".to_string()]);
    model.add_step(&["P".to_string()], "v", &["Q".to_string(), "P".to_string()]);
    let names: Vec<String> = model.places().iter().map(|p| p.0.clone()).collect();
    assert_eq!(names, vec!["P".to_string(), "Q".to_string()]);
    assert_eq!(model.places().len(), 2);
}

#[test]
fn scenario_with_only_an_action_still_gets_its_node() {
    let input = "WORKING_ON quiet\nSTEP s\n  WHEN alone\n";
    let model = gwt::build_model(parse(input, "quiet").unwrap());
    assert_eq!(model.node_count(), 1);
    assert_eq!(model.edge_count(), 0);
    assert_eq!(model.transitions().len(), 1);
    match &model.transitions()[0].0 {
        Transition::Named(name) => assert_eq!(name, "alone"),
        Transition::Empty(_) => panic!("the transition must carry its action text"),
    }
}

#[test]
fn placeless_scenarios_with_equal_action_share_the_node() {
    let mut model = Model::new();
    model.add_step(&[], "act", &[]);
    model.add_step(&[], "act", &[]);
    assert_eq!(model.transitions().len(), 1);
    assert_eq!(model.node_count(), 1);
    assert_eq!(model.edge_count(), 0);
}

#[test]
fn placeless_scenarios_with_empty_action_stay_distinct() {
    let mut model = Model::new();
    model.add_step(&[], "", &[]);
    model.add_step(&[], "", &[]);
    assert_eq!(model.transitions().len(), 2);
    assert_eq!(model.node_count(), 2);
    assert_eq!(model.edge_count(), 0);
}

#[test]
fn grouped_and_bare_scenarios_fold_in_document_order() {
    let input = "WORKING_ON order
GROUP g
  STEP a
    GIVEN p
    WHEN t1
    THEN q
STEP b
  GIVEN q
  WHEN t2
  THEN r
";
    let model = gwt::build_model(parse(input, "order").unwrap());
    let names: Vec<String> = model.places().iter().map(|p| p.0.clone()).collect();
    assert_eq!(names, vec!["p".to_string(), "q".to_string(), "r".to_string()]);
    assert_eq!(model.transitions().len(), 2);
    assert_eq!(model.edge_count(), 4);
}

#[test]
fn get_node_misses_unknown_names() {
    let model = Model::new();
    assert!(model.get_node("nowhere").is_none());
}

#[test]
fn split_label_wraps_past_width() {
    assert_eq!(split_label("aaa bbb ccc", 5), "aaa bbb\nccc");
}

#[test]
fn split_label_single_word() {
    assert_eq!(split_label("hello", 15), "hello");
}

#[test]
fn split_label_empty() {
    assert_eq!(split_label("", 15), "");
}

#[test]
fn split_label_collapses_whitespace_runs() {
    assert_eq!(split_label("a   b\t c", 15), "a b c");
}
