use gwt::{parse, given, then_clause, step, group, working_on, AST, GSNode, Group, Step, GWTNode};

#[test]
fn test_given() {
    let result = given("GIVEN test 123", 0).unwrap();
    assert_eq!((result.0, result.1), (GWTNode::Given("test 123".into()), 0));
}

#[test]
fn test_then() {
    let result = then_clause("THEN test 123", 0).unwrap();
    assert_eq!((result.0, result.1), (GWTNode::Then("test 123".into()), 0));
}

#[test]
fn test_when() {
    let result = gwt::parser::when(" WHEN test 123\n", 0).unwrap();
    assert_eq!((result.0, result.1), (GWTNode::When("test 123".into()), 1));
}

#[test]
fn test_step() {
    let input = "STEP test 123
  WHEN LOL
  THEN Ha
";
    let result = step(input, 0).unwrap();
    assert_eq!(
        result.0,
        Step {
            name: "test 123".into(),
            indent: 0,
            gwt_list: vec![GWTNode::When("LOL".into()), GWTNode::Then("Ha".into())],
        }
    );
    assert_eq!(result.1, input.chars().count());
}

#[test]
fn test_group() {
    let input = "GROUP G1
  STEP test 123
    WHEN LOL
    THEN Ha
  STEP test 1234
    WHEN Test2
    THEN more tests
";
    let result = group(input, 0).unwrap().unwrap();
    assert_eq!(
        result.0,
        Group {
            name: "G1".into(),
            indent: 0,
            steps: vec![
                Step {
                    name: "test 123".into(),
                    indent: 2,
                    gwt_list: vec![GWTNode::When("LOL".into()), GWTNode::Then("Ha".into())],
                },
                Step {
                    name: "test 1234".into(),
                    indent: 2,
                    gwt_list: vec![
                        GWTNode::When("Test2".into()),
                        GWTNode::Then("more tests".into()),
                    ],
                },
            ],
        }
    );
}

#[test]
fn test_working_on() {
    let result = working_on("WORKING_ON test 123").unwrap();
    assert_eq!(result.0, "test 123".to_string());
}

#[test]
fn test_parser() {
    let input = "WORKING_ON test
GROUP G1
    STEP test 123
        WHEN LOL
        THEN Ha
    STEP test 1234
        WHEN Test2
        THEN more tests
STEP one is the loneliest number
    WHEN LOL
    THEN Ha
GROUP G1
  STEP test 123
    WHEN LOL
    THEN Ha
  STEP test 1234
    WHEN Test2
    THEN more tests
";
    let result = parse(input, "test").unwrap();
    assert_eq!(
        result,
        AST {
            working_on: "test".to_string(),
            nodes: vec![
                GSNode::Group(Group {
                    name: "G1".into(),
                    indent: 0,
                    steps: vec![
                        Step {
                            name: "test 123".into(),
                            indent: 4,
                            gwt_list: vec![
                                GWTNode::When("LOL".into()),
                                GWTNode::Then("Ha".into()),
                            ],
                        },
                        Step {
                            name: "test 1234".into(),
                            indent: 4,
                            gwt_list: vec![
                                GWTNode::When("Test2".into()),
                                GWTNode::Then("more tests".into()),
                            ],
                        },
                    ],
                }),
                GSNode::Step(Step {
                    name: "one is the loneliest number".into(),
                    indent: 0,
                    gwt_list: vec![GWTNode::When("LOL".into()), GWTNode::Then("Ha".into())],
                }),
                GSNode::Group(Group {
                    name: "G1".into(),
                    indent: 0,
                    steps: vec![
                        Step {
                            name: "test 123".into(),
                            indent: 2,
                            gwt_list: vec![
                                GWTNode::When("LOL".into()),
                                GWTNode::Then("Ha".into()),
                            ],
                        },
                        Step {
                            name: "test 1234".into(),
                            indent: 2,
                            gwt_list: vec![
                                GWTNode::When("Test2".into()),
                                GWTNode::Then("more tests".into()),
                            ],
                        },
                    ],
                }),
            ],
        }
    );
}

#[test]
fn missing_header_is_rejected() {
    let err = parse("GROUP g\n  STEP s\n    WHEN w\n", "test").unwrap_err();
    assert_eq!(err.at, 0);
    assert_eq!(err.at_len, 1);
    assert_eq!(err.name, "test");
    assert_eq!(err.src, "GROUP g\n  STEP s\n    WHEN w\n");
}

#[test]
fn indented_header_is_rejected() {
    let err = parse(" WORKING_ON x\nSTEP s\n  WHEN w\n", "in").unwrap_err();
    assert_eq!(err.at, 1);
}

#[test]
fn shallower_clause_is_rejected() {
    // the clause at a shallower indent than the established clause
    // column cannot belong anywhere, so the parse fails
    let err = parse("STEP only\n  GIVEN a\n THEN b\n", "test").unwrap_err();
    assert_eq!(err.at, 0);
}

#[test]
fn shallower_clause_after_header_is_rejected() {
    let input = "WORKING_ON x\nSTEP only\n  GIVEN a\n THEN b\n";
    let err = parse(input, "test").unwrap_err();
    // the span points at the offending clause's keyword
    assert_eq!(err.at, input.find("THEN").unwrap());
    assert_eq!(err.at_len, 1);
}

#[test]
fn group_without_steps_is_rejected() {
    let err = parse("WORKING_ON x\nGROUP empty\n", "test").unwrap_err();
    assert_eq!(err.at, "WORKING_ON x\nGROUP empty\n".len());
    assert_eq!(err.at_len, 0);
}

#[test]
fn group_with_offside_sibling_is_rejected() {
    let input = "WORKING_ON x\nGROUP g\n  STEP a\n    WHEN w\n    THEN t\n   STEP b\n  WHEN v\n";
    let err = parse(input, "test").unwrap_err();
    // the second sibling sits one column deeper, cannot be a sibling
    // nor a top-level scenario, and the span points at its keyword
    assert_eq!(err.at, input.find("STEP b").unwrap());
}

#[test]
fn deeper_group_sibling_is_rejected() {
    // the second sibling sits deeper than the first; even though it
    // would parse as a scenario on its own, it fits no level, and the
    // span points at its keyword
    let input = "WORKING_ON x\nGROUP g\n STEP a\n   WHEN w\n  STEP b\n    WHEN v\n";
    let err = parse(input, "test").unwrap_err();
    assert_eq!(err.at, input.find("STEP b").unwrap());
    assert_eq!(err.at_len, 1);
}

#[test]
fn off_column_top_level_entry_is_rejected() {
    // top-level entries share the column the first one established
    let input = "WORKING_ON x\nSTEP a\n  WHEN w\n   STEP b\n     WHEN v\n";
    let err = parse(input, "test").unwrap_err();
    assert_eq!(err.at, input.find("STEP b").unwrap());
}

#[test]
fn second_separator_space_belongs_to_the_text() {
    // exactly one space separates the keyword from the free text
    let result = given("GIVEN  two spaces", 0).unwrap();
    assert_eq!(result.0, GWTNode::Given(" two spaces".into()));
}

#[test]
fn empty_document_is_rejected() {
    assert!(parse("", "test").is_err());
    assert!(parse("WORKING_ON x\n", "test").is_err());
}

#[test]
fn keyword_needs_a_space() {
    assert!(working_on("WORKING_ONx y").is_none());
    assert!(given("GIVENx y", 0).is_none());
}

#[test]
fn blank_lines_between_entries_are_consumed() {
    let ast = parse("WORKING_ON x\n\nSTEP s\n  WHEN w\n\n\nSTEP t\n  WHEN v\n", "test").unwrap();
    assert_eq!(ast.nodes.len(), 2);
}

#[test]
fn multiple_when_clauses_concatenate_without_separator() {
    let input = "STEP s\n  WHEN foo\n  WHEN bar\n  GIVEN a\n  THEN b\n";
    let (givens, action, thens) = gwt::compress_step(step(input, 0).unwrap().0);
    assert_eq!(action, "foobar");
    assert_eq!(givens, vec!["a".to_string()]);
    assert_eq!(thens, vec!["b".to_string()]);
}

#[test]
fn parse_is_deterministic_on_identical_text() {
    let input = "WORKING_ON demo\nSTEP s\n  GIVEN a\n  WHEN w\n  THEN b\n";
    let first = parse(input, "test").unwrap();
    let second = parse(input, "test").unwrap();
    assert_eq!(first, second);
}
