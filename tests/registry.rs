use circom_core::registry::{ExecutedProgram, ExecutedTemplate, ParameterValue, SubcomponentEdge};

fn param(name: &str, values: &[&str]) -> ParameterValue {
    ParameterValue { name: name.to_string(), values: values.iter().map(|v| v.to_string()).collect() }
}

fn template(name: &str, params: Vec<ParameterValue>) -> ExecutedTemplate {
    ExecutedTemplate::new(
        name.to_string(),
        params,
        vec![("in".to_string(), vec![2])],
        vec![("out".to_string(), vec![])],
    )
}

#[test]
fn equal_parameters_share_a_node() {
    let mut program = ExecutedProgram::new("bn128");
    let first = program.add_node_to_scheme(template("Num2Bits", vec![param("n", &["8"])]));
    let second = program.add_node_to_scheme(template("Num2Bits", vec![param("n", &["8"])]));
    assert_eq!(first, 0);
    assert_eq!(second, 0);
    assert_eq!(program.number_of_nodes(), 1);
    assert_eq!(program.identify_node("Num2Bits", &vec![param("n", &["8"])]), Some(0));
}

#[test]
fn differing_parameters_get_distinct_nodes() {
    let mut program = ExecutedProgram::new("bn128");
    let a = program.add_node_to_scheme(template("Num2Bits", vec![param("n", &["8"])]));
    let b = program.add_node_to_scheme(template("Num2Bits", vec![param("n", &["16"])]));
    let c = program.add_node_to_scheme(template("Other", vec![param("n", &["8"])]));
    let d = program.add_node_to_scheme(template("Num2Bits", vec![param("m", &["8"])]));
    let e = program.add_node_to_scheme(template("Num2Bits", vec![param("n", &["8", "1"])]));
    assert_eq!((a, b, c, d, e), (0, 1, 2, 3, 4));
    assert_eq!(program.number_of_nodes(), 5);
    assert_eq!(program.identify_node("Num2Bits", &vec![param("n", &["16"])]), Some(1));
    assert_eq!(program.identify_node("Num2Bits", &vec![param("n", &["32"])]), None);
    assert_eq!(program.identify_node("Missing", &vec![]), None);
}

#[test]
fn get_node_bounds() {
    let mut program = ExecutedProgram::new("bn128");
    program.add_node_to_scheme(template("A", vec![]));
    assert_eq!(program.get_node(0).unwrap().template_name(), "A");
    assert!(program.get_node(1).is_none());
    assert_eq!(program.prime, "bn128");
}

#[test]
fn loop_of_identical_instances_is_one_node_and_one_edge() {
    let mut program = ExecutedProgram::new("bn128");
    let mut parent = template("Main", vec![]);
    for _ in 0..5 {
        let child = program.add_node_to_scheme(template("Sub", vec![param("k", &["3"])]));
        parent.add_subcomponent(child);
    }
    let main = program.add_node_to_scheme(parent);
    assert_eq!(program.number_of_nodes(), 2);
    assert_eq!(main, 1);
    let edges = &program.get_node(main).unwrap().subcomponents;
    assert_eq!(edges, &vec![SubcomponentEdge { goes_to: 0, multiplicity: 5 }]);
}

#[test]
fn distinct_children_get_distinct_edges() {
    let mut parent = template("Main", vec![]);
    parent.add_subcomponent(3);
    parent.add_subcomponent(1);
    parent.add_subcomponent(3);
    assert_eq!(
        parent.subcomponents,
        vec![
            SubcomponentEdge { goes_to: 3, multiplicity: 2 },
            SubcomponentEdge { goes_to: 1, multiplicity: 1 }
        ]
    );
}

#[test]
fn parameter_equality_is_pointwise() {
    let t = template("T", vec![param("a", &["1", "2"]), param("b", &[])]);
    assert!(t.is_equal("T", &vec![param("a", &["1", "2"]), param("b", &[])]));
    assert!(!t.is_equal("T", &vec![param("a", &["1", "2"])]));
    assert!(!t.is_equal("T", &vec![param("a", &["2", "1"]), param("b", &[])]));
    assert!(!t.is_equal("U", &vec![param("a", &["1", "2"]), param("b", &[])]));
}
