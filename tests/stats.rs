use circom_core::dag::{build_dag, merge_mixed, produce_dags_stats, templates_in_mixed, totals, Dag, DagNode, StatKind, Stats};
use circom_core::registry::{ExecutedProgram, ExecutedTemplate, ParameterValue, SubcomponentEdge};

fn node(inputs: usize, outputs: usize, intermediates: usize, indexes: usize, edges: Vec<(usize, usize)>) -> DagNode {
    DagNode {
        number_of_inputs: inputs,
        number_of_outputs: outputs,
        number_of_intermediates: intermediates,
        number_of_subcomponents_indexes: indexes,
        edges: edges.into_iter().map(|(goes_to, multiplicity)| SubcomponentEdge { goes_to, multiplicity }).collect(),
    }
}

#[test]
fn stats_count_every_created_component() {
    let dag = Dag {
        nodes: vec![
            node(2, 1, 0, 0, vec![]),
            node(1, 1, 3, 5, vec![(0, 5)]),
            node(4, 2, 1, 2, vec![(1, 2), (0, 1)]),
        ],
    };
    let stats = produce_dags_stats(&dag);
    assert_eq!(
        stats,
        Stats { all_signals: 50, io_signals: 43, all_created_components: 14, all_needed_subcomponents_indexes: 12 }
    );
    assert_eq!(totals(&dag.nodes, StatKind::CreatedComponents), vec![1, 6, 14]);
}

#[test]
fn stats_of_a_single_node() {
    let dag = Dag { nodes: vec![node(2, 1, 0, 0, vec![])] };
    assert_eq!(
        produce_dags_stats(&dag),
        Stats { all_signals: 3, io_signals: 3, all_created_components: 1, all_needed_subcomponents_indexes: 0 }
    );
}

#[test]
fn loop_instances_feed_the_graph_once_with_multiplicity() {
    let mut program = ExecutedProgram::new("bn128");
    let mut main = ExecutedTemplate::new("Main".to_string(), vec![], vec![("x".to_string(), vec![5])], vec![]);
    main.subcomponent_slots = 5;
    for _ in 0..5 {
        let sub = ExecutedTemplate::new(
            "Square".to_string(),
            vec![ParameterValue { name: "k".to_string(), values: vec!["2".to_string()] }],
            vec![("in".to_string(), vec![])],
            vec![("out".to_string(), vec![])],
        );
        let child = program.add_node_to_scheme(sub);
        main.add_subcomponent(child);
    }
    main.intermediates = vec![("t".to_string(), vec![2, 2])];
    program.add_node_to_scheme(main);
    let dag = build_dag(&program);
    assert_eq!(dag.nodes.len(), 2);
    assert_eq!(dag.nodes[1].edges, vec![SubcomponentEdge { goes_to: 0, multiplicity: 5 }]);
    assert_eq!((dag.nodes[1].number_of_inputs, dag.nodes[1].number_of_intermediates), (5, 4));
    assert_eq!(
        produce_dags_stats(&dag),
        Stats { all_signals: 19, io_signals: 15, all_created_components: 6, all_needed_subcomponents_indexes: 5 }
    );
}

#[test]
fn mixed_reports_are_merged_and_listed() {
    let merged = merge_mixed(vec![false, true, false, false], vec![false, false, true, false, true]);
    assert_eq!(merged, vec![false, true, true, false]);
    assert_eq!(templates_in_mixed(&merged), vec![1, 2]);
    assert_eq!(templates_in_mixed(&vec![false, false]), Vec::<usize>::new());
}
