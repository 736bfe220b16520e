use circom_core::ast::{AssignOp, SignalElementType, SignalType, VariableType};
use circom_core::component_preprocess::rm_component_ci;
use circom_core::export::{signals_json, substitutions_json};
use circom_core::knowledge::{MemoryKnowledge, TypeKnowledge, TypeReduction};
use circom_core::syntax::{Expression, Meta, Statement};

fn meta(reduces: Option<TypeReduction>) -> Meta {
    Meta {
        elem_id: 0,
        start: 0,
        end: 0,
        file_id: None,
        type_knowledge: TypeKnowledge { reduces_to: reduces },
        memory_knowledge: MemoryKnowledge::new(),
    }
}

fn assign(var: &str, reduces: TypeReduction) -> Statement {
    Statement::Substitution {
        meta: meta(Some(reduces)),
        var: var.to_string(),
        access: vec![],
        op: AssignOp::AssignVar,
        rhe: Expression::Number { meta: meta(None), value: "1".to_string() },
    }
}

#[test]
fn component_initializations_are_removed() {
    let component_block = Statement::InitializationBlock {
        meta: meta(None),
        xtype: VariableType::Component,
        initializations: vec![],
    };
    let signal_block = Statement::InitializationBlock {
        meta: meta(None),
        xtype: VariableType::Signal(SignalType::Intermediate, SignalElementType::FieldElement),
        initializations: vec![
            Statement::Declaration { meta: meta(None), xtype: VariableType::Var, name: "s".to_string(), dimensions: vec![], is_constant: true },
            assign("s", TypeReduction::Signal),
        ],
    };
    let looped = Statement::While {
        meta: meta(None),
        cond: Expression::Number { meta: meta(None), value: "0".to_string() },
        stmt: Box::new(assign("c", TypeReduction::Component)),
    };
    let mut templates = vec![Statement::Block {
        meta: meta(None),
        stmts: vec![component_block, assign("c", TypeReduction::Component), signal_block, assign("x", TypeReduction::Variable), looped],
    }];
    rm_component_ci(&mut templates);
    let stmts = match &templates[0] {
        Statement::Block { stmts, .. } => stmts,
        _ => panic!("not a block"),
    };
    assert_eq!(stmts.len(), 4);
    assert!(matches!(&stmts[0], Statement::Block { stmts, .. } if stmts.is_empty()));
    assert!(matches!(&stmts[1], Statement::InitializationBlock { initializations, .. }
        if initializations.len() == 1 && matches!(initializations[0], Statement::Substitution { .. })));
    assert!(matches!(&stmts[2], Statement::Substitution { var, .. } if var == "x"));
    assert!(matches!(&stmts[3], Statement::While { stmt, .. }
        if matches!(stmt.as_ref(), Statement::Block { stmts, .. } if stmts.is_empty())));
}

#[test]
fn signal_and_substitution_documents() {
    let entries = vec![("main.a".to_string(), "1".to_string()), ("main.b".to_string(), "2".to_string())];
    assert_eq!(
        signals_json(&entries),
        "{\n\"signalName2Idx\": {\n\"one\" : \"0\",\n\"main.a\" : 1,\n\"main.b\" : 2\n}\n}"
    );
    assert_eq!(signals_json(&vec![]), "{\n\"signalName2Idx\": {\n\"one\" : \"0\"\n}\n}");
    assert_eq!(
        substitutions_json(&entries),
        "{\n\"substitution\": {\n\"main.a\" : 1,\n\"main.b\" : 2\n}\n}"
    );
    assert_eq!(substitutions_json(&vec![]), "{\n\"substitution\": {\n}\n}");
}
