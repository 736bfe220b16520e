use circom_core::ast::{AssignOp, ExpressionInfixOpcode, VariableType};
use circom_core::desugar::{clean_sugar, extend_expression, extend_statement};
use circom_core::fresh_names::State;
use circom_core::knowledge::{MemoryKnowledge, TypeKnowledge};
use circom_core::syntax::{Access, Expression, Meta, Statement};

fn meta() -> Meta {
    Meta {
        elem_id: 0,
        start: 0,
        end: 0,
        file_id: None,
        type_knowledge: TypeKnowledge::new(),
        memory_knowledge: MemoryKnowledge::new(),
    }
}

fn var(name: &str) -> Expression {
    Expression::Variable { meta: meta(), name: name.to_string(), access: vec![] }
}

fn num(v: &str) -> Expression {
    Expression::Number { meta: meta(), value: v.to_string() }
}

fn call(id: &str, args: Vec<Expression>) -> Expression {
    Expression::Call { meta: meta(), id: id.to_string(), args }
}

fn is_var(e: &Expression, name: &str) -> bool {
    matches!(e, Expression::Variable { name: n, access, .. } if n == name && access.is_empty())
}

fn is_decl(s: &Statement, name: &str) -> bool {
    matches!(s, Statement::Declaration { name: n, xtype: VariableType::Var, dimensions, .. } if n == name && dimensions.is_empty())
}

fn assigned_call(s: &Statement, name: &str, id: &str) -> bool {
    matches!(s, Statement::Substitution { var, op: AssignOp::AssignVar, rhe: Expression::Call { id: i, .. }, access, .. }
        if var == name && i == id && access.is_empty())
}

#[test]
fn nested_calls_are_hoisted_in_order() {
    let mut e = call(
        "f",
        vec![
            call("g", vec![var("x")]),
            Expression::InfixOp {
                meta: meta(),
                lhe: Box::new(num("1")),
                infix_op: ExpressionInfixOpcode::Add,
                rhe: Box::new(call("h", vec![var("y")])),
            },
        ],
    );
    let mut state = State::new();
    let hoisted = extend_expression(&mut e, &mut state);
    assert_eq!(state.fresh_id, 2);
    assert_eq!(hoisted.len(), 4);
    assert!(is_decl(&hoisted[0], "0_auto"));
    assert!(assigned_call(&hoisted[1], "0_auto", "h"));
    assert!(is_decl(&hoisted[2], "1_auto"));
    assert!(assigned_call(&hoisted[3], "1_auto", "g"));
    match &e {
        Expression::Call { id, args, .. } => {
            assert_eq!(id, "f");
            assert!(is_var(&args[0], "1_auto"));
            match &args[1] {
                Expression::InfixOp { lhe, rhe, .. } => {
                    assert!(matches!(lhe.as_ref(), Expression::Number { value, .. } if value == "1"));
                    assert!(is_var(rhe, "0_auto"));
                }
                _ => panic!("operator lost"),
            }
        }
        _ => panic!("root changed"),
    }
}

#[test]
fn expression_without_sugar_is_unchanged() {
    let mut e = Expression::InfixOp {
        meta: meta(),
        lhe: Box::new(var("a")),
        infix_op: ExpressionInfixOpcode::Mul,
        rhe: Box::new(var("b")),
    };
    let mut state = State::new();
    assert!(extend_expression(&mut e, &mut state).is_empty());
    assert_eq!(state.fresh_id, 0);
}

#[test]
fn array_index_call_is_hoisted_outside_blocks() {
    let mut s = Statement::Substitution {
        meta: meta(),
        var: "out".to_string(),
        access: vec![],
        op: AssignOp::AssignConstraintSignal,
        rhe: Expression::Variable {
            meta: meta(),
            name: "v".to_string(),
            access: vec![Access::ArrayAccess(call("idx", vec![])), Access::ComponentAccess("s".to_string())],
        },
    };
    let mut state = State::new();
    state.fresh_id = 7;
    let hoisted = extend_statement(&mut s, &mut state);
    assert_eq!(state.fresh_id, 8);
    assert!(is_decl(&hoisted[0], "7_auto"));
    assert!(assigned_call(&hoisted[1], "7_auto", "idx"));
    match &s {
        Statement::Substitution { rhe: Expression::Variable { access, .. }, .. } => match &access[0] {
            Access::ArrayAccess(x) => assert!(is_var(x, "7_auto")),
            _ => panic!("index lost"),
        },
        _ => panic!("statement changed"),
    }
}

#[test]
fn blocks_flatten_and_split_assignments() {
    let init = Statement::InitializationBlock {
        meta: meta(),
        xtype: VariableType::Var,
        initializations: vec![
            Statement::Declaration { meta: meta(), xtype: VariableType::Var, name: "x".to_string(), dimensions: vec![], is_constant: true },
            Statement::Substitution {
                meta: meta(),
                var: "x".to_string(),
                access: vec![],
                op: AssignOp::AssignVar,
                rhe: Expression::ArrayInLine { meta: meta(), values: vec![num("1"), call("g", vec![num("2")])] },
            },
        ],
    };
    let ternary = Statement::Substitution {
        meta: meta(),
        var: "y".to_string(),
        access: vec![],
        op: AssignOp::AssignVar,
        rhe: Expression::TernaryOp { meta: meta(), cond: Box::new(var("c")), if_true: Box::new(num("3")), if_false: Box::new(num("4")) },
    };
    let mut templates = vec![Statement::Block { meta: meta(), stmts: vec![init, ternary] }];
    let mut functions = vec![];
    clean_sugar(&mut templates, &mut functions);
    assert_eq!(templates.len(), 1);
    let stmts = match &templates[0] {
        Statement::Block { stmts, .. } => stmts,
        _ => panic!("not a block"),
    };
    assert_eq!(stmts.len(), 6);
    assert!(is_decl(&stmts[0], "x"));
    assert!(is_decl(&stmts[1], "0_auto"));
    assert!(assigned_call(&stmts[2], "0_auto", "g"));
    for (k, s) in [(0usize, &stmts[3]), (1usize, &stmts[4])] {
        match s {
            Statement::Substitution { var, access, .. } => {
                assert_eq!(var, "x");
                assert_eq!(access.len(), 1);
                assert!(matches!(&access[0], Access::ArrayAccess(Expression::Number { value, .. }) if *value == k.to_string()));
            }
            _ => panic!("array assignment not split"),
        }
    }
    assert!(matches!(&stmts[4], Statement::Substitution { rhe, .. } if is_var(rhe, "0_auto")));
    match &stmts[5] {
        Statement::IfThenElse { cond, if_case, else_case, .. } => {
            assert!(is_var(cond, "c"));
            assert!(matches!(if_case.as_ref(), Statement::Block { stmts, .. } if stmts.len() == 1));
            assert!(else_case.is_some());
        }
        _ => panic!("conditional assignment not split"),
    }
}

#[test]
fn returned_call_goes_through_a_numbered_variable() {
    let mut value_meta = meta();
    value_meta.memory_knowledge.set_concrete_dimensions(vec![3]);
    let ret = Statement::Return {
        meta: meta(),
        value: Expression::Call { meta: value_meta, id: "f".to_string(), args: vec![num("1")] },
    };
    let mut templates = vec![];
    let mut functions = vec![Statement::Block { meta: meta(), stmts: vec![ret] }];
    clean_sugar(&mut templates, &mut functions);
    let stmts = match &functions[0] {
        Statement::Block { stmts, .. } => stmts,
        _ => panic!("not a block"),
    };
    assert_eq!(stmts.len(), 3);
    match &stmts[0] {
        Statement::Declaration { name, dimensions, .. } => {
            assert_eq!(name, "0");
            assert_eq!(dimensions.len(), 1);
            assert!(matches!(&dimensions[0], Expression::Number { value, .. } if value == "3"));
        }
        _ => panic!("no declaration"),
    }
    assert!(assigned_call(&stmts[1], "0", "f"));
    assert!(matches!(&stmts[2], Statement::Return { value, .. } if is_var(value, "0")));
}
