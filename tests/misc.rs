use circom_core::ast::AssignOp;
use circom_core::file_stack::FileStack;
use circom_core::fresh_names::State;
use circom_core::functions::{add_instance, look_for_existing_instance, FunctionInstances, Param};
use circom_core::knowledge::{MemoryKnowledge, TypeKnowledge, TypeReduction};
use circom_core::version::{check_number_version, parse_number_version, Version};

#[test]
fn signal_operators() {
    assert!(AssignOp::AssignSignal.is_signal_operator());
    assert!(AssignOp::AssignConstraintSignal.is_signal_operator());
    assert!(!AssignOp::AssignVar.is_signal_operator());
}

#[test]
fn version_parsing() {
    assert_eq!(parse_number_version("2.1.5"), Some(Version::new(2, 1, 5)));
    assert_eq!(parse_number_version("10.0.123"), Some(Version::new(10, 0, 123)));
    assert_eq!(parse_number_version("2.1"), None);
    assert_eq!(parse_number_version("2..1"), None);
    assert_eq!(parse_number_version("2.1.x"), None);
    assert_eq!(parse_number_version("2.1.5.6"), None);
    assert_eq!(parse_number_version(""), None);
    assert_eq!(parse_number_version("99999999999999999999999.0.0"), None);
    let v = Version::new(1, 2, 3);
    assert_eq!((v.major(), v.minor(), v.patch()), (1, 2, 3));
}

#[test]
fn version_compatibility() {
    let compiler = Version::new(2, 1, 4);
    assert!(matches!(check_number_version("a.circom", Some(Version::new(2, 1, 4)), compiler), Ok(None)));
    assert!(matches!(check_number_version("a.circom", Some(Version::new(2, 0, 9)), compiler), Ok(None)));
    let err = check_number_version("a.circom", Some(Version::new(2, 1, 5)), compiler).unwrap_err();
    assert_eq!(err.path, "a.circom");
    assert_eq!(err.required_version, Version::new(2, 1, 5));
    assert_eq!(err.version, compiler);
    assert!(check_number_version("a.circom", Some(Version::new(3, 0, 0)), compiler).is_err());
    assert!(check_number_version("a.circom", Some(Version::new(2, 2, 0)), compiler).is_err());
    let warning = check_number_version("b.circom", None, compiler).unwrap().unwrap();
    assert_eq!(warning.path, "b.circom");
    assert_eq!(warning.version, compiler);
}

#[test]
fn type_knowledge() {
    let mut k = TypeKnowledge::new();
    assert_eq!(k.reduces_to, None);
    k.set_reduces_to(TypeReduction::Signal);
    assert_eq!(k.get_reduces_to(), TypeReduction::Signal);
    assert!(k.is_signal());
    assert!(!k.is_var());
    assert!(!k.is_component());
    k.set_reduces_to(TypeReduction::Component);
    assert!(k.is_component());
}

#[test]
fn memory_knowledge() {
    let mut m = MemoryKnowledge::new();
    m.set_concrete_dimensions(vec![2, 3, 4]);
    m.set_abstract_memory_address(17);
    assert_eq!(m.get_concrete_dimensions(), &[2, 3, 4]);
    assert_eq!(m.get_full_length(), 24);
    assert_eq!(m.get_abstract_memory_address(), 17);
    m.set_concrete_dimensions(vec![]);
    assert_eq!(m.get_full_length(), 1);
}

#[test]
fn file_stack_hands_out_each_file_once() {
    let mut stack = FileStack::new("/p/main.circom".to_string());
    assert_eq!(stack.current_location, "/p");
    assert_eq!(stack.take_next(), Some("/p/main.circom".to_string()));
    stack.add_include("/p/lib/a.circom".to_string());
    stack.add_include("/p/b.circom".to_string());
    stack.add_include("/p/main.circom".to_string());
    assert_eq!(stack.stack.len(), 2);
    assert_eq!(stack.take_next(), Some("/p/b.circom".to_string()));
    stack.add_include("/p/lib/a.circom".to_string());
    assert_eq!(stack.take_next(), Some("/p/lib/a.circom".to_string()));
    assert_eq!(stack.current_location, "/p/lib");
    assert_eq!(stack.take_next(), None);
    assert!(stack.stack.is_empty());
}

#[test]
fn fresh_names_count_up() {
    let mut state = State::new();
    assert_eq!(state.produce_id(), "0_auto");
    assert_eq!(state.produce_id(), "1_auto");
    state.fresh_id = 41;
    assert_eq!(state.produce_id(), "41_auto");
    assert_eq!(state.fresh_id, 42);
}

#[test]
fn function_instances_are_shared_per_argument_shape() {
    let mut fns = FunctionInstances::new();
    let p = |n: &str, l: Vec<usize>| Param { name: n.to_string(), length: l };
    add_instance("f", vec![p("x", vec![3])], vec![3], &mut fns);
    add_instance("f", vec![p("x", vec![3])], vec![9], &mut fns);
    add_instance("f", vec![p("x", vec![])], vec![], &mut fns);
    add_instance("g", vec![p("x", vec![3])], vec![1, 2], &mut fns);
    assert_eq!(fns.vcf_collector.len(), 3);
    let headers: Vec<&str> = fns.vcf_collector.iter().map(|v| v.header.as_str()).collect();
    assert_eq!(headers, vec!["f_0", "f_1", "g_2"]);
    assert_eq!(look_for_existing_instance("f", &vec![p("x", vec![3])], &fns), Some((0, vec![3])));
    assert_eq!(look_for_existing_instance("g", &vec![p("x", vec![3])], &fns), Some((2, vec![1, 2])));
    assert_eq!(look_for_existing_instance("f", &vec![p("y", vec![3])], &fns), None);
}
