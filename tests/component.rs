use circom_core::component::ComponentRepresentation;
use circom_core::registry::{ExecutedProgram, ExecutedTemplate};
use circom_core::slice::MemoryError;

fn scheme() -> ExecutedProgram {
    let mut program = ExecutedProgram::new("bn128");
    program.add_node_to_scheme(ExecutedTemplate::new(
        "Mul".to_string(),
        vec![],
        vec![("a".to_string(), vec![]), ("b".to_string(), vec![2, 3])],
        vec![("c".to_string(), vec![])],
    ));
    program
}

fn ready_component() -> ComponentRepresentation {
    let program = scheme();
    let mut c = ComponentRepresentation::default();
    assert_eq!(ComponentRepresentation::initialize_component(&mut c, 0, &program), Ok(()));
    c
}

#[test]
fn initialize_twice_fails() {
    let program = scheme();
    let mut c = ComponentRepresentation::default();
    assert!(!c.is_initialized());
    assert_eq!(ComponentRepresentation::initialize_component(&mut c, 0, &program), Ok(()));
    assert!(c.is_initialized());
    assert_eq!(c.node_pointer, Some(0));
    assert_eq!(
        ComponentRepresentation::initialize_component(&mut c, 0, &program),
        Err(MemoryError::AssignmentError)
    );
}

#[test]
fn uninitialized_component_rejects_access() {
    let mut c = ComponentRepresentation::default();
    assert_eq!(ComponentRepresentation::signal_has_value(&c, "a", &[]), Err(MemoryError::InvalidAccess));
    assert_eq!(
        ComponentRepresentation::assign_value_to_signal(&mut c, "a", &[]),
        Err(MemoryError::InvalidAccess)
    );
    assert!(c.get_signal("a").is_err());
}

#[test]
fn second_assignment_of_an_array_cell_fails() {
    let mut c = ready_component();
    assert_eq!(ComponentRepresentation::assign_value_to_signal(&mut c, "b", &[0, 0]), Ok(()));
    assert_eq!(
        ComponentRepresentation::assign_value_to_signal(&mut c, "b", &[0, 0]),
        Err(MemoryError::AssignmentError)
    );
    assert_eq!(ComponentRepresentation::assign_value_to_signal(&mut c, "b", &[1, 2]), Ok(()));
    assert_eq!(
        ComponentRepresentation::assign_value_to_signal(&mut c, "b", &[0, 0]),
        Err(MemoryError::AssignmentError)
    );
    assert_eq!(ComponentRepresentation::signal_has_value(&c, "b", &[0, 0]), Ok(true));
    assert_eq!(ComponentRepresentation::signal_has_value(&c, "b", &[0, 1]), Ok(false));
}

#[test]
fn out_of_range_and_wrong_rank_are_access_errors() {
    let mut c = ready_component();
    assert_eq!(
        ComponentRepresentation::assign_value_to_signal(&mut c, "b", &[2, 0]),
        Err(MemoryError::InvalidAccess)
    );
    assert_eq!(
        ComponentRepresentation::assign_value_to_signal(&mut c, "b", &[0]),
        Err(MemoryError::InvalidAccess)
    );
    assert_eq!(
        ComponentRepresentation::assign_value_to_signal(&mut c, "a", &[0]),
        Err(MemoryError::InvalidAccess)
    );
    assert_eq!(
        ComponentRepresentation::signal_has_value(&c, "missing", &[]),
        Err(MemoryError::InvalidAccess)
    );
}

#[test]
fn outputs_readable_only_after_all_inputs() {
    let mut c = ready_component();
    assert_eq!(ComponentRepresentation::signal_has_value(&c, "c", &[]), Err(MemoryError::InvalidAccess));
    assert_eq!(ComponentRepresentation::assign_value_to_signal(&mut c, "a", &[]), Ok(()));
    for i in 0..2 {
        for j in 0..3 {
            assert_eq!(ComponentRepresentation::signal_has_value(&c, "c", &[]), Err(MemoryError::InvalidAccess));
            assert_eq!(ComponentRepresentation::assign_value_to_signal(&mut c, "b", &[i, j]), Ok(()));
        }
    }
    assert_eq!(ComponentRepresentation::signal_has_value(&c, "c", &[]), Ok(true));
    assert_eq!(c.get_signal("c").unwrap().cells, vec![true]);
    assert_eq!(
        ComponentRepresentation::assign_value_to_signal(&mut c, "c", &[]),
        Err(MemoryError::AssignmentError)
    );
}

#[test]
fn input_slice_shape_is_copied() {
    let c = ready_component();
    let b = c.get_signal("b").unwrap();
    assert_eq!(b.dims, vec![2, 3]);
    assert_eq!(b.get_number_of_cells(), 6);
    assert!(b.cells.iter().all(|x| !x));
}
