use circom_core::slice::{flat_index, number_of_cells, MemoryError, SignalSlice};

#[test]
fn row_major_flattening() {
    let dims = vec![2, 3, 4];
    assert_eq!(flat_index(&dims, &[0, 0, 0]), Some(0));
    assert_eq!(flat_index(&dims, &[1, 2, 3]), Some(23));
    assert_eq!(flat_index(&dims, &[1, 0, 2]), Some(14));
    assert_eq!(flat_index(&dims, &[0, 3, 0]), None);
    assert_eq!(flat_index(&dims, &[0, 0]), None);
    assert_eq!(flat_index(&vec![], &[]), Some(0));
}

#[test]
fn cell_counts() {
    assert_eq!(number_of_cells(&vec![]), 1);
    assert_eq!(number_of_cells(&vec![2, 3, 4]), 24);
    assert_eq!(number_of_cells(&vec![5, 0, 7]), 0);
}

#[test]
fn set_and_get_cells() {
    let mut s = SignalSlice::new_with_route(&vec![3, 2], false);
    assert_eq!(s.cells.len(), 6);
    assert_eq!(s.set_single_value(&[2, 1], true), Ok(()));
    assert_eq!(s.cells[5], true);
    assert_eq!(s.get_single_value(&[2, 1]), Ok(true));
    assert_eq!(s.get_single_value(&[1, 1]), Ok(false));
    assert_eq!(s.get_single_value(&[3, 0]), Err(MemoryError::InvalidAccess));
    assert_eq!(s.set_single_value(&[0, 2], true), Err(MemoryError::InvalidAccess));
}
