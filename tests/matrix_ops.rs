use feoho_nn::{ConstructionError, Matrix};

#[test]
fn identity_rectangular() {
    let m: Matrix<f64> = Matrix::identity(3, 2);
    assert_eq!(m.get_row_count(), 3);
    assert_eq!(m.get_col_count(), 2);
    assert_eq!(m.get_data_ref(), &[1.0, 0.0, 0.0, 1.0, 0.0, 0.0]);
    let w: Matrix<f64> = Matrix::identity(2, 4);
    assert_eq!(w.get_data_ref(), &[1.0, 0.0, 0.0, 0.0, 0.0, 1.0, 0.0, 0.0]);
}

#[test]
fn zero_empty_matrix() {
    let m: Matrix<f64> = Matrix::zero(0, 4);
    assert_eq!(m.get_row_count(), 0);
    assert_eq!(m.get_col_count(), 4);
    assert!(m.get_data_ref().is_empty());
}

#[test]
fn from_rejects_short_stride() {
    let r = Matrix::from(2, 3, 2, &[1.0, 2.0, 3.0, 4.0, 5.0, 6.0]);
    assert_eq!(r.err(), Some(ConstructionError::StrideTooSmall));
}

#[test]
fn from_rejects_short_source() {
    // the last row would need elements 3..6 of a five-element buffer
    let r = Matrix::from(2, 3, 3, &[1.0, 2.0, 3.0, 4.0, 5.0]);
    assert_eq!(r.err(), Some(ConstructionError::SourceTooShort));
}

#[test]
fn from_accepts_exactly_covered_region() {
    // three rows of width one at pitch three reach element 6 of seven
    let data = [0.0, 9.0, 9.0, 1.0, 9.0, 9.0, 2.0];
    let m = Matrix::from(3, 1, 3, &data).unwrap();
    assert_eq!(*m.get_ref(0, 0), 0.0);
    assert_eq!(*m.get_ref(1, 0), 1.0);
    assert_eq!(*m.get_ref(2, 0), 2.0);
}

#[test]
fn from_copies_the_source() {
    let mut data = vec![1.0, 2.0];
    let m = Matrix::from(1, 2, 2, &data).unwrap();
    data[0] = 7.0;
    assert_eq!(*m.get_ref(0, 0), 1.0);
}

#[test]
fn get_ref_mut_writes_one_element() {
    let mut m: Matrix<f64> = Matrix::zero(2, 2);
    *m.get_ref_mut(1, 0) = 3.5;
    assert_eq!(m.get_data_ref(), &[0.0, 0.0, 3.5, 0.0]);
}

#[test]
fn row_mut_of_strided_view() {
    let data = [1.0, 2.0, 3.0, 4.0, 5.0, 6.0];
    let mut m = Matrix::from(2, 2, 3, &data).unwrap();
    m.get_row_ref_mut(1)[1] = 0.5;
    assert_eq!(m.get_row_ref(1), &[4.0, 0.5]);
    assert_eq!(m.get_row_ref(0), &[1.0, 2.0]);
    assert_eq!(m.get_data_ref(), &[1.0, 2.0, 3.0, 4.0, 0.5, 6.0]);
}

#[test]
fn copy_from_slice_row_major() {
    let mut m = Matrix::from(2, 2, 3, &[0.0; 6]).unwrap();
    m.copy_from_slice(&[1.0, 2.0, 3.0, 4.0]);
    assert_eq!(m.get_row_ref(0), &[1.0, 2.0]);
    assert_eq!(m.get_row_ref(1), &[3.0, 4.0]);
}

#[test]
fn copy_from_same_shape() {
    let src = Matrix::from(2, 2, 3, &[1.0, 2.0, 9.0, 3.0, 4.0, 9.0]).unwrap();
    let mut dst: Matrix<f64> = Matrix::zero(2, 2);
    dst.copy_from(&src);
    assert_eq!(dst.get_data_ref(), &[1.0, 2.0, 3.0, 4.0]);
}

#[test]
fn fill_sets_every_element() {
    let mut m: Matrix<f64> = Matrix::identity(2, 3);
    m.fill(0.25);
    assert!(m.get_data_ref().iter().all(|x| *x == 0.25));
    assert_eq!(m.get_data_ref().len(), 6);
}

#[test]
fn activate_applies_function() {
    let mut m = Matrix::from(1, 3, 3, &[-1.0, 0.0, 2.0]).unwrap();
    m.activate(&|x: f64| if x > 0.0 { x } else { 0.0 });
    assert_eq!(m.get_data_ref(), &[0.0, 0.0, 2.0]);
}

#[test]
fn dot_overwrites_destination() {
    let a = Matrix::from(1, 2, 2, &[1.0, 2.0]).unwrap();
    let b = Matrix::from(2, 1, 1, &[3.0, 4.0]).unwrap();
    let mut d = Matrix::from(1, 1, 1, &[100.0]).unwrap();
    d.dot(&a, &b);
    assert_eq!(d.get_data_ref(), &[11.0]);
}

#[test]
fn dot_with_empty_inner_dimension_gives_zeros() {
    let a: Matrix<f64> = Matrix::zero(2, 0);
    let b: Matrix<f64> = Matrix::zero(0, 2);
    let mut d = Matrix::from(2, 2, 2, &[5.0; 4]).unwrap();
    d.dot(&a, &b);
    assert_eq!(d.get_data_ref(), &[0.0; 4]);
}

#[test]
fn dot_on_integers() {
    let a = Matrix::from(2, 2, 2, &[1u64, 2, 3, 4]).unwrap();
    let b: Matrix<u64> = Matrix::identity(2, 2);
    let mut d: Matrix<u64> = Matrix::zero(2, 2);
    d.dot(&a, &b);
    assert_eq!(d.get_data_ref(), &[1, 2, 3, 4]);
}

#[test]
fn add_on_strided_views() {
    let data = [1.0, 2.0, 10.0, 3.0, 4.0, 20.0];
    let mut a = Matrix::from(2, 2, 3, &data).unwrap();
    let b = Matrix::from(2, 2, 3, &[1.0, 1.0, 0.0, 1.0, 1.0, 0.0]).unwrap();
    a.add(&b);
    assert_eq!(a.get_row_ref(0), &[2.0, 3.0]);
    assert_eq!(a.get_row_ref(1), &[4.0, 5.0]);
    assert_eq!(a.get_data_ref(), &[2.0, 3.0, 10.0, 4.0, 5.0, 20.0]);
}

#[test]
fn add_runs_over_source_buffer() {
    // the source's two buffer cells are added to the first two cells of the destination
    let mut a = Matrix::from(2, 1, 2, &[1.0, 7.0, 2.0, 8.0]).unwrap();
    let b = Matrix::from(2, 1, 1, &[10.0, 20.0]).unwrap();
    a.add(&b);
    assert_eq!(a.get_data_ref(), &[11.0, 27.0, 2.0, 8.0]);
}

#[test]
fn dot_keeps_gap_cells() {
    let a = Matrix::from(2, 1, 1, &[1.0, 2.0]).unwrap();
    let b = Matrix::from(1, 1, 1, &[3.0]).unwrap();
    let mut d = Matrix::from(2, 1, 2, &[0.0, 9.0, 0.0, 9.0]).unwrap();
    d.dot(&a, &b);
    assert_eq!(d.get_data_ref(), &[3.0, 9.0, 6.0, 9.0]);
}

#[test]
fn add_over_whole_buffer_when_packed() {
    let mut a = Matrix::from(2, 2, 2, &[1.0, 2.0, 3.0, 4.0]).unwrap();
    let b = Matrix::from(2, 2, 2, &[4.0, 3.0, 2.0, 1.0]).unwrap();
    a.add(&b);
    assert_eq!(a.get_data_ref(), &[5.0; 4]);
}

#[test]
fn fill_with_uses_drawn_values() {
    let mut m: Matrix<f64> = Matrix::zero(1, 3);
    let mut k = 0.0;
    m.fill_with(&mut || {
        k += 0.5;
        k
    });
    assert_eq!(m.get_data_ref(), &[0.5, 1.0, 1.5]);
}
