use feoho_nn::{ConstructionError, Tensor};

#[test]
fn tensor_from_two_three_one() {
    let t: Tensor<f64> = Tensor::from(&[2, 3, 1]).unwrap();
    assert_eq!(t.layer_count(), 2);
    assert_eq!(t.get_weight(0).get_row_count(), 2);
    assert_eq!(t.get_weight(0).get_col_count(), 3);
    assert_eq!(t.get_bias(0).get_row_count(), 1);
    assert_eq!(t.get_bias(0).get_col_count(), 3);
    assert_eq!(t.get_weight(1).get_row_count(), 3);
    assert_eq!(t.get_weight(1).get_col_count(), 1);
    assert_eq!(t.get_bias(1).get_row_count(), 1);
    assert_eq!(t.get_bias(1).get_col_count(), 1);
    let widths: Vec<usize> = (0..=2).map(|i| t.get_activation(i).get_col_count()).collect();
    assert_eq!(widths, vec![2, 3, 1]);
    assert_eq!(t.get_input().get_col_count(), 2);
    assert_eq!(t.get_output().get_col_count(), 1);
    for i in 0..2 {
        assert!(t.get_weight(i).get_data_ref().iter().all(|x| *x == 0.0));
        assert!(t.get_bias(i).get_data_ref().iter().all(|x| *x == 0.0));
    }
}

#[test]
fn tensor_from_needs_two_widths() {
    let r: Result<Tensor<f64>, ConstructionError> = Tensor::from(&[4]);
    assert_eq!(r.err(), Some(ConstructionError::TooFewLayers));
    let e: Result<Tensor<f64>, ConstructionError> = Tensor::from(&[]);
    assert_eq!(e.err(), Some(ConstructionError::TooFewLayers));
}

#[test]
fn tensor_fill_reaches_every_matrix() {
    let mut t: Tensor<f64> = Tensor::from(&[2, 2, 1]).unwrap();
    t.fill(1.5);
    for i in 0..2 {
        assert!(t.get_weight(i).get_data_ref().iter().all(|x| *x == 1.5));
        assert!(t.get_bias(i).get_data_ref().iter().all(|x| *x == 1.5));
    }
    for i in 0..=2 {
        assert!(t.get_activation(i).get_data_ref().iter().all(|x| *x == 1.5));
    }
}

#[test]
fn tensor_fill_with_draws_in_order() {
    let mut t: Tensor<f64> = Tensor::from(&[1, 1]).unwrap();
    let mut k = 0.0;
    t.fill_with(&mut || {
        k += 1.0;
        k
    });
    assert_eq!(t.get_weight(0).get_data_ref(), &[1.0]);
    assert_eq!(t.get_bias(0).get_data_ref(), &[2.0]);
    assert_eq!(t.get_input().get_data_ref(), &[3.0]);
    assert_eq!(t.get_output().get_data_ref(), &[4.0]);
}

#[test]
fn tensor_input_mut_writes_input_row() {
    let mut t: Tensor<f64> = Tensor::from(&[2, 1]).unwrap();
    t.get_input_mut().copy_from_slice(&[0.5, 0.25]);
    *t.get_output_mut().get_ref_mut(0, 0) = 3.0;
    assert_eq!(t.get_input().get_data_ref(), &[0.5, 0.25]);
    assert_eq!(t.get_output().get_data_ref(), &[3.0]);
}

#[test]
fn learn_subtracts_scaled_gradient() {
    let mut model: Tensor<f64> = Tensor::from(&[1, 2]).unwrap();
    model.fill(1.0);
    let mut gradient: Tensor<f64> = Tensor::from(&[1, 2]).unwrap();
    gradient.fill(4.0);
    feoho_nn::_learn(&mut model, &gradient, 0.25);
    assert_eq!(model.get_weight(0).get_data_ref(), &[0.0, 0.0]);
    assert_eq!(model.get_bias(0).get_data_ref(), &[0.0, 0.0]);
    // activations are not parameters
    assert_eq!(model.get_output().get_data_ref(), &[1.0, 1.0]);
}

#[test]
fn finite_difference_formula() {
    assert_eq!(feoho_nn::_finite_diff(1.0, 3.0, 0.5), 4.0);
    assert_eq!(feoho_nn::_finite_diff(3.0, 1.0, 0.25), -8.0);
}

#[test]
fn tensor_fill_chains() {
    let mut t: Tensor<f64> = Tensor::from(&[1, 1]).unwrap();
    let w = t.fill(2.0).get_weight(0).get_data_ref().to_vec();
    assert_eq!(w, vec![2.0]);
}

#[test]
fn tensor_from_succeeds_for_many_widths() {
    let t: Tensor<f64> = Tensor::from(&[3, 1, 4, 1, 5]).unwrap();
    assert_eq!(t.layer_count(), 4);
    assert_eq!(t.get_weight(3).get_row_count(), 1);
    assert_eq!(t.get_weight(3).get_col_count(), 5);
}
