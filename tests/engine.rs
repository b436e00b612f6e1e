use feoho_nn::{Arch, ConstructionError};
use rand::rngs::StdRng;
use rand::{Rng, SeedableRng};

fn sigmoid(x: f64) -> f64 {
    1.0 / (1.0 + (-x).exp())
}

fn counter() -> impl FnMut() -> f64 {
    let mut k = 0.0;
    move || {
        k += 1.0;
        k
    }
}

fn identity(x: f64) -> f64 {
    x
}

fn double(x: f64) -> f64 {
    2.0 * x
}

/// One input, one output, no hidden layer: weight 1, bias 2 after drawing 1, 2, 3, 4.
fn linear_engine(act: fn(f64) -> f64) -> Arch<f64, fn(f64) -> f64> {
    let data = [1.0, 0.0, 2.0, 1.0];
    let hidden: [usize; 0] = [];
    let mut draw = counter();
    Arch::new(&data, 2, 1, 1, &hidden, act, &mut draw).unwrap()
}

#[test]
fn new_builds_strided_views() {
    let data = [
        0.0, 1.0, 2.0, 3.0,
        4.0, 5.0, 6.0, 7.0,
        8.0, 9.0, 10.0, 11.0,
    ];
    let mut draw = counter();
    let arch = Arch::new(&data, 3, 3, 1, &[2], identity as fn(f64) -> f64, &mut draw).unwrap();
    for i in 0..3 {
        assert_eq!(arch.get_input().get_row_ref(i), &data[i * 4..i * 4 + 3]);
        assert_eq!(arch.get_output().get_row_ref(i), &data[i * 4 + 3..i * 4 + 4]);
    }
    let model = arch.get_model();
    assert_eq!(model.layer_count(), 2);
    assert_eq!(model.get_weight(0).get_row_count(), 3);
    assert_eq!(model.get_weight(0).get_col_count(), 2);
    assert_eq!(model.get_weight(1).get_row_count(), 2);
    assert_eq!(model.get_weight(1).get_col_count(), 1);
    let gradient = arch.get_gradient();
    assert_eq!(gradient.layer_count(), 2);
    assert!(gradient.get_weight(0).get_data_ref().iter().all(|x| *x == 0.0));
    assert!(gradient.get_bias(1).get_data_ref().iter().all(|x| *x == 0.0));
    // parameters are drawn, weights first
    assert_eq!(model.get_weight(0).get_data_ref(), &[1.0, 2.0, 3.0, 4.0, 5.0, 6.0]);
    assert_eq!(model.get_weight(1).get_data_ref(), &[7.0, 8.0]);
    assert_eq!(model.get_bias(0).get_data_ref(), &[9.0, 10.0]);
}

#[test]
fn new_rejects_zero_dimensions() {
    let hidden: [usize; 0] = [];
    let empty: [f64; 0] = [];
    let mut draw = counter();
    assert_eq!(Arch::new(&empty, 1, 1, 1, &hidden, identity as fn(f64) -> f64, &mut draw).err(), Some(ConstructionError::ZeroDimension));
    assert_eq!(Arch::new(&[1.0, 2.0], 0, 1, 1, &hidden, identity as fn(f64) -> f64, &mut draw).err(), Some(ConstructionError::ZeroDimension));
    assert_eq!(Arch::new(&[1.0, 2.0], 1, 0, 1, &hidden, identity as fn(f64) -> f64, &mut draw).err(), Some(ConstructionError::ZeroDimension));
    assert_eq!(Arch::new(&[1.0, 2.0], 1, 1, 0, &hidden, identity as fn(f64) -> f64, &mut draw).err(), Some(ConstructionError::ZeroDimension));
}

#[test]
fn new_rejects_short_buffer() {
    let hidden: [usize; 0] = [];
    let mut draw = counter();
    let r = Arch::new(&[1.0, 2.0, 3.0], 2, 1, 1, &hidden, identity as fn(f64) -> f64, &mut draw);
    assert_eq!(r.err(), Some(ConstructionError::SourceTooShort));
}

#[test]
fn feed_forward_exact() {
    let mut arch = linear_engine(identity);
    // the input activation was drawn as 3
    arch.feed_forward();
    assert_eq!(*arch.get_model().get_output().get_ref(0, 0), 5.0);
    let mut doubled = linear_engine(double);
    doubled.feed_forward();
    assert_eq!(*doubled.get_model().get_output().get_ref(0, 0), 10.0);
}

#[test]
fn cost_is_mean_squared_error() {
    let mut arch = linear_engine(identity);
    // outputs 3 and 4 against targets 0 and 1
    assert_eq!(arch.cost(), 9.0);
}

#[test]
fn cost_sums_every_output_column() {
    // one row, one input 1, two targets 0 and 0; weights 1, 2, biases 3, 4
    let data = [1.0, 0.0, 0.0];
    let hidden: [usize; 0] = [];
    let mut draw = counter();
    let mut arch = Arch::new(&data, 1, 1, 2, &hidden, identity as fn(f64) -> f64, &mut draw).unwrap();
    // outputs 4 and 6: (16 + 36) / 1
    assert_eq!(arch.cost(), 52.0);
}

#[test]
fn finite_diff_exact() {
    let mut arch = linear_engine(identity);
    arch.finite_diff(0.5);
    assert_eq!(arch.get_gradient().get_weight(0).get_data_ref(), &[10.25]);
    assert_eq!(arch.get_gradient().get_bias(0).get_data_ref(), &[6.5]);
    assert_eq!(arch.get_model().get_weight(0).get_data_ref(), &[1.0]);
    assert_eq!(arch.get_model().get_bias(0).get_data_ref(), &[2.0]);
}

#[test]
fn learn_exact() {
    let mut arch = linear_engine(identity);
    arch.finite_diff(0.5);
    arch.learn(0.5);
    assert_eq!(arch.get_model().get_weight(0).get_data_ref(), &[-4.125]);
    assert_eq!(arch.get_model().get_bias(0).get_data_ref(), &[-1.25]);
}

#[test]
fn train_reports_costs() {
    let mut arch = linear_engine(identity);
    let (before, after) = arch.train(0.5, 0.5, 1);
    assert_eq!(before, 9.0);
    assert_eq!(after, 69.5703125);
    let mut idle = linear_engine(identity);
    let (b, a) = idle.train(0.5, 0.5, 0);
    assert_eq!(b, a);
}

#[test]
fn and_gate_cost_never_rises() {
    let data = [
        0.0, 0.0, 0.0,
        0.0, 1.0, 0.0,
        1.0, 0.0, 0.0,
        1.0, 1.0, 1.0,
    ];
    let hidden: [usize; 0] = [];
    let mut rng = StdRng::seed_from_u64(7);
    let mut draw = || rng.gen_range(0.0..1.0);
    let mut arch = Arch::new(&data, 4, 2, 1, &hidden, sigmoid, &mut draw).unwrap();
    let first = arch.cost();
    let mut last = first;
    for _ in 0..40 {
        let (_, now) = arch.train(1e-4, 1e-1, 50);
        assert!(now <= last, "cost rose from {} to {}", last, now);
        last = now;
    }
    assert!(last < first);
}

#[test]
fn xor_cost_decreases() {
    let data = [
        0.0, 0.0, 0.0,
        1.0, 0.0, 1.0,
        0.0, 1.0, 1.0,
        1.0, 1.0, 0.0,
    ];
    let mut rng = StdRng::seed_from_u64(11);
    let mut draw = || rng.gen_range(0.0..1.0);
    let mut arch = Arch::new(&data, 4, 2, 1, &[2], sigmoid, &mut draw).unwrap();
    let (before, after) = arch.train(1e-1, 1e-1, 2000);
    assert!(after < before, "cost went from {} to {}", before, after);
}

#[test]
fn forward_row_loads_and_runs_row() {
    let mut arch = linear_engine(identity);
    arch.forward_row(1);
    assert_eq!(arch.get_model().get_input().get_data_ref(), &[2.0]);
    assert_eq!(*arch.get_model().get_output().get_ref(0, 0), 4.0);
}

#[test]
fn cost_leaves_last_row_in_input() {
    let mut arch = linear_engine(identity);
    arch.cost();
    assert_eq!(arch.get_model().get_input().get_data_ref(), &[2.0]);
    assert_eq!(arch.get_model().get_output().get_data_ref(), &[4.0]);
}

#[test]
fn finite_diff_keeps_gradient_activations() {
    let mut arch = linear_engine(identity);
    arch.finite_diff(0.5);
    assert_eq!(arch.get_gradient().get_input().get_data_ref(), &[0.0]);
    assert_eq!(arch.get_gradient().get_output().get_data_ref(), &[0.0]);
}

#[test]
fn train_two_rounds_match_manual_rounds() {
    let mut trained = linear_engine(identity);
    trained.train(0.5, 0.125, 2);
    let mut manual = linear_engine(identity);
    for _ in 0..2 {
        manual.finite_diff(0.5);
        manual.learn(0.125);
    }
    assert_eq!(trained.get_model().get_weight(0).get_data_ref(), manual.get_model().get_weight(0).get_data_ref());
    assert_eq!(trained.get_model().get_bias(0).get_data_ref(), manual.get_model().get_bias(0).get_data_ref());
    assert_ne!(trained.get_model().get_weight(0).get_data_ref(), &[1.0]);
}
