use linear_regression::dataset::{fallback_dataset, Sample};
use linear_regression::fixed::Fx;
use linear_regression::linear_regression::LinearRegression;

fn two_point_dataset() -> Vec<Sample> {
    vec![
        Sample { x: Fx { units: 0 }, y: Fx { units: 0 } },
        Sample { x: Fx { units: 1_000_000 }, y: Fx { units: 1_000_000 } },
    ]
}

#[test]
fn training_on_fallback_lowers_cost() {
    let mut model = LinearRegression::new(fallback_dataset(), Some(Fx { units: 1_000_000 }));
    let before = model.compute_cost().unwrap();
    model.train(1000);
    let after = model.compute_cost().unwrap();
    assert!(after.units < before.units);
}

#[test]
fn two_point_line_is_learned() {
    let mut model = LinearRegression::new(two_point_dataset(), Some(Fx { units: 100_000 }));
    model.train(5000);
    let at_zero = model.predict(Fx { units: 0 }).unwrap();
    let at_one = model.predict(Fx { units: 1_000_000 }).unwrap();
    assert!(at_zero.units.abs() <= 50_000);
    assert!((at_one.units - 1_000_000).abs() <= 50_000);
}

#[test]
fn empty_dataset_trains_as_no_op_and_reports_nothing() {
    let mut model = LinearRegression::new(Vec::new(), None);
    model.train(100);
    assert_eq!(model.get_params(), (Fx { units: 0 }, Fx { units: 0 }));
    assert!(model.compute_cost().is_none());
    assert!(model.compute_precision().is_none());
    assert_eq!(model.get_dataset().len(), 0);
}

#[test]
fn untrained_model_predicts_exactly_zero() {
    let model = LinearRegression::new(fallback_dataset(), None);
    assert_eq!(model.predict(Fx { units: 0 }).unwrap().units, 0);
    assert_eq!(model.predict(Fx { units: 240_000_000_000 }).unwrap().units, 0);
    assert_eq!(model.predict(Fx { units: -5_000_000 }).unwrap().units, 0);
}

#[test]
fn cost_is_stable_without_training() {
    let model = LinearRegression::new(fallback_dataset(), None);
    let first = model.compute_cost().unwrap();
    let second = model.compute_cost().unwrap();
    assert_eq!(first, second);
}

#[test]
fn cost_of_untrained_two_point_model_is_exact() {
    let model = LinearRegression::new(two_point_dataset(), None);
    assert_eq!(model.compute_cost().unwrap().units, 250_000);
}

#[test]
fn set_params_overrides_and_get_params_reads_back() {
    let mut model = LinearRegression::new(two_point_dataset(), None);
    model.set_params(Fx { units: 123 }, Fx { units: -456 });
    assert_eq!(model.get_params(), (Fx { units: 123 }, Fx { units: -456 }));
}

#[test]
fn perfect_fit_has_zero_errors_and_full_r2() {
    let mut model = LinearRegression::new(two_point_dataset(), None);
    model.set_params(Fx { units: 0 }, Fx { units: 1_000_000 });
    let p = model.compute_precision().unwrap();
    assert_eq!(p.mae.units, 0);
    assert_eq!(p.mse.unwrap().units, 0);
    assert_eq!(p.rmse.units, 0);
    assert_eq!(p.r2.unwrap().units, 1_000_000);
}

#[test]
fn untrained_two_point_metrics_are_exact() {
    let model = LinearRegression::new(two_point_dataset(), None);
    let p = model.compute_precision().unwrap();
    assert_eq!(p.mae.units, 500_000);
    assert_eq!(p.mse.unwrap().units, 500_000);
    assert_eq!(p.rmse.units, 707_106);
    assert_eq!(p.r2.unwrap().units, -1_000_000);
}

#[test]
fn dataset_round_trips_through_the_model() {
    let model = LinearRegression::new(fallback_dataset(), None);
    let back = model.get_dataset();
    let original = fallback_dataset();
    assert_eq!(back.len(), original.len());
    for (a, b) in back.iter().zip(original.iter()) {
        assert_eq!(a, b);
    }
}

#[test]
fn single_point_dataset_has_degenerate_ranges() {
    let data = vec![Sample { x: Fx { units: 5_000_000 }, y: Fx { units: 7_000_000 } }];
    let mut model = LinearRegression::new(data, Some(Fx { units: 1_000_000 }));
    model.train(10);
    let back = model.get_dataset();
    assert_eq!(back[0].x.units, 5_000_000);
    assert_eq!(back[0].y.units, 7_000_000);
}

#[test]
fn zero_width_ranges_never_divide() {
    let data = vec![Sample { x: Fx { units: 5_000_000 }, y: Fx { units: 7_000_000 } }];
    let mut model = LinearRegression::new(data, None);
    model.set_params(Fx { units: 1_000_000 }, Fx { units: 1_000_000 });
    // Both axis ranges are zero: the scaled coordinate counts as zero, so
    // every prediction collapses to the single stored price.
    assert_eq!(model.predict(Fx { units: 0 }).unwrap().units, 7_000_000);
    assert_eq!(model.predict(Fx { units: 999_000_000 }).unwrap().units, 7_000_000);
}

#[test]
fn cost_history_drives_convergence_stop() {
    let mut model = LinearRegression::new(two_point_dataset(), Some(Fx { units: 100_000 }));
    model.train(1);
    let one_step = model.get_params();
    let mut model2 = LinearRegression::new(two_point_dataset(), Some(Fx { units: 100_000 }));
    model2.train(1);
    assert_eq!(one_step, model2.get_params());
}
