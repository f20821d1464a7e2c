use linear_regression::dataset::{fallback_dataset, Sample};
use linear_regression::fixed::Fx;
use linear_regression::normalization::{normalize_dataset, NormalizationFactors};

#[test]
fn factors_are_exact_minima_and_maxima() {
    let data = fallback_dataset();
    let f = NormalizationFactors::from_data(&data);
    assert_eq!(f.x_min.units, 22_899_000_000);
    assert_eq!(f.x_max.units, 240_000_000_000);
    assert_eq!(f.y_min.units, 3_650_000_000);
    assert_eq!(f.y_max.units, 8_290_000_000);
}

#[test]
fn empty_dataset_gets_unit_square_factors() {
    let f = NormalizationFactors::from_data(&Vec::new());
    assert_eq!(f, NormalizationFactors::default());
    assert_eq!(f.x_min.units, 0);
    assert_eq!(f.x_max.units, 1_000_000);
}

#[test]
fn denormalize_inverts_normalize_exactly() {
    let data = fallback_dataset();
    let f = NormalizationFactors::from_data(&data);
    for s in &data {
        let nx = f.normalize_x(s.x);
        let ny = f.normalize_y(s.y);
        assert_eq!(f.denormalize_x(nx), s.x);
        assert_eq!(f.denormalize_y(ny), s.y);
    }
    let off_sample = Fx { units: -987_654_321 };
    assert_eq!(f.denormalize_x(f.normalize_x(off_sample)), off_sample);
}

#[test]
fn normalized_dataset_holds_offsets_from_minima() {
    let data = vec![
        Sample { x: Fx { units: 10_000_000 }, y: Fx { units: 3_000_000 } },
        Sample { x: Fx { units: 25_000_000 }, y: Fx { units: 8_000_000 } },
    ];
    let f = NormalizationFactors::from_data(&data);
    let norm = normalize_dataset(&data, &f);
    assert_eq!(norm[0].dx, 0);
    assert_eq!(norm[0].dy, 0);
    assert_eq!(norm[1].dx, 15_000_000);
    assert_eq!(norm[1].dy, 5_000_000);
}

#[test]
fn fixed_point_division_truncates_toward_zero() {
    assert_eq!(linear_regression::fixed::div_trunc(7, 2), 3);
    assert_eq!(linear_regression::fixed::div_trunc(-7, 2), -3);
    assert_eq!(linear_regression::fixed::isqrt(10), 3);
    assert_eq!(linear_regression::fixed::isqrt(0), 0);
    assert_eq!(linear_regression::fixed::isqrt(1_000_000_000_000), 1_000_000);
}
