use pmpt::errors::NoiseError;
use pmpt::noise::check_standard_deviation;

#[test]
fn positive_finite_deviations_are_accepted() {
    for stddev in [1.0f64, 0.5, 1e-300, f64::MIN_POSITIVE, 5e-324, f64::MAX, 255.0] {
        assert_eq!(check_standard_deviation(stddev.to_bits()), Ok(()), "{}", stddev);
    }
}

#[test]
fn zero_and_negative_deviations_are_refused() {
    for stddev in [0.0f64, -0.0, -1.0, -1e-300, f64::MIN] {
        assert_eq!(
            check_standard_deviation(stddev.to_bits()),
            Err(NoiseError::InvalidStdDev),
            "{}",
            stddev
        );
    }
}

#[test]
fn deviations_that_are_not_finite_are_refused() {
    for stddev in [f64::INFINITY, f64::NEG_INFINITY, f64::NAN, -f64::NAN] {
        assert_eq!(
            check_standard_deviation(stddev.to_bits()),
            Err(NoiseError::InvalidStdDev),
            "{}",
            stddev
        );
    }
}

#[test]
fn the_check_agrees_with_the_comparison_on_doubles() {
    let samples = [
        0.0f64, 1.0, -1.0, 2.5, 1e308, -1e308, 1e-320, -1e-320, f64::INFINITY, f64::NAN,
        f64::EPSILON, 3.0e10,
    ];
    for stddev in samples {
        let valid = stddev > 0.0 && stddev.is_finite();
        assert_eq!(check_standard_deviation(stddev.to_bits()).is_ok(), valid, "{}", stddev);
    }
}
