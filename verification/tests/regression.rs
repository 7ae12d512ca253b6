use indexmap::IndexMap;
use whitenoise::properties::{
    Aggregator, ArrayProperties, DataType, DataframeProperties, GroupId, Nature, Stability,
    ValueProperties, Warnable,
};
use whitenoise::theil_sen::{propagate, TheilSen};
use whitenoise::{Argument, Double, Error};

fn double(value: f64) -> Double {
    Double { bits: value.to_bits() }
}

fn array() -> ArrayProperties {
    ArrayProperties {
        num_records: Some(100),
        num_columns: Some(1),
        nullity: false,
        releasable: false,
        c_stability: vec![Stability::Value(double(2.0)), Stability::Value(double(3.0))],
        aggregator: None,
        nature: Some(Nature::Continuous),
        data_type: DataType::Float,
        dataset_id: Some(4),
        is_not_empty: true,
        dimensionality: Some(2),
        group_id: vec![],
    }
}

fn run(
    implementation: &str,
    x: Option<ValueProperties>,
    y: Option<ValueProperties>,
    group_id: Result<Vec<GroupId>, Error>,
) -> Result<Warnable<DataframeProperties>, Error> {
    let mut properties = IndexMap::new();
    if let Some(y) = y {
        properties.insert("data_y".to_string(), y);
    }
    if let Some(x) = x {
        properties.insert("data_x".to_string(), x);
    }
    let component = TheilSen { implementation: implementation.to_string(), k: 3 };
    component.propagate_property(&properties, 12, group_id)
}

fn error_of(x: ArrayProperties, y: ArrayProperties) -> Option<Error> {
    run(
        "theil-sen",
        Some(ValueProperties::Array(x)),
        Some(ValueProperties::Array(y)),
        Ok(vec![]),
    )
    .err()
}

fn evaluate(stability: &Stability) -> f64 {
    match stability {
        Stability::Value(value) => f64::from_bits(value.bits),
        Stability::Product(left, right) => evaluate(left) * evaluate(right),
    }
}

#[test]
fn properties_of_the_coefficients() {
    let group = GroupId { partition_id: 7, index: Some(1) };
    for name in ["theil-sen", "Theil-Sen", "THEIL-SEN-K-MATCH"] {
        let x = ArrayProperties { releasable: true, ..array() };
        let y = ArrayProperties {
            c_stability: vec![Stability::Value(double(0.5))],
            ..array()
        };
        let outcome = run(
            name,
            Some(ValueProperties::Array(x)),
            Some(ValueProperties::Array(y)),
            Ok(vec![group]),
        )
        .unwrap();
        assert!(outcome.warnings.is_empty());
        let children = outcome.value.children;
        let names: Vec<&String> = children.keys().collect();
        assert_eq!(names, vec!["slope", "intercept"]);
        for child in children.values() {
            let estimate = child.array(Argument::X).unwrap();
            assert_eq!(estimate.num_records, Some(1));
            assert_eq!(estimate.num_columns, Some(2));
            assert!(!estimate.nullity);
            assert!(!estimate.releasable);
            assert_eq!(estimate.c_stability.len(), 1);
            assert_eq!(evaluate(&estimate.c_stability[0]), 1.0);
            assert_eq!(estimate.aggregator, None);
            assert_eq!(estimate.nature, None);
            assert_eq!(estimate.data_type, DataType::Float);
            assert_eq!(estimate.dataset_id, Some(12));
            assert!(estimate.is_not_empty);
            assert_eq!(estimate.dimensionality, Some(1));
            assert_eq!(estimate.group_id, vec![group]);
        }
    }
}

#[test]
fn release_needs_both_arguments() {
    for (x_releasable, y_releasable) in [(true, true), (true, false), (false, true)] {
        let x = ArrayProperties { releasable: x_releasable, ..array() };
        let y = ArrayProperties { releasable: y_releasable, ..array() };
        let outcome = run(
            "theil-sen",
            Some(ValueProperties::Array(x)),
            Some(ValueProperties::Array(y)),
            Ok(vec![]),
        )
        .unwrap();
        let slope = outcome.value.children["slope"].array(Argument::X).unwrap();
        assert_eq!(slope.releasable, x_releasable && y_releasable);
    }
}

#[test]
fn missing_arguments() {
    let value = || Some(ValueProperties::Array(array()));
    let error = |x, y| run("theil-sen", x, y, Ok(vec![])).err();
    assert_eq!(error(None, None), Some(Error::Missing(Argument::X)));
    assert_eq!(error(value(), None), Some(Error::Missing(Argument::Y)));
    assert_eq!(
        error(Some(ValueProperties::Other), None),
        Some(Error::NotAnArray(Argument::X))
    );
    assert_eq!(
        error(value(), Some(ValueProperties::Other)),
        Some(Error::NotAnArray(Argument::Y))
    );
}

#[test]
fn unsound_arguments() {
    let aggregated = || ArrayProperties { aggregator: Some(Aggregator { node_id: 1 }), ..array() };
    assert_eq!(error_of(aggregated(), array()), Some(Error::Aggregated));
    assert_eq!(error_of(array(), aggregated()), Some(Error::Aggregated));
    let released = ArrayProperties { releasable: true, ..aggregated() };
    assert_eq!(error_of(released, array()), None);
    let empty = || ArrayProperties { is_not_empty: false, ..array() };
    assert_eq!(error_of(empty(), array()), Some(Error::PossiblyEmpty));
    assert_eq!(error_of(array(), empty()), Some(Error::PossiblyEmpty));
    assert_eq!(error_of(empty(), aggregated()), Some(Error::Aggregated));
    let whole = || ArrayProperties { data_type: DataType::Int, ..array() };
    assert_eq!(error_of(whole(), whole()), Some(Error::NotFloat(Argument::X)));
    assert_eq!(error_of(array(), whole()), Some(Error::NotFloat(Argument::Y)));
    let shorter = ArrayProperties { num_records: Some(99), ..array() };
    assert_eq!(error_of(array(), shorter), Some(Error::LengthMismatch));
    let unknown = || ArrayProperties { num_records: None, ..array() };
    assert_eq!(error_of(unknown(), array()), Some(Error::LengthMismatch));
    assert_eq!(error_of(unknown(), unknown()), Some(Error::UnknownLength));
    let large = || ArrayProperties { num_records: Some(i64::MAX), ..array() };
    assert_eq!(error_of(large(), large()), None);
}

#[test]
fn names_of_estimators_and_partitions() {
    let value = || Some(ValueProperties::Array(array()));
    assert_eq!(
        run("ols", value(), value(), Ok(vec![])).err(),
        Some(Error::InvalidImplementation)
    );
    assert_eq!(
        run("theil-sen", value(), value(), Err(Error::SeparatePartitions)).err(),
        Some(Error::SeparatePartitions)
    );
    assert_eq!(
        run("ols", value(), value(), Err(Error::SeparatePartitions)).err(),
        Some(Error::InvalidImplementation)
    );
    let mut properties = IndexMap::new();
    properties.insert("data_x".to_string(), ValueProperties::Array(array()));
    properties.insert("data_y".to_string(), ValueProperties::Array(array()));
    assert!(propagate("theil-sen", &properties, 1, Ok(vec![])).is_ok());
    assert_eq!(
        propagate("Theil-Sen", &properties, 1, Ok(vec![])).err(),
        Some(Error::InvalidImplementation)
    );
}

#[test]
fn words_of_the_errors() {
    assert_eq!(Error::ProbabilityOutOfRange.message(), "probability is not within [0, 1]");
    assert_eq!(Error::MinAboveMax.message(), "min may not be greater than max");
    assert_eq!(Error::LowerAboveUpper.message(), "lower may not be greater than upper");
    assert_eq!(Error::ScaleNotPositive.message(), "scale must be greater than zero");
    assert_eq!(Error::Missing(Argument::Y).message(), "data y: missing");
    assert_eq!(
        Error::NotFloat(Argument::X).message(),
        "data x: atomic type must be float"
    );
    assert_eq!(
        Error::LengthMismatch.message(),
        "data x and data y: must be same length"
    );
    assert_eq!(
        Error::InvalidImplementation.message(),
        "Invalid implementation passed. Valid values are theil-sen and theil-sen-k-match"
    );
}

#[test]
fn arguments_may_be_exchanged() {
    let x = || ArrayProperties { releasable: true, ..array() };
    let y = || ArrayProperties {
        c_stability: vec![Stability::Value(double(0.1)), Stability::Value(double(0.7))],
        ..array()
    };
    let slope = |x, y| {
        let outcome = run(
            "theil-sen",
            Some(ValueProperties::Array(x)),
            Some(ValueProperties::Array(y)),
            Ok(vec![]),
        )
        .unwrap();
        let mut children = outcome.value.children;
        match children.remove("slope") {
            Some(ValueProperties::Array(slope)) => slope,
            _ => panic!("no slope"),
        }
    };
    let (left, right) = (slope(x(), y()), slope(y(), x()));
    assert_eq!(left.num_records, right.num_records);
    assert_eq!(left.releasable, right.releasable);
    assert_eq!(left.dataset_id, right.dataset_id);
    let values = |slope: &ArrayProperties| -> Vec<f64> {
        slope.c_stability.iter().map(evaluate).collect()
    };
    assert_eq!(values(&left), values(&right));
}
