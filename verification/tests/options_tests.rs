use segstore::date_time_options::{DateOptions, DateTimePrecision};
use segstore::fastfield::FastFieldNotAvailableError;

#[test]
fn test_date_options_default() {
    let opts = DateOptions::default();
    assert!(!opts.is_stored());
    assert!(!opts.is_indexed());
    assert!(!opts.fieldnorms());
    assert!(!opts.is_fast());
    assert_eq!(opts.get_precision(), DateTimePrecision::Seconds);
    assert_eq!(DateTimePrecision::default(), DateTimePrecision::Seconds);
}

#[test]
fn test_date_options_builders() {
    let opts = DateOptions::default()
        .set_stored()
        .set_indexed()
        .set_fieldnorm()
        .set_fast()
        .set_precision(DateTimePrecision::Milliseconds);
    assert!(opts.is_stored());
    assert!(opts.is_indexed());
    assert!(opts.fieldnorms());
    assert!(opts.is_fast());
    assert_eq!(opts.get_precision(), DateTimePrecision::Milliseconds);
}

#[test]
fn test_date_options_fieldnorms_needs_indexed() {
    let opts = DateOptions::default().set_fieldnorm();
    // the flag only counts on an indexed field
    assert!(!opts.fieldnorms());
    assert!(opts.set_indexed().fieldnorms());
}

#[test]
fn test_fast_field_not_available_error() {
    let err = FastFieldNotAvailableError::new("timestamp");
    assert_eq!(err.field_name(), "timestamp");
    assert_eq!(err.message(), "fast field not available: 'timestamp'");
}
