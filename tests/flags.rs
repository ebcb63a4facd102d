use rainbow_text::config::{frequency_args, Axis};

fn args(v: &[&str]) -> Vec<String> {
    v.iter().map(|s| s.to_string()).collect()
}

#[test]
fn no_flags_gives_nothing() {
    let r = frequency_args(&args(&["program"])).unwrap();
    assert!(r.is_empty());
}

#[test]
fn both_flags_in_order() {
    let r = frequency_args(&args(&["program", "-h", "0.5", "--vertical-frequency", "0.9"])).unwrap();
    assert_eq!(r.len(), 2);
    assert_eq!(r[0].axis, Axis::Horizontal);
    assert_eq!(r[0].value.as_deref(), Some("0.5"));
    assert_eq!(r[1].axis, Axis::Vertical);
    assert_eq!(r[1].value.as_deref(), Some("0.9"));
}

#[test]
fn long_horizontal_and_short_vertical() {
    let r = frequency_args(&args(&["p", "--horizontal-frequency", "foo", "-v"])).unwrap();
    assert_eq!(r.len(), 2);
    assert_eq!(r[0].axis, Axis::Horizontal);
    assert_eq!(r[0].value.as_deref(), Some("foo"));
    assert_eq!(r[1].axis, Axis::Vertical);
    assert_eq!(r[1].value, None);
}

#[test]
fn unknown_flag_is_an_error() {
    let err = frequency_args(&args(&["program", "--unknown"])).unwrap_err();
    assert_eq!(err, "Unknown argument: --unknown");
}

#[test]
fn value_after_flag_is_not_read_as_flag() {
    let r = frequency_args(&args(&["program", "-h", "--bogus"])).unwrap();
    assert_eq!(r.len(), 1);
    assert_eq!(r[0].value.as_deref(), Some("--bogus"));
    let err = frequency_args(&args(&["program", "-h", "1", "x"])).unwrap_err();
    assert_eq!(err, "Unknown argument: x");
}
