use scarlet::vm::float::text;

#[test]
fn a_float_always_shows_a_point() {
    assert_eq!(text((1.0f64).to_string()), "1.0");
    assert_eq!(text((-0.0f64).to_string()), "-0.0");
    assert_eq!(text((1.5f64).to_string()), "1.5");
    assert_eq!(text((0.1f64 + 0.2).to_string()), "0.30000000000000004");
    assert_eq!(text((1e21f64).to_string()), "1000000000000000000000.0");
}

#[test]
fn an_exponent_needs_no_point() {
    assert_eq!(text("1e300".to_string()), "1e300");
    assert_eq!(text("1E300".to_string()), "1E300");
    assert_eq!(text("12".to_string()), "12.0");
}
