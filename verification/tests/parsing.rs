use dot_art::parse_grid_resolution;

#[test]
fn plain_numbers_parse() {
    assert_eq!(parse_grid_resolution("8"), 8);
    assert_eq!(parse_grid_resolution("1"), 1);
    assert_eq!(parse_grid_resolution("512"), 512);
    assert_eq!(parse_grid_resolution("007"), 7);
}

#[test]
fn a_leading_plus_sign_is_accepted() {
    assert_eq!(parse_grid_resolution("+12"), 12);
    assert_eq!(parse_grid_resolution("+0"), 0);
}

#[test]
fn unparsable_text_falls_back_to_the_default() {
    assert_eq!(parse_grid_resolution(""), 8);
    assert_eq!(parse_grid_resolution("abc"), 8);
    assert_eq!(parse_grid_resolution("12x"), 8);
    assert_eq!(parse_grid_resolution("-4"), 8);
    assert_eq!(parse_grid_resolution("+"), 8);
    assert_eq!(parse_grid_resolution(" 8"), 8);
    assert_eq!(parse_grid_resolution("8 "), 8);
    assert_eq!(parse_grid_resolution("++3"), 8);
}

#[test]
fn values_at_the_unsigned_boundary() {
    assert_eq!(parse_grid_resolution("4294967295"), 4294967295);
    assert_eq!(parse_grid_resolution("4294967296"), 8);
    assert_eq!(parse_grid_resolution("99999999999999999999"), 8);
}

#[test]
fn zero_parses_as_zero_not_as_the_default() {
    assert_eq!(parse_grid_resolution("0"), 0);
}
