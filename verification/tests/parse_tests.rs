use mandelbrot::parse::parse_pair;

/// Pair parsing for floating-point components, as the unverified glue
/// layer does it: split at the first separator, parse each side.
fn parse_pair_f64(s: &str, separator: char) -> Option<(f64, f64)> {
    match s.find(separator) {
        None => None,
        Some(index) => match (s[..index].parse::<f64>(), s[index + 1..].parse::<f64>()) {
            (Ok(l), Ok(r)) => Some((l, r)),
            _ => None,
        },
    }
}

#[test]
fn test_parse_pair() {
    assert_eq!(parse_pair("", ','), None);
    assert_eq!(parse_pair("10,", ','), None);
    assert_eq!(parse_pair(",10", ','), None);
    assert_eq!(parse_pair("10,20", ','), Some((10, 20)));
    assert_eq!(parse_pair("10,20xy", ','), None);
    assert_eq!(parse_pair_f64("0.5x", 'x'), None);
    assert_eq!(parse_pair_f64("0.5x1.5", 'x'), Some((0.5, 1.5)));
}

#[test]
fn parse_pair_negative_components() {
    assert_eq!(parse_pair("-3,4", ','), Some((-3, 4)));
    assert_eq!(parse_pair("-3,-4", ','), Some((-3, -4)));
    assert_eq!(parse_pair("+3,+4", ','), Some((3, 4)));
}

#[test]
fn parse_pair_splits_at_first_separator() {
    assert_eq!(parse_pair("1,2,3", ','), None);
    assert_eq!(parse_pair("400x300", 'x'), Some((400, 300)));
}

#[test]
fn parse_pair_sign_alone_is_malformed() {
    assert_eq!(parse_pair("-,5", ','), None);
    assert_eq!(parse_pair("5,+", ','), None);
}

#[test]
fn parse_pair_extreme_values() {
    assert_eq!(parse_pair("2147483647,-2147483648", ','), Some((i32::MAX, i32::MIN)));
    assert_eq!(parse_pair("2147483648,0", ','), None);
    assert_eq!(parse_pair("0,-2147483649", ','), None);
    assert_eq!(parse_pair("0,99999999999999999999", ','), None);
}

#[test]
fn parse_pair_leading_zeros() {
    assert_eq!(parse_pair("007,010", ','), Some((7, 10)));
}
