use mandelbrot::parse::{join_parsed, parse_bounds, parse_dimension, parse_pair, split_pair};

#[test]
fn test_parse_pair() {
    assert_eq!(parse_pair::<i32>("", ','), None);
    assert_eq!(parse_pair::<i32>("10,", ','), None);
    assert_eq!(parse_pair::<i32>(",10", ','), None);
    assert_eq!(parse_pair::<i32>("10,20", ','), Some((10, 20)));
    assert_eq!(parse_pair::<i32>("10,20xy", ','), None);
    assert_eq!(parse_pair::<f64>("0.5x", 'x'), None);
    assert_eq!(parse_pair::<f64>("0.5x1.5", 'x'), Some((0.5, 1.5)));
}

#[test]
fn parse_pair_of_bounds_and_corners() {
    assert_eq!(parse_pair::<usize>("1000x750", 'x'), Some((1000, 750)));
    assert_eq!(parse_pair::<f64>("-1.20,0.35", ','), Some((-1.20, 0.35)));
    assert_eq!(parse_pair::<usize>("1000", 'x'), None);
}

#[test]
fn split_pair_uses_first_separator() {
    assert_eq!(split_pair("10,20,30", ','), Some(("10", "20,30")));
    assert_eq!(split_pair(",", ','), Some(("", "")));
    assert_eq!(split_pair("1020", ','), None);
    assert_eq!(split_pair("", ','), None);
}

#[test]
fn split_pair_handles_multibyte_text() {
    assert_eq!(split_pair("\u{e9}t\u{e9}x2", 'x'), Some(("\u{e9}t\u{e9}", "2")));
}

#[test]
fn join_parsed_needs_both_halves() {
    assert_eq!(join_parsed(Some(1), Some(2)), Some((1, 2)));
    assert_eq!(join_parsed(Some(1), None::<i32>), None);
    assert_eq!(join_parsed(None, Some(2)), None);
    assert_eq!(join_parsed(None::<i32>, None), None);
}

#[test]
fn parse_dimension_reads_decimals() {
    assert_eq!(parse_dimension("0"), Some(0));
    assert_eq!(parse_dimension("750"), Some(750));
    assert_eq!(parse_dimension("+42"), Some(42));
    assert_eq!(parse_dimension("007"), Some(7));
    assert_eq!(parse_dimension(""), None);
    assert_eq!(parse_dimension("+"), None);
    assert_eq!(parse_dimension("-3"), None);
    assert_eq!(parse_dimension("12a"), None);
    assert_eq!(parse_dimension(" 12"), None);
    assert_eq!(parse_dimension("++1"), None);
}

#[test]
fn parse_dimension_limits() {
    let max = usize::MAX.to_string();
    assert_eq!(parse_dimension(&max), Some(usize::MAX));
    let over = format!("{}0", max);
    assert_eq!(parse_dimension(&over), None);
    let over_then_letter = format!("{}0x", max);
    assert_eq!(parse_dimension(&over_then_letter), None);
}

#[test]
fn parse_dimension_agrees_with_std() {
    for s in ["1", "+1", "99999", "", "+", "1+", "4x", "18446744073709551616", "0000"] {
        assert_eq!(parse_dimension(s), s.parse::<usize>().ok());
    }
}

#[test]
fn parse_bounds_reads_two_dimensions() {
    assert_eq!(parse_bounds("1000x750", 'x'), Some((1000, 750)));
    assert_eq!(parse_bounds("1000x", 'x'), None);
    assert_eq!(parse_bounds("x750", 'x'), None);
    assert_eq!(parse_bounds("1000", 'x'), None);
    assert_eq!(parse_bounds("10x20x30", 'x'), None);
    assert_eq!(parse_bounds("10,20", ','), Some((10, 20)));
}
