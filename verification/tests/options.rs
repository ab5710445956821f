use trim_dead_area::options::{parse_analysis_fps, parse_count, split_method, MethodText};
use trim_dead_area::single::Single;

fn parse_fps(s: &str) -> Result<f32, String> {
    let parsed: Option<f32> = s.parse().ok();
    let shown = match parsed {
        Some(n) => format!("{n}"),
        None => String::new(),
    };
    let checked = parsed.map(|n| Single::from_bits(n.to_bits()));
    match parse_analysis_fps(s, checked, &shown) {
        Ok(n) => Ok(f32::from_bits(n.to_bits())),
        Err(e) => Err(e),
    }
}

#[test]
fn test_parse_fps_valid() {
    assert_eq!(parse_fps("6"), Ok(6.0));
}

#[test]
fn test_parse_fps_boundary_low() {
    assert_eq!(parse_fps("1"), Ok(1.0));
}

#[test]
fn test_parse_fps_boundary_high() {
    assert_eq!(parse_fps("30"), Ok(30.0));
}

#[test]
fn test_parse_fps_below_range() {
    assert!(parse_fps("0").is_err());
}

#[test]
fn test_parse_fps_above_range() {
    assert!(parse_fps("31").is_err());
}

#[test]
fn test_parse_fps_not_a_number() {
    assert!(parse_fps("abc").is_err());
}

#[test]
fn fps_errors_say_what_is_wrong() {
    assert_eq!(
        parse_fps("abc"),
        Err("'abc' is not a valid number".to_string())
    );
    assert_eq!(
        parse_fps("31"),
        Err("31 is out of range (1\u{2013}30)".to_string())
    );
    assert_eq!(
        parse_fps("0.5"),
        Err("0.5 is out of range (1\u{2013}30)".to_string())
    );
    assert_eq!(
        parse_fps("NaN"),
        Err("NaN is out of range (1\u{2013}30)".to_string())
    );
    assert_eq!(
        parse_fps("-6"),
        Err("-6 is out of range (1\u{2013}30)".to_string())
    );
}

#[test]
fn fps_may_have_a_fraction() {
    assert_eq!(parse_fps("29.97"), Ok(29.97));
    assert!(parse_fps("30.000002").is_err());
}

#[test]
fn methods_are_taken_apart() {
    assert!(matches!(split_method("union"), Some(MethodText::Union)));
    assert!(matches!(
        split_method("percentile:5"),
        Some(MethodText::Percentile("5"))
    ));
    assert!(matches!(
        split_method("density-filter:2"),
        Some(MethodText::DensityFilter("2"))
    ));
    assert!(matches!(
        split_method("erosion:1"),
        Some(MethodText::Erosion("1"))
    ));
    assert!(matches!(
        split_method("erosion:"),
        Some(MethodText::Erosion(""))
    ));
}

#[test]
fn unknown_methods_are_refused() {
    assert!(split_method("").is_none());
    assert!(split_method("unions").is_none());
    assert!(split_method("Union").is_none());
    assert!(split_method("percentile").is_none());
    assert!(split_method("erosion-1").is_none());
}

#[test]
fn counts_are_read_as_the_standard_library_does() {
    for text in [
        "0", "1", "42", "+7", "007", "18446744073709551615", "18446744073709551616", "", "+", "-1",
        "+-1", "++1", " 1", "1 ", "1.0", "1_000", "x", "\u{661}", "99999999999999999999999", "1a",
        "9223372036854775808", "+18446744073709551615", "18446744073709551619",
    ] {
        assert_eq!(parse_count(text), text.parse::<usize>().ok());
    }
}
