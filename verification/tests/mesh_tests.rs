use duck::mesh::{parse_triangle, parse_u32, Triangle};

#[test]
fn parse_u32_plain() {
    assert_eq!(parse_u32("0"), Ok(0));
    assert_eq!(parse_u32("123"), Ok(123));
    assert_eq!(parse_u32("007"), Ok(7));
}

#[test]
fn parse_u32_plus_sign() {
    assert_eq!(parse_u32("+42"), Ok(42));
    assert!(parse_u32("+").is_err());
}

#[test]
fn parse_u32_rejects_garbage() {
    assert!(parse_u32("").is_err());
    assert!(parse_u32("abc").is_err());
    assert!(parse_u32("12x").is_err());
    assert!(parse_u32(" 1").is_err());
    assert!(parse_u32("1 ").is_err());
    assert!(parse_u32("-1").is_err());
}

#[test]
fn parse_u32_bounds() {
    assert_eq!(parse_u32("4294967295"), Ok(u32::MAX));
    assert!(parse_u32("4294967296").is_err());
    assert!(parse_u32("99999999999999999999").is_err());
}

#[test]
fn parse_triangle_plain() {
    assert_eq!(parse_triangle("1 2 3"), Ok(Triangle([1, 2, 3])));
    assert_eq!(parse_triangle("10 0 7"), Ok(Triangle([10, 0, 7])));
}

#[test]
fn parse_triangle_drops_bad_fields() {
    // Fields that do not parse are dropped, exactly as the original loader's
    // split-then-keep-parsable behavior: four fields with one bad one still
    // leave three numbers.
    assert_eq!(parse_triangle("1 x 3 4"), Ok(Triangle([1, 3, 4])));
    assert_eq!(parse_triangle(" 5 6 7"), Ok(Triangle([5, 6, 7])));
}

#[test]
fn parse_triangle_wrong_count() {
    assert!(parse_triangle("").is_err());
    assert!(parse_triangle("1 2").is_err());
    assert!(parse_triangle("1 2 3 4").is_err());
    assert!(parse_triangle("a b c").is_err());
}
