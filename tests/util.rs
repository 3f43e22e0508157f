use nlwkn::numbers::{parse_decimal, parse_u64, Decimal};
use nlwkn::util::{sanitize, trim, update_if_none, zero_is_none, OptionUpdate, StringOption};

fn chars(s: &str) -> Vec<char> {
    s.chars().collect()
}

#[test]
fn sanitize_trims_and_drops_placeholders() {
    assert_eq!(sanitize(None), None);
    assert_eq!(sanitize(Some("  x y \n".to_string())), Some("x y".to_string()));
    assert_eq!(sanitize(Some(" - ".to_string())), None);
    assert_eq!(sanitize(Some("\u{a0}".to_string())), None);
    assert_eq!(trim("\t a \u{3000}"), "a");
}

#[test]
fn update_only_where_unset() {
    let mut a = Some(1);
    update_if_none(&mut a, Some(2));
    assert_eq!(a, Some(1));
    let mut b = None;
    update_if_none(&mut b, Some(2));
    assert_eq!(b, Some(2));
}

#[test]
fn zero_coordinates_are_absent() {
    assert_eq!(zero_is_none(0), None);
    assert_eq!(zero_is_none(5852015), Some(5852015));
}

#[test]
fn integers_follow_the_std_grammar() {
    assert_eq!(parse_u64(&chars("+42")), Some(42));
    assert_eq!(parse_u64(&chars("18446744073709551615")), Some(u64::MAX));
    assert_eq!(parse_u64(&chars("18446744073709551616")), None);
    assert_eq!(parse_u64(&chars("")), None);
    assert_eq!(parse_u64(&chars("+")), None);
    assert_eq!(parse_u64(&chars("1 2")), None);
}

#[test]
fn decimals() {
    assert_eq!(parse_decimal(&chars("-1.25")), Some(Decimal { negative: true, digits: 125, scale: 2 }));
    assert_eq!(parse_decimal(&chars(".5")), Some(Decimal { negative: false, digits: 5, scale: 1 }));
    assert_eq!(parse_decimal(&chars("3.")), Some(Decimal { negative: false, digits: 3, scale: 0 }));
    assert_eq!(parse_decimal(&chars(".")), None);
    assert_eq!(parse_decimal(&chars("1,5")), None);
    assert_eq!(parse_decimal(&chars("0.0000000001")), None);
}

#[test]
fn option_traits() {
    assert_eq!(Some(" a ".to_string()).sanitize(), Some("a".to_string()));
    let mut o: Option<u8> = None;
    o.update_if_none(Some(3));
    o.update_if_none(Some(4));
    assert_eq!(o, Some(3));
}
