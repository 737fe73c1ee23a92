use hynodes::color::ColorValue;
use hynodes::color::NamedColor;
use hynodes::common::NodeId;
use hynodes::value_edit::NodeNumericEditing;
use hynodes::value_edit::ValueFilterAction;
use hynodes::value_edit::i64_to_string;
use hynodes::value_edit::parse_i64;

#[test]
fn decimal_rendering_exact() {
    assert_eq!(i64_to_string(0), "0");
    assert_eq!(i64_to_string(7), "7");
    assert_eq!(i64_to_string(42), "42");
    assert_eq!(i64_to_string(-1), "-1");
    assert_eq!(i64_to_string(-305), "-305");
    assert_eq!(i64_to_string(i64::MAX), "9223372036854775807");
    assert_eq!(i64_to_string(i64::MIN), "-9223372036854775808");
}

#[test]
fn decimal_parsing_exact() {
    assert_eq!(parse_i64("0"), Some(0));
    assert_eq!(parse_i64("42"), Some(42));
    assert_eq!(parse_i64("+42"), Some(42));
    assert_eq!(parse_i64("-42"), Some(-42));
    assert_eq!(parse_i64("007"), Some(7));
    assert_eq!(parse_i64("9223372036854775807"), Some(i64::MAX));
    assert_eq!(parse_i64("-9223372036854775808"), Some(i64::MIN));
}

#[test]
fn decimal_parsing_rejects() {
    assert_eq!(parse_i64(""), None);
    assert_eq!(parse_i64("-"), None);
    assert_eq!(parse_i64("+"), None);
    assert_eq!(parse_i64("12a"), None);
    assert_eq!(parse_i64("a12"), None);
    assert_eq!(parse_i64("1 2"), None);
    assert_eq!(parse_i64("9223372036854775808"), None);
    assert_eq!(parse_i64("-9223372036854775809"), None);
    assert_eq!(parse_i64("99999999999999999999999999"), None);
}

#[test]
fn numeric_editing_new_and_validity() {
    let e = NodeNumericEditing::new(5, Some(0), Some(10));
    assert!(e.is_matching());
    assert!(e.is_valid());
    let low = NodeNumericEditing::new(-1, Some(0), Some(10));
    assert!(!low.is_valid());
    let high = NodeNumericEditing::new(11, Some(0), Some(10));
    assert!(!high.is_valid());
    let free = NodeNumericEditing::new(123456, None, None);
    assert!(free.is_valid());
}

#[test]
fn numeric_editing_set_value() {
    let mut e = NodeNumericEditing::new(5, Some(0), Some(10));
    assert!(e.set_value(9));
    assert!(e.is_valid());
    assert!(!e.set_value(11));
    assert!(e.is_valid());
}

#[test]
fn numeric_editing_set_value_force() {
    let mut e = NodeNumericEditing::new(5, Some(0), Some(10));
    assert!(!e.set_value_force(11));
    assert!(!e.is_valid());
    assert!(e.set_value_force(3));
    assert!(e.is_valid());
}

#[test]
fn numeric_editing_set_range() {
    let mut e = NodeNumericEditing::new(5, Some(0), Some(10));
    e.set_range(Some(6), None);
    assert!(!e.is_valid());
    e.set_range(None, None);
    assert!(e.is_valid());
}

#[test]
fn numeric_editing_commit_through_filter() {
    let mut e = NodeNumericEditing::new(5, Some(0), Some(10));
    let r = e.with_content_mut(
        |_old: String| ("8".to_string(), 17u32),
        |_prev: String, cur: String, parsed: Option<i64>| {
            assert_eq!(parsed, Some(8));
            (cur, ValueFilterAction::Valid)
        },
    );
    assert_eq!(r, 17);
    assert!(e.is_matching());
    assert!(e.set_value(8));
}

#[test]
fn numeric_editing_unparsable_clears_matching() {
    let mut e = NodeNumericEditing::new(5, Some(0), Some(10));
    e.with_content_mut(
        |_old: String| ("oops".to_string(), ()),
        |_prev: String, cur: String, parsed: Option<i64>| {
            assert_eq!(parsed, None);
            (cur, ValueFilterAction::Valid)
        },
    );
    assert!(!e.is_matching());
}

#[test]
fn numeric_editing_reset_restores_text() {
    let mut e = NodeNumericEditing::new(5, Some(0), Some(10));
    e.with_content_mut(
        |_old: String| ("nonsense".to_string(), ()),
        |_prev: String, cur: String, _parsed: Option<i64>| (cur, ValueFilterAction::InvalidReset),
    );
    // The text went back to the previous rendering, so matching still holds
    // and the committed value is untouched.
    assert!(e.is_matching());
    assert!(e.set_value(5));
}

#[test]
fn named_color_hex_values() {
    assert_eq!(NamedColor::Red.hex_argb(), 0xFF0000);
    assert_eq!(NamedColor::Green.hex_argb(), 0x008000);
    assert_eq!(NamedColor::Blue.hex_argb(), 0x0000FF);
    assert_eq!(NamedColor::DarkPink.hex_argb(), 0x916D74);
}

#[test]
fn color_to_rgb() {
    assert_eq!(ColorValue::Named(NamedColor::Orange).to_rgb(), (0xFF, 0xA5, 0x00));
    assert_eq!(ColorValue::Raw(1, 2, 3).to_rgb(), (1, 2, 3));
    assert_eq!(ColorValue::default(), ColorValue::Named(NamedColor::Grey));
}

#[test]
fn node_id_from_parts_shape() {
    let u = uuid::Uuid::new_v4();
    let id = NodeId::from_parts("brush", &u);
    assert_eq!(id.0.len(), "brush".len() + 37);
    assert!(id.0.starts_with("brush-"));
    // The tail after the joining dash is the hyphenated uuid.
    assert_eq!(&id.0["brush-".len()..], u.as_hyphenated().to_string());
}

#[test]
fn node_id_new_rand_shape() {
    let id = NodeId::new_rand("sheet");
    assert_eq!(id.0.len(), "sheet".len() + 37);
    assert!(id.0.starts_with("sheet-"));
}

#[test]
fn node_id_try_parse_splits_at_first_dash() {
    // The remainder handed to the uuid parser keeps the leading dash, which
    // no textual uuid form starts with, so such an identity never parses.
    let u = uuid::Uuid::new_v4();
    let id = NodeId::from_parts("brush", &u);
    assert!(id.try_parse().is_none());
    // Without any dash there is nothing to split either.
    assert!(NodeId("plainname".to_string()).try_parse().is_none());
}

#[test]
fn decimal_round_trip() {
    for v in [0i64, 1, -1, 42, -305, 1000000007, i64::MAX, i64::MIN] {
        assert_eq!(parse_i64(&i64_to_string(v)), Some(v));
    }
}
