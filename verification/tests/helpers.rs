use menu_typeset::helpers::{HelperArgument, HelperKind};
use menu_typeset::price::Price;

fn text(text: &str) -> HelperArgument {
    HelperArgument::Text(text.to_string())
}

fn number(text: &str) -> HelperArgument {
    HelperArgument::Number(Price::parse(text).unwrap())
}

#[test]
fn the_helpers_have_the_names_that_templates_call() {
    assert_eq!(HelperKind::Trim.name(), "trim");
    assert_eq!(HelperKind::Escape.name(), "escape");
    assert_eq!(HelperKind::FormatPrice.name(), "format_price");
    assert_eq!(
        HelperKind::all(),
        vec![HelperKind::Trim, HelperKind::Escape, HelperKind::FormatPrice]
    );
}

#[test]
fn the_text_helpers_take_a_text() {
    assert_eq!(HelperKind::Trim.apply(&text("  a &amp; b ")), Some("a \\& b".to_string()));
    assert_eq!(HelperKind::Escape.apply(&text("  a &amp; b ")), Some("  a \\&amp; b ".to_string()));
    assert_eq!(HelperKind::Escape.apply(&text("")), Some(String::new()));
}

#[test]
fn the_text_helpers_refuse_what_is_no_text() {
    for helper in [HelperKind::Trim, HelperKind::Escape] {
        assert_eq!(helper.apply(&HelperArgument::Absent), None);
        assert_eq!(helper.apply(&number("42")), None);
        assert_eq!(helper.apply(&HelperArgument::Other), None);
    }
}

#[test]
fn the_price_helper_takes_a_number_or_nothing() {
    assert_eq!(HelperKind::FormatPrice.apply(&number("42")), Some("42 PLN".to_string()));
    assert_eq!(HelperKind::FormatPrice.apply(&number("42.5")), Some("42,5 PLN".to_string()));
    assert_eq!(HelperKind::FormatPrice.apply(&HelperArgument::Absent), Some(String::new()));
}

#[test]
fn the_price_helper_refuses_what_is_no_number() {
    assert_eq!(HelperKind::FormatPrice.apply(&text("42")), None);
    assert_eq!(HelperKind::FormatPrice.apply(&text("cheap")), None);
    assert_eq!(HelperKind::FormatPrice.apply(&HelperArgument::Other), None);
}
