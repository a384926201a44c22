use menu_typeset::price::{do_format_price, format_price, format_price_or, Price};

fn price_of(value: f64) -> Price {
    Price::parse(&value.to_string()).expect("a finite number is a decimal number")
}

fn shown(text: &str) -> String {
    do_format_price(&Price::parse(text).expect("a decimal number"))
}

#[test]
fn whole_prices_are_shown_as_integers() {
    assert_eq!(do_format_price(&price_of(42.0)), "42 PLN");
    assert_eq!(do_format_price(&price_of(24.0)), "24 PLN");
    assert_eq!(do_format_price(&price_of(0.0)), "0 PLN");
    assert_eq!(do_format_price(&price_of(7.0)), "7 PLN");
}

#[test]
fn other_prices_are_shown_with_a_decimal_comma() {
    assert_eq!(do_format_price(&price_of(42.5)), "42,5 PLN");
    assert_eq!(do_format_price(&price_of(12.5)), "12,5 PLN");
    assert_eq!(do_format_price(&price_of(0.25)), "0,25 PLN");
    assert_eq!(do_format_price(&price_of(19.99)), "19,99 PLN");
    assert_eq!(do_format_price(&price_of(0.1 + 0.2)), "0,30000000000000004 PLN");
}

#[test]
fn a_price_that_is_not_listed_is_shown_as_nothing() {
    assert_eq!(format_price(None), "");
    assert_eq!(format_price(Some(&price_of(42.0))), "42 PLN");
    assert_eq!(format_price(Some(&price_of(42.5))), "42,5 PLN");
}

#[test]
fn a_placeholder_stands_for_a_price_that_is_not_listed() {
    assert_eq!(format_price_or(None, "ask the waiter"), "ask the waiter");
    assert_eq!(format_price_or(None, ""), "");
    assert_eq!(format_price_or(Some(&price_of(9.5)), "ask the waiter"), "9,5 PLN");
}

#[test]
fn negative_prices_keep_their_sign() {
    assert_eq!(do_format_price(&price_of(-3.0)), "-3 PLN");
    assert_eq!(do_format_price(&price_of(-3.25)), "-3,25 PLN");
    assert_eq!(do_format_price(&price_of(-0.5)), "-0,5 PLN");
}

#[test]
fn zero_has_no_sign() {
    assert_eq!(do_format_price(&price_of(-0.0)), "0 PLN");
    assert_eq!(shown("-0"), "0 PLN");
    assert_eq!(shown("-0.000"), "0 PLN");
    assert_eq!(Price::parse("-0.0"), Price::parse("0"));
}

#[test]
fn very_large_prices_are_shown_in_full() {
    assert_eq!(do_format_price(&price_of(1e21)), "1000000000000000000000 PLN");
    assert_eq!(
        do_format_price(&price_of(9007199254740993.0)),
        "9007199254740992 PLN"
    );
    assert_eq!(
        shown("123456789012345678901234567890.000000000000000000001"),
        "123456789012345678901234567890,000000000000000000001 PLN"
    );
}

#[test]
fn very_small_prices_are_shown_in_full() {
    assert_eq!(do_format_price(&price_of(1e-7)), "0,0000001 PLN");
}

#[test]
fn needless_zeros_are_not_shown() {
    assert_eq!(shown("42.0"), "42 PLN");
    assert_eq!(shown("42.50"), "42,5 PLN");
    assert_eq!(shown("042"), "42 PLN");
    assert_eq!(shown("000.500"), "0,5 PLN");
    assert_eq!(shown("0"), "0 PLN");
    assert_eq!(shown("00"), "0 PLN");
    assert_eq!(shown("10.01"), "10,01 PLN");
    assert_eq!(shown("100"), "100 PLN");
    assert_eq!(Price::parse("42.50"), Price::parse("42.5"));
    assert_eq!(Price::parse("042"), Price::parse("42.000"));
}

#[test]
fn text_that_writes_no_number_is_no_price() {
    for text in [
        "", "-", ".", "-.", "abc", "12a", "a12", "1e3", ".5", "5.", "1.2.3", "+5", " 5", "5 ",
        "1,5", "NaN", "inf", "--1", "1-", "١٢", "1.-5", "0x10",
    ] {
        assert_eq!(Price::parse(text), None, "{:?}", text);
    }
}

#[test]
fn whether_a_price_is_whole() {
    assert!(price_of(42.0).is_integral());
    assert!(Price::parse("42.000").unwrap().is_integral());
    assert!(!price_of(42.5).is_integral());
    assert!(!price_of(0.01).is_integral());
}

#[test]
fn the_decimal_text_reads_back_as_the_price() {
    for value in [0.0, 42.0, 42.5, -3.25, 1e21, 1e-7, 19.99, 0.1 + 0.2] {
        let price = price_of(value);
        assert_eq!(price.decimal_text(), value.to_string());
        assert_eq!(Price::parse(&price.decimal_text()), Some(price));
    }
    assert_eq!(Price::parse("-0.50").unwrap().decimal_text(), "-0.5");
    assert_eq!(Price::parse("007").unwrap().decimal_text(), "7");
    assert_eq!(price_of(-0.0).decimal_text(), "0");
}

#[test]
fn a_displayed_price_reads_back_as_the_price() {
    for text in ["0", "42", "42.5", "-3.25", "1000000000000000000000", "0.0000001", "19.99", "-7"] {
        let price = Price::parse(text).unwrap();
        let display = do_format_price(&price);
        let read = Price::parse_formatted(&display).expect("a displayed price");
        assert_eq!(read, price);
        assert_eq!(do_format_price(&read), display);
    }
}

#[test]
fn text_that_displays_no_price_reads_back_as_none() {
    assert_eq!(Price::parse_formatted("42,5 PLN"), Price::parse("42.5"));
    assert_eq!(Price::parse_formatted("42 PLN"), Price::parse("42"));
    for text in
        ["", " PLN", "42", "42,5", "42.5 PLN", "42,5 EUR", "42,5PLN", "42,5 PLN ", "PLN", "x PLN"]
    {
        assert_eq!(Price::parse_formatted(text), None, "{:?}", text);
    }
}

#[test]
fn a_copy_of_a_price_is_the_same_price() {
    let price = price_of(12.5);
    assert_eq!(price.clone(), price);
}
