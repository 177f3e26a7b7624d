use pfr::money::{Money, MAX_CENTS};

#[test]
fn format_one_fifty() {
    let m = Money { cents: 150 };
    assert_eq!(m.format(), "1.50");
}

#[test]
fn format_five_cents() {
    let m = Money { cents: 5 };
    assert_eq!(m.format(), "0.05");
}

#[test]
fn format_thousand_dollars() {
    let m = Money { cents: 100000 };
    assert_eq!(m.format(), "1000.00");
}

#[test]
fn format_zero() {
    let m = Money { cents: 0 };
    assert_eq!(m.format(), "0.00");
}

#[test]
fn parse_dollars_and_cents() {
    assert_eq!(Money::parse("10.50"), Some(Money { cents: 1050 }));
}

#[test]
fn parse_whole_number_multiplies_by_hundred() {
    assert_eq!(Money::parse("7"), Some(Money { cents: 700 }));
}

#[test]
fn parse_truncates_extra_fraction_digits() {
    assert_eq!(Money::parse("1.239"), Some(Money { cents: 123 }));
    assert_eq!(Money::parse("4.289"), Some(Money { cents: 428 }));
}

#[test]
fn parse_single_fraction_digit_counts_tens_of_cents() {
    assert_eq!(Money::parse("10.5"), Some(Money { cents: 1050 }));
}

#[test]
fn parse_trailing_point() {
    assert_eq!(Money::parse("3."), Some(Money { cents: 300 }));
}

#[test]
fn parse_p5_inputs() {
    assert_eq!(Money::parse("1200.00"), Some(Money { cents: 120000 }));
    assert_eq!(Money::parse("100.00"), Some(Money { cents: 10000 }));
}

#[test]
fn parse_rejects_non_numeric() {
    assert_eq!(Money::parse("abc"), None);
    assert_eq!(Money::parse(""), None);
    assert_eq!(Money::parse("12a"), None);
    assert_eq!(Money::parse("1.2.3"), None);
}

#[test]
fn parse_rejects_signs_and_exponents() {
    assert_eq!(Money::parse("-5"), None);
    assert_eq!(Money::parse("+5"), None);
    assert_eq!(Money::parse("1e3"), None);
}

#[test]
fn parse_rejects_bare_fraction() {
    assert_eq!(Money::parse(".5"), None);
}

#[test]
fn parse_rejects_over_maximum() {
    assert_eq!(Money::parse("99999999999999999999"), None);
    let top = MAX_CENTS / 100;
    let text = format!("{}.99", top);
    assert_eq!(Money::parse(&text), Some(Money { cents: MAX_CENTS }));
}
