use pfr::codec::{encode, decode};
use pfr::ledger::{Kind, Frequency, Transaction, Ledger};
use pfr::money::Money;

fn tx(
    kind: Kind,
    freq: Frequency,
    name: &str,
    cents: u64,
    category: Option<&str>,
    account: Option<&str>,
) -> Transaction {
    Transaction {
        kind,
        freq,
        name: name.to_string(),
        amount: Money { cents },
        category: category.map(|c| c.to_string()),
        account: account.map(|a| a.to_string()),
    }
}

fn same_entries(a: &Ledger, b: &Ledger) {
    assert_eq!(a.entries.len(), b.entries.len());
    for (x, y) in a.entries.iter().zip(b.entries.iter()) {
        assert_eq!(x.kind, y.kind);
        assert_eq!(x.freq, y.freq);
        assert_eq!(x.name, y.name);
        assert_eq!(x.amount, y.amount);
        assert_eq!(x.category, y.category);
        assert_eq!(x.account, y.account);
    }
}

#[test]
fn encode_one_entry_exact_text() {
    let l = Ledger {
        entries: vec![tx(Kind::Income, Frequency::Monthly, "salary", 123456, None, None)],
    };
    assert_eq!(
        encode(&l),
        "{\"salary\":{\"kind\":\"income\",\"frequency\":\"monthly\",\"name\":\"salary\",\"amount\":123456,\"category\":null,\"account\":null}}"
    );
}

#[test]
fn encode_expense_with_tags_exact_text() {
    let l = Ledger {
        entries: vec![tx(
            Kind::Expense,
            Frequency::Weekly,
            "food",
            2500,
            Some("groceries"),
            Some("joint"),
        )],
    };
    assert_eq!(
        encode(&l),
        "{\"food\":{\"kind\":\"expense\",\"frequency\":\"weekly\",\"name\":\"food\",\"amount\":2500,\"category\":\"groceries\",\"account\":\"joint\"}}"
    );
}

#[test]
fn encode_empty_ledger() {
    let l = Ledger { entries: vec![] };
    assert_eq!(encode(&l), "{}");
}

#[test]
fn decode_empty_object() {
    let l = decode("{}").expect("empty object is the empty ledger");
    assert_eq!(l.entries.len(), 0);
}

#[test]
fn round_trip_plain() {
    let l = Ledger {
        entries: vec![
            tx(Kind::Income, Frequency::Monthly, "salary", 500000, None, None),
            tx(Kind::Expense, Frequency::Yearly, "insurance", 120000, Some("fixed"), Some("main")),
            tx(Kind::Expense, Frequency::Daily, "coffee", 350, None, Some("cash")),
        ],
    };
    let back = decode(&encode(&l)).expect("an encoded ledger decodes");
    same_entries(&l, &back);
}

#[test]
fn round_trip_escaped_characters() {
    let l = Ledger {
        entries: vec![
            tx(Kind::Expense, Frequency::Weekly, "say \"hi\"", 100, Some("a\\b"), None),
            tx(Kind::Income, Frequency::Quarterly, "back\\slash", 42, None, Some("\"q\"")),
        ],
    };
    let back = decode(&encode(&l)).expect("escapes survive the round trip");
    same_entries(&l, &back);
}

#[test]
fn round_trip_unicode_names() {
    let l = Ledger {
        entries: vec![tx(Kind::Expense, Frequency::Monthly, "caf\u{e9} \u{1F4B0}", 900, None, None)],
    };
    let back = decode(&encode(&l)).expect("unicode survives the round trip");
    same_entries(&l, &back);
}

#[test]
fn round_trip_empty_name_and_all_frequencies() {
    let l = Ledger {
        entries: vec![
            tx(Kind::Expense, Frequency::Daily, "", 1, None, None),
            tx(Kind::Expense, Frequency::Workdays, "w", 2, None, None),
            tx(Kind::Expense, Frequency::Weekly, "x", 3, None, None),
            tx(Kind::Income, Frequency::Monthly, "y", 4, None, None),
            tx(Kind::Income, Frequency::Quarterly, "z", 5, None, None),
            tx(Kind::Income, Frequency::Yearly, "v", 6, None, None),
        ],
    };
    let back = decode(&encode(&l)).expect("all frequencies survive the round trip");
    same_entries(&l, &back);
}

#[test]
fn decode_rejects_malformed_text() {
    assert!(decode("").is_none());
    assert!(decode("{").is_none());
    assert!(decode("[]").is_none());
    assert!(decode("{} ").is_none());
    assert!(decode("{\"a\":1}").is_none());
    assert!(decode("not json at all").is_none());
}

#[test]
fn decode_rejects_bad_escape() {
    let text = "{\"a\\nb\":{\"kind\":\"income\",\"frequency\":\"monthly\",\"name\":\"a\\nb\",\"amount\":1,\"category\":null,\"account\":null}}";
    assert!(decode(text).is_none());
}

#[test]
fn decode_rejects_unknown_kind_or_frequency() {
    let bad_kind = "{\"a\":{\"kind\":\"transfer\",\"frequency\":\"monthly\",\"name\":\"a\",\"amount\":1,\"category\":null,\"account\":null}}";
    assert!(decode(bad_kind).is_none());
    let bad_freq = "{\"a\":{\"kind\":\"income\",\"frequency\":\"hourly\",\"name\":\"a\",\"amount\":1,\"category\":null,\"account\":null}}";
    assert!(decode(bad_freq).is_none());
}

#[test]
fn decode_rejects_key_that_differs_from_name() {
    let text = "{\"a\":{\"kind\":\"income\",\"frequency\":\"monthly\",\"name\":\"b\",\"amount\":1,\"category\":null,\"account\":null}}";
    assert!(decode(text).is_none());
}

#[test]
fn decode_rejects_duplicate_names() {
    let one = "\"a\":{\"kind\":\"income\",\"frequency\":\"monthly\",\"name\":\"a\",\"amount\":1,\"category\":null,\"account\":null}";
    let text = format!("{{{},{}}}", one, one);
    assert!(decode(&text).is_none());
}

#[test]
fn decode_rejects_amount_above_maximum() {
    let text = "{\"a\":{\"kind\":\"income\",\"frequency\":\"monthly\",\"name\":\"a\",\"amount\":100000000000000,\"category\":null,\"account\":null}}";
    assert!(decode(text).is_none());
    let ok = "{\"a\":{\"kind\":\"income\",\"frequency\":\"monthly\",\"name\":\"a\",\"amount\":99999999999999,\"category\":null,\"account\":null}}";
    assert!(decode(ok).is_some());
}

#[test]
fn decode_rejects_trailing_text() {
    let text = "{\"a\":{\"kind\":\"income\",\"frequency\":\"monthly\",\"name\":\"a\",\"amount\":1,\"category\":null,\"account\":null}}x";
    assert!(decode(text).is_none());
}
