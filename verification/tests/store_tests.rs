use pfr::errors::Error;
use pfr::ledger::{Kind, Frequency, Transaction};
use pfr::money::Money;
use pfr::store;
use pfr::store::Store;

fn tx(kind: Kind, freq: Frequency, name: &str, cents: u64) -> Transaction {
    Transaction {
        kind,
        freq,
        name: name.to_string(),
        amount: Money { cents },
        category: None,
        account: None,
    }
}

fn current_text(s: &Store) -> String {
    s.get(&"current".to_string()).expect("current is stored").clone()
}

#[test]
fn init_resets_current_to_empty() {
    let mut s = Store::new();
    store::init(&mut s);
    store::add(&mut s, tx(Kind::Income, Frequency::Monthly, "pay", 1000)).unwrap();
    store::init(&mut s);
    let l = store::load_current_ledger(&s).unwrap();
    assert_eq!(l.len(), 0);
}

#[test]
fn add_then_load_round_trips() {
    let mut s = Store::new();
    store::init(&mut s);
    store::add(&mut s, tx(Kind::Income, Frequency::Monthly, "pay", 1000)).unwrap();
    store::add(&mut s, tx(Kind::Expense, Frequency::Weekly, "food", 2500)).unwrap();
    let l = store::load_current_ledger(&s).unwrap();
    assert_eq!(l.entries.len(), 2);
    assert_eq!(l.entries[0].name, "pay");
    assert_eq!(l.entries[1].name, "food");
    assert_eq!(l.entries[1].amount, Money { cents: 2500 });
}

#[test]
fn add_duplicate_name_fails_and_changes_nothing() {
    let mut s = Store::new();
    store::init(&mut s);
    store::add(&mut s, tx(Kind::Income, Frequency::Monthly, "pay", 1000)).unwrap();
    let before = current_text(&s);
    let r = store::add(&mut s, tx(Kind::Expense, Frequency::Daily, "pay", 5));
    match r {
        Err(Error::DuplicateName(n)) => assert_eq!(n, "pay"),
        _ => panic!("a taken name must fail with DuplicateName"),
    }
    assert_eq!(current_text(&s), before);
}

#[test]
fn rm_removes_the_entry() {
    let mut s = Store::new();
    store::init(&mut s);
    store::add(&mut s, tx(Kind::Income, Frequency::Monthly, "pay", 1000)).unwrap();
    store::add(&mut s, tx(Kind::Expense, Frequency::Weekly, "food", 2500)).unwrap();
    store::rm(&mut s, &"pay".to_string()).unwrap();
    let l = store::load_current_ledger(&s).unwrap();
    assert_eq!(l.entries.len(), 1);
    assert_eq!(l.entries[0].name, "food");
}

#[test]
fn rm_of_absent_name_succeeds_and_changes_nothing() {
    let mut s = Store::new();
    store::init(&mut s);
    store::add(&mut s, tx(Kind::Income, Frequency::Monthly, "pay", 1000)).unwrap();
    let before = current_text(&s);
    store::rm(&mut s, &"no such entry".to_string()).unwrap();
    assert_eq!(current_text(&s), before);
}

#[test]
fn save_and_load_named_snapshots() {
    let mut s = Store::new();
    store::init(&mut s);
    store::add(&mut s, tx(Kind::Income, Frequency::Monthly, "pay", 1000)).unwrap();
    let saved = current_text(&s);
    store::save(&mut s, &"vacation".to_string()).unwrap();
    store::add(&mut s, tx(Kind::Expense, Frequency::Daily, "gelato", 400)).unwrap();
    assert_ne!(current_text(&s), saved);
    store::load(&mut s, &"vacation".to_string()).unwrap();
    assert_eq!(current_text(&s), saved);
}

#[test]
fn backup_then_mutate_then_restore_recovers_current() {
    let mut s = Store::new();
    store::init(&mut s);
    store::add(&mut s, tx(Kind::Income, Frequency::Monthly, "pay", 1000)).unwrap();
    let before = current_text(&s);
    store::backup(&mut s).unwrap();
    store::add(&mut s, tx(Kind::Expense, Frequency::Daily, "noise", 100)).unwrap();
    store::rm(&mut s, &"pay".to_string()).unwrap();
    assert_ne!(current_text(&s), before);
    store::restore(&mut s).unwrap();
    assert_eq!(current_text(&s), before);
}

#[test]
fn load_of_missing_snapshot_is_not_found() {
    let mut s = Store::new();
    store::init(&mut s);
    let r = store::load(&mut s, &"nothing here".to_string());
    match r {
        Err(Error::NotFound(n)) => assert_eq!(n, "nothing here"),
        _ => panic!("a missing snapshot must fail with NotFound"),
    }
}

#[test]
fn load_current_without_init_is_not_found() {
    let s = Store::new();
    let r = store::load_current_ledger(&s);
    assert!(matches!(r, Err(Error::NotFound(_))));
}

#[test]
fn corrupt_current_fails_with_decode_error() {
    let mut s = Store::new();
    s.put("current".to_string(), "not a ledger".to_string());
    let r = store::load_current_ledger(&s);
    assert!(matches!(r, Err(Error::DecodeError)));
}

#[test]
fn list_shows_frequency_kind_name_amount() {
    let mut s = Store::new();
    store::init(&mut s);
    store::add(&mut s, tx(Kind::Income, Frequency::Yearly, "bonus", 120000)).unwrap();
    let rows = store::list(&s).unwrap();
    assert_eq!(rows.len(), 1);
    assert_eq!(rows[0].0, Frequency::Yearly);
    assert_eq!(rows[0].1, Kind::Income);
    assert_eq!(rows[0].2, "bonus");
    assert_eq!(rows[0].3, Money { cents: 120000 });
}

#[test]
fn names_and_get_expose_the_snapshots() {
    let mut s = Store::new();
    assert_eq!(s.names().len(), 0);
    assert!(s.get(&"current".to_string()).is_none());
    store::init(&mut s);
    store::save(&mut s, &"trip".to_string()).unwrap();
    let names = s.names();
    assert_eq!(names.len(), 2);
    assert!(names.contains(&"current".to_string()));
    assert!(names.contains(&"trip".to_string()));
    assert_eq!(s.get(&"trip".to_string()).unwrap(), "{}");
}

#[test]
fn save_overwrites_unconditionally() {
    let mut s = Store::new();
    store::init(&mut s);
    store::add(&mut s, tx(Kind::Income, Frequency::Monthly, "pay", 1000)).unwrap();
    store::save(&mut s, &"snap".to_string()).unwrap();
    store::add(&mut s, tx(Kind::Expense, Frequency::Daily, "tea", 150)).unwrap();
    store::save(&mut s, &"snap".to_string()).unwrap();
    let cur = current_text(&s);
    assert_eq!(s.get(&"snap".to_string()).unwrap(), &cur);
}
