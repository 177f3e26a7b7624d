use pfr::ledger::{Kind, Frequency, Transaction, Ledger};
use pfr::money::Money;
use pfr::report::{compute_report, monthly_amount, format_total, format_amount_cell};

fn tx(
    kind: Kind,
    freq: Frequency,
    name: &str,
    cents: u64,
    category: Option<&str>,
    account: Option<&str>,
) -> Transaction {
    Transaction {
        kind,
        freq,
        name: name.to_string(),
        amount: Money { cents },
        category: category.map(|c| c.to_string()),
        account: account.map(|a| a.to_string()),
    }
}

#[test]
fn single_income_gives_positive_total() {
    let l = Ledger {
        entries: vec![tx(Kind::Income, Frequency::Monthly, "pay", 100000, None, None)],
    };
    let r = compute_report(&l);
    assert_eq!(r.total, 100000);
    assert_eq!(r.breakdown.len(), 0);
    assert_eq!(r.coverage.len(), 0);
    assert_eq!(r.other_expenses, 0);
    assert_eq!(r.unallocated, 0);
}

#[test]
fn income_and_matching_expense_cancel() {
    let l = Ledger {
        entries: vec![
            tx(Kind::Income, Frequency::Monthly, "pay", 100000, None, None),
            tx(Kind::Expense, Frequency::Monthly, "rent", 100000, None, None),
        ],
    };
    let r = compute_report(&l);
    assert_eq!(r.total, 0);
    assert_eq!(r.breakdown.len(), 0);
    assert_eq!(r.other_expenses, 100000);
    assert_eq!(r.coverage.len(), 0);
    assert_eq!(r.unallocated, 100000);
}

#[test]
fn yearly_extrapolates_to_one_twelfth() {
    let m = monthly_amount(Frequency::Yearly, Money { cents: 120000 });
    assert_eq!(m, Money { cents: 10000 });
}

#[test]
fn weekly_extrapolates_by_four_point_two_eight() {
    let m = monthly_amount(Frequency::Weekly, Money { cents: 10000 });
    assert_eq!(m, Money { cents: 42800 });
}

#[test]
fn extrapolation_truncates_toward_zero() {
    assert_eq!(monthly_amount(Frequency::Quarterly, Money { cents: 100 }), Money { cents: 33 });
    assert_eq!(monthly_amount(Frequency::Yearly, Money { cents: 100 }), Money { cents: 8 });
    assert_eq!(monthly_amount(Frequency::Weekly, Money { cents: 1 }), Money { cents: 4 });
}

#[test]
fn every_frequency_uses_its_multiplier() {
    let a = Money { cents: 1000 };
    assert_eq!(monthly_amount(Frequency::Daily, a), Money { cents: 30000 });
    assert_eq!(monthly_amount(Frequency::Workdays, a), Money { cents: 21400 });
    assert_eq!(monthly_amount(Frequency::Weekly, a), Money { cents: 4280 });
    assert_eq!(monthly_amount(Frequency::Monthly, a), Money { cents: 1000 });
    assert_eq!(monthly_amount(Frequency::Quarterly, a), Money { cents: 333 });
    assert_eq!(monthly_amount(Frequency::Yearly, a), Money { cents: 83 });
}

#[test]
fn report_rows_carry_monthly_equivalents() {
    let l = Ledger {
        entries: vec![
            tx(Kind::Income, Frequency::Yearly, "bonus", 120000, None, None),
            tx(Kind::Expense, Frequency::Weekly, "food", 10000, Some("groceries"), None),
        ],
    };
    let r = compute_report(&l);
    assert_eq!(r.rows.len(), 2);
    assert_eq!(r.rows[0].name, "bonus");
    assert_eq!(r.rows[0].monthly, Money { cents: 10000 });
    assert_eq!(r.rows[1].monthly, Money { cents: 42800 });
    assert_eq!(r.total, 10000 - 42800);
}

#[test]
fn breakdown_groups_expenses_by_category() {
    let l = Ledger {
        entries: vec![
            tx(Kind::Expense, Frequency::Monthly, "bread", 500, Some("food"), None),
            tx(Kind::Expense, Frequency::Monthly, "milk", 300, Some("food"), None),
            tx(Kind::Expense, Frequency::Monthly, "rent", 90000, Some("housing"), None),
            tx(Kind::Expense, Frequency::Monthly, "misc", 1000, None, None),
            tx(Kind::Income, Frequency::Monthly, "pay", 100000, Some("ignored"), None),
        ],
    };
    let r = compute_report(&l);
    assert_eq!(r.breakdown.len(), 2);
    let mut food = None;
    let mut housing = None;
    for (name, value) in &r.breakdown {
        if name == "food" {
            food = Some(*value);
        }
        if name == "housing" {
            housing = Some(*value);
        }
    }
    assert_eq!(food, Some(800));
    assert_eq!(housing, Some(90000));
    assert_eq!(r.other_expenses, 1000);
}

#[test]
fn coverage_groups_expenses_by_account() {
    let l = Ledger {
        entries: vec![
            tx(Kind::Expense, Frequency::Monthly, "rent", 90000, None, Some("joint")),
            tx(Kind::Expense, Frequency::Monthly, "tea", 400, None, Some("joint")),
            tx(Kind::Expense, Frequency::Monthly, "cash misc", 700, None, None),
        ],
    };
    let r = compute_report(&l);
    assert_eq!(r.coverage.len(), 1);
    assert_eq!(r.coverage[0].0, "joint");
    assert_eq!(r.coverage[0].1, 90400);
    assert_eq!(r.unallocated, 700);
}

#[test]
fn empty_ledger_reports_all_zero() {
    let l = Ledger { entries: vec![] };
    let r = compute_report(&l);
    assert_eq!(r.total, 0);
    assert_eq!(r.rows.len(), 0);
    assert_eq!(r.breakdown.len(), 0);
    assert_eq!(r.coverage.len(), 0);
    assert_eq!(r.other_expenses, 0);
    assert_eq!(r.unallocated, 0);
}

#[test]
fn total_cell_positive_is_plain() {
    assert_eq!(format_total(100000), " 1000.00 ");
}

#[test]
fn total_cell_negative_is_parenthesized_magnitude() {
    assert_eq!(format_total(-50), "(0.50)");
}

#[test]
fn total_cell_zero_is_parenthesized() {
    assert_eq!(format_total(0), "(0.00)");
}

#[test]
fn amount_cells_show_kind_by_presentation() {
    assert_eq!(format_amount_cell(Kind::Income, Money { cents: 150 }), " 1.50 ");
    assert_eq!(format_amount_cell(Kind::Expense, Money { cents: 150 }), "(1.50)");
}
