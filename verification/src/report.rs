//! The monthly report: every entry extrapolated to a 30-day month, a
//! signed running total, expenses grouped by category (the breakdown)
//! and by account (the coverage), with scalar buckets for expenses that
//! carry no category or no account.

use vstd::prelude::*;
use vstd::arithmetic::div_mod::{lemma_div_nonincreasing, lemma_div_pos_is_pos};
use crate::errors::Error;
use crate::ledger::{Kind, Frequency, TransactionV, Ledger};
use crate::money::{Money, MAX_CENTS, money_text, format_cents};
use crate::store::{Store, stored_ledger, current_name};

verus! {

/// No monthly equivalent exceeds this: the largest multiplier numerator,
/// 428, applied to the largest amount, `MAX_CENTS`.
pub const MONTHLY_MAX: u64 = 42_799_999_999_999_572;

/// The numerator of a frequency's fixed monthly multiplier.
pub open spec fn mult_num(f: Frequency) -> int {
    match f {
        Frequency::Daily => 30,
        Frequency::Workdays => 214,
        Frequency::Weekly => 428,
        Frequency::Monthly => 1,
        Frequency::Quarterly => 1,
        Frequency::Yearly => 1,
    }
}

/// The denominator of a frequency's fixed monthly multiplier: daily 30,
/// workdays 21.4, weekly 4.28, monthly 1, quarterly 1/3, yearly 1/12.
pub open spec fn mult_den(f: Frequency) -> int {
    match f {
        Frequency::Daily => 1,
        Frequency::Workdays => 10,
        Frequency::Weekly => 100,
        Frequency::Monthly => 1,
        Frequency::Quarterly => 3,
        Frequency::Yearly => 12,
    }
}

/// An amount extrapolated to one month: multiplied by the frequency's
/// multiplier, truncated toward zero.
pub open spec fn monthly_cents(f: Frequency, amount: int) -> int {
    amount * mult_num(f) / mult_den(f)
}

/// A monthly equivalent of an amount in range is itself in range.
pub proof fn lemma_monthly_cents_bound(f: Frequency, a: int)
    requires
        0 <= a <= MAX_CENTS,
    ensures
        0 <= monthly_cents(f, a) <= MONTHLY_MAX,
{
    match f {
        Frequency::Daily => {},
        Frequency::Workdays => {
            lemma_div_pos_is_pos(a * 214, 10);
            lemma_div_nonincreasing(a * 214, 10);
        },
        Frequency::Weekly => {
            lemma_div_pos_is_pos(a * 428, 100);
            lemma_div_nonincreasing(a * 428, 100);
        },
        Frequency::Monthly => {},
        Frequency::Quarterly => {
            lemma_div_pos_is_pos(a, 3);
            lemma_div_nonincreasing(a, 3);
        },
        Frequency::Yearly => {
            lemma_div_pos_is_pos(a, 12);
            lemma_div_nonincreasing(a, 12);
        },
    }
}

/// The monthly equivalent of an amount, computed exactly as the
/// multiplier table states and truncating toward zero.
pub fn monthly_amount(f: Frequency, m: Money) -> (r: Money)
    requires
        m.wf(),
    ensures
        r.cents == monthly_cents(f, m.cents as int),
        r.cents <= MONTHLY_MAX,
{
    proof {
        lemma_monthly_cents_bound(f, m.cents as int);
    }
    match f {
        Frequency::Daily => Money { cents: m.cents * 30 },
        Frequency::Workdays => Money { cents: m.cents * 214 / 10 },
        Frequency::Weekly => Money { cents: m.cents * 428 / 100 },
        Frequency::Monthly => Money { cents: m.cents },
        Frequency::Quarterly => Money { cents: m.cents / 3 },
        Frequency::Yearly => Money { cents: m.cents / 12 },
    }
}

/// What an entry contributes to the total: income positive, expense
/// negative.
pub open spec fn signed_monthly(t: TransactionV) -> int {
    match t.kind {
        Kind::Income => monthly_cents(t.freq, t.amount as int),
        Kind::Expense => -monthly_cents(t.freq, t.amount as int),
    }
}

/// The signed total of the monthly equivalents.
pub open spec fn total_of(s: Seq<TransactionV>) -> int
    decreases s.len(),
{
    if s.len() == 0 {
        0
    } else {
        total_of(s.drop_last()) + signed_monthly(s.last())
    }
}

/// The monthly expenses of entries whose category is `c`.
pub open spec fn cat_sum(s: Seq<TransactionV>, c: Seq<char>) -> int
    decreases s.len(),
{
    if s.len() == 0 {
        0
    } else {
        cat_sum(s.drop_last(), c) + (if s.last().kind is Expense && s.last().category == Some(c) {
            monthly_cents(s.last().freq, s.last().amount as int)
        } else {
            0
        })
    }
}

/// The monthly expenses of entries that carry no category.
pub open spec fn other_sum(s: Seq<TransactionV>) -> int
    decreases s.len(),
{
    if s.len() == 0 {
        0
    } else {
        other_sum(s.drop_last()) + (if s.last().kind is Expense && s.last().category is None {
            monthly_cents(s.last().freq, s.last().amount as int)
        } else {
            0
        })
    }
}

/// The monthly expenses drawn from the account `a`.
pub open spec fn acct_sum(s: Seq<TransactionV>, a: Seq<char>) -> int
    decreases s.len(),
{
    if s.len() == 0 {
        0
    } else {
        acct_sum(s.drop_last(), a) + (if s.last().kind is Expense && s.last().account == Some(a) {
            monthly_cents(s.last().freq, s.last().amount as int)
        } else {
            0
        })
    }
}

/// The monthly expenses that name no account.
pub open spec fn unalloc_sum(s: Seq<TransactionV>) -> int
    decreases s.len(),
{
    if s.len() == 0 {
        0
    } else {
        unalloc_sum(s.drop_last()) + (if s.last().kind is Expense && s.last().account is None {
            monthly_cents(s.last().freq, s.last().amount as int)
        } else {
            0
        })
    }
}

/// Whether some expense of `s` carries the category `c`.
pub open spec fn has_expense_cat(s: Seq<TransactionV>, c: Seq<char>) -> bool {
    exists|i: int|
        0 <= i < s.len() && (#[trigger] s[i]).kind is Expense && s[i].category == Some(c)
}

/// Whether some expense of `s` draws from the account `a`.
pub open spec fn has_expense_acct(s: Seq<TransactionV>, a: Seq<char>) -> bool {
    exists|i: int| 0 <= i < s.len() && (#[trigger] s[i]).kind is Expense && s[i].account == Some(a)
}

/// A category nothing uses sums to nothing.
pub proof fn lemma_cat_sum_absent(s: Seq<TransactionV>, c: Seq<char>)
    requires
        !has_expense_cat(s, c),
    ensures
        cat_sum(s, c) == 0,
    decreases s.len(),
{
    if s.len() > 0 {
        assert(forall|i: int| 0 <= i < s.len() - 1 ==> s.drop_last()[i] == s[i]);
        assert(!has_expense_cat(s.drop_last(), c));
        lemma_cat_sum_absent(s.drop_last(), c);
        assert(!(s.last().kind is Expense && s.last().category == Some(c))) by {
            assert(s.last() == s[s.len() - 1]);
        }
    }
}

/// An account nothing draws from sums to nothing.
pub proof fn lemma_acct_sum_absent(s: Seq<TransactionV>, a: Seq<char>)
    requires
        !has_expense_acct(s, a),
    ensures
        acct_sum(s, a) == 0,
    decreases s.len(),
{
    if s.len() > 0 {
        assert(forall|i: int| 0 <= i < s.len() - 1 ==> s.drop_last()[i] == s[i]);
        assert(!has_expense_acct(s.drop_last(), a));
        lemma_acct_sum_absent(s.drop_last(), a);
        assert(!(s.last().kind is Expense && s.last().account == Some(a))) by {
            assert(s.last() == s[s.len() - 1]);
        }
    }
}

/// One line of the report table.
pub struct ReportRow {
    pub kind: Kind,
    pub freq: Frequency,
    pub name: String,
    pub category: Option<String>,
    pub account: Option<String>,
    pub monthly: Money,
}

/// A row shows its entry, with the amount extrapolated to one month.
pub open spec fn row_matches(row: ReportRow, t: TransactionV) -> bool {
    &&& row.kind == t.kind
    &&& row.freq == t.freq
    &&& row.name@ == t.name
    &&& (match row.category {
        Some(c) => t.category == Some(c@),
        None => t.category is None,
    })
    &&& (match row.account {
        Some(a) => t.account == Some(a@),
        None => t.account is None,
    })
    &&& row.monthly.cents == monthly_cents(t.freq, t.amount as int)
}

/// A grouped table holds, under pairwise distinct keys, exactly the
/// summed monthly expense of each category that some expense of `s`
/// uses, every such category included. No row order is promised.
pub open spec fn breakdown_matches(tbl: Seq<(String, u128)>, s: Seq<TransactionV>) -> bool {
    &&& forall|i: int, j: int|
        0 <= i < j < tbl.len() ==> (#[trigger] tbl[i].0)@ != (#[trigger] tbl[j].0)@
    &&& forall|i: int|
        0 <= i < tbl.len() ==> has_expense_cat(s, (#[trigger] tbl[i].0)@) && tbl[i].1 == cat_sum(
            s,
            tbl[i].0@,
        )
    &&& forall|c: Seq<char>|
        #[trigger] has_expense_cat(s, c) ==> exists|i: int|
            0 <= i < tbl.len() && (#[trigger] tbl[i].0)@ == c
}

/// As `breakdown_matches`, for accounts.
pub open spec fn coverage_matches(tbl: Seq<(String, u128)>, s: Seq<TransactionV>) -> bool {
    &&& forall|i: int, j: int|
        0 <= i < j < tbl.len() ==> (#[trigger] tbl[i].0)@ != (#[trigger] tbl[j].0)@
    &&& forall|i: int|
        0 <= i < tbl.len() ==> has_expense_acct(s, (#[trigger] tbl[i].0)@) && tbl[i].1 == acct_sum(
            s,
            tbl[i].0@,
        )
    &&& forall|a: Seq<char>|
        #[trigger] has_expense_acct(s, a) ==> exists|i: int|
            0 <= i < tbl.len() && (#[trigger] tbl[i].0)@ == a
}

/// The whole monthly report.
pub struct Report {
    pub rows: Vec<ReportRow>,
    pub total: i128,
    pub breakdown: Vec<(String, u128)>,
    pub other_expenses: u128,
    pub coverage: Vec<(String, u128)>,
    pub unallocated: u128,
}

/// The position of `name` among the keys of a grouped table.
fn find_slot(v: &Vec<(String, u128)>, name: &String) -> (r: Option<usize>)
    ensures
        (match r {
            Some(ix) => ix < v@.len() && v@[ix as int].0@ == name@,
            None => forall|i: int| 0 <= i < v@.len() ==> (#[trigger] v@[i].0)@ != name@,
        }),
{
    let n = v.len();
    let mut k: usize = 0;
    while k < n
        invariant
            k <= n,
            n == v@.len(),
            forall|i: int| 0 <= i < k ==> (#[trigger] v@[i].0)@ != name@,
        decreases n - k,
    {
        if v[k].0.eq(name) {
            return Some(k);
        }
        k = k + 1;
    }
    None
}

/// Builds the report of a ledger: one row per entry, the signed total,
/// and the expense sums grouped by category and by account.
#[verifier::rlimit(100)]
#[verifier::spinoff_prover]
pub fn compute_report(l: &Ledger) -> (r: Report)
    requires
        l.wf(),
    ensures
        r.total == total_of(l@),
        r.other_expenses == other_sum(l@),
        r.unallocated == unalloc_sum(l@),
        r.rows@.len() == l@.len(),
        forall|i: int| 0 <= i < l@.len() ==> row_matches(#[trigger] r.rows@[i], l@[i]),
        breakdown_matches(r.breakdown@, l@),
        coverage_matches(r.coverage@, l@),
{
    let n = l.entries.len();
    let mut rows: Vec<ReportRow> = Vec::new();
    let mut total: i128 = 0;
    let mut breakdown: Vec<(String, u128)> = Vec::new();
    let mut other_expenses: u128 = 0;
    let mut coverage: Vec<(String, u128)> = Vec::new();
    let mut unallocated: u128 = 0;
    let mut k: usize = 0;
    proof {
        assert(l@.take(0) =~= Seq::<TransactionV>::empty());
    }
    while k < n
        invariant
            k <= n,
            l.wf(),
            n == l.entries@.len(),
            l@.len() == l.entries@.len(),
            total == total_of(l@.take(k as int)),
            -((k as int) * MONTHLY_MAX) <= total <= (k as int) * MONTHLY_MAX,
            other_expenses == other_sum(l@.take(k as int)),
            other_expenses <= (k as int) * MONTHLY_MAX,
            unallocated == unalloc_sum(l@.take(k as int)),
            unallocated <= (k as int) * MONTHLY_MAX,
            rows@.len() == k,
            forall|i: int| 0 <= i < k ==> row_matches(#[trigger] rows@[i], l@[i]),
            breakdown_matches(breakdown@, l@.take(k as int)),
            forall|i: int| 0 <= i < breakdown@.len() ==> (#[trigger] breakdown@[i]).1 <= (
            k as int) * MONTHLY_MAX,
            coverage_matches(coverage@, l@.take(k as int)),
            forall|i: int| 0 <= i < coverage@.len() ==> (#[trigger] coverage@[i]).1 <= (k as int)
                * MONTHLY_MAX,
        decreases n - k,
    {
        let ghost pref = l@.take(k as int);
        let ghost pref2 = l@.take(k + 1 as int);
        let ghost t = l@[k as int];
        proof {
            assert(pref2.drop_last() =~= pref);
            assert(pref2.last() == t);
            assert(t.wf());
            assert(forall|i: int| 0 <= i < pref2.len() ==> pref2[i] == l@[i]);
        }
        let e = &l.entries[k];
        proof {
            assert(e@ == t);
        }
        let m = monthly_amount(e.freq, e.amount);
        proof {
            assert(usize::MAX as int <= 0xFFFF_FFFF_FFFF_FFFFu64 as int);
            assert((k as int) < n as int <= usize::MAX as int);
            assert((k as int + 1) * MONTHLY_MAX == (k as int) * MONTHLY_MAX + MONTHLY_MAX);
            assert((k as int + 1) * MONTHLY_MAX <= usize::MAX as int * MONTHLY_MAX);
        }
        rows.push(
            ReportRow {
                kind: e.kind,
                freq: e.freq,
                name: e.name.clone(),
                category: match &e.category {
                    Some(c) => Some(c.clone()),
                    None => None,
                },
                account: match &e.account {
                    Some(a) => Some(a.clone()),
                    None => None,
                },
                monthly: m,
            },
        );
        match e.kind {
            Kind::Income => {
                total = total + (m.cents as i128);
                proof {
                    assert(total_of(pref2) == total_of(pref) + signed_monthly(t));
                    assert(other_sum(pref2) == other_sum(pref));
                    assert(unalloc_sum(pref2) == unalloc_sum(pref));
                    assert forall|c: Seq<char>| true implies cat_sum(pref2, c) == cat_sum(pref, c)
                        by {}
                    assert forall|a: Seq<char>| true implies acct_sum(pref2, a) == acct_sum(
                        pref,
                        a,
                    ) by {}
                    assert forall|c: Seq<char>| #[trigger]
                        has_expense_cat(pref2, c) implies has_expense_cat(pref, c) by {
                        let i = choose|i: int|
                            0 <= i < pref2.len() && (#[trigger] pref2[i]).kind is Expense
                                && pref2[i].category == Some(c);
                        assert(i < pref.len() && pref[i] == pref2[i]);
                    }
                    assert forall|a: Seq<char>| #[trigger]
                        has_expense_acct(pref2, a) implies has_expense_acct(pref, a) by {
                        let i = choose|i: int|
                            0 <= i < pref2.len() && (#[trigger] pref2[i]).kind is Expense
                                && pref2[i].account == Some(a);
                        assert(i < pref.len() && pref[i] == pref2[i]);
                    }
                    assert forall|c: Seq<char>| #[trigger]
                        has_expense_cat(pref, c) implies has_expense_cat(pref2, c) by {
                        let i = choose|i: int|
                            0 <= i < pref.len() && (#[trigger] pref[i]).kind is Expense
                                && pref[i].category == Some(c);
                        assert(pref2[i] == pref[i]);
                    }
                    assert forall|a: Seq<char>| #[trigger]
                        has_expense_acct(pref, a) implies has_expense_acct(pref2, a) by {
                        let i = choose|i: int|
                            0 <= i < pref.len() && (#[trigger] pref[i]).kind is Expense
                                && pref[i].account == Some(a);
                        assert(pref2[i] == pref[i]);
                    }
                }
            },
            Kind::Expense => {
                total = total - (m.cents as i128);
                proof {
                    assert(total_of(pref2) == total_of(pref) + signed_monthly(t));
                    assert forall|c: Seq<char>| #[trigger]
                        has_expense_cat(pref, c) implies has_expense_cat(pref2, c) by {
                        let i = choose|i: int|
                            0 <= i < pref.len() && (#[trigger] pref[i]).kind is Expense
                                && pref[i].category == Some(c);
                        assert(pref2[i] == pref[i]);
                    }
                    assert forall|c: Seq<char>| #[trigger]
                        has_expense_cat(pref2, c) && !has_expense_cat(pref, c) implies t.category
                        == Some(c) by {
                        let i = choose|i: int|
                            0 <= i < pref2.len() && (#[trigger] pref2[i]).kind is Expense
                                && pref2[i].category == Some(c);
                        if i < pref.len() {
                            assert(pref[i] == pref2[i]);
                        }
                    }
                    assert forall|a: Seq<char>| #[trigger]
                        has_expense_acct(pref, a) implies has_expense_acct(pref2, a) by {
                        let i = choose|i: int|
                            0 <= i < pref.len() && (#[trigger] pref[i]).kind is Expense
                                && pref[i].account == Some(a);
                        assert(pref2[i] == pref[i]);
                    }
                    assert forall|a: Seq<char>| #[trigger]
                        has_expense_acct(pref2, a) && !has_expense_acct(pref, a) implies t.account
                        == Some(a) by {
                        let i = choose|i: int|
                            0 <= i < pref2.len() && (#[trigger] pref2[i]).kind is Expense
                                && pref2[i].account == Some(a);
                        if i < pref.len() {
                            assert(pref[i] == pref2[i]);
                        }
                    }
                }
                match &e.category {
                    Some(c) => {
                        proof {
                            assert(has_expense_cat(pref2, c@)) by {
                                assert(pref2[k as int].kind is Expense && pref2[k as int].category
                                    == Some(c@));
                            }
                        }
                        let ghost bd0 = breakdown@;
                        match find_slot(&breakdown, c) {
                            Some(ix) => {
                                let key = breakdown[ix].0.clone();
                                let val = breakdown[ix].1;
                                breakdown.set(ix, (key, val + (m.cents as u128)));
                                proof {
                                    assert(breakdown@[ix as int].0@ == c@);
                                    assert forall|x: int|
                                        0 <= x < breakdown@.len() implies (
                                    #[trigger] breakdown@[x]).0@ == bd0[x].0@ by {}
                                    assert forall|i: int|
                                        0 <= i < breakdown@.len() implies has_expense_cat(
                                        pref2,
                                        (#[trigger] breakdown@[i]).0@,
                                    ) && breakdown@[i].1 == cat_sum(pref2, breakdown@[i].0@)
                                        && breakdown@[i].1 <= (k as int + 1) * MONTHLY_MAX by {
                                        if i == ix {
                                            assert(cat_sum(pref2, c@) == cat_sum(pref, c@)
                                                + monthly_cents(t.freq, t.amount as int));
                                        } else {
                                            assert(breakdown@[i] == bd0[i]);
                                            assert(bd0[i].0@ != c@);
                                            assert(cat_sum(pref2, bd0[i].0@) == cat_sum(
                                                pref,
                                                bd0[i].0@,
                                            ));
                                            assert(has_expense_cat(pref, bd0[i].0@));
                                        }
                                    }
                                    assert forall|c2: Seq<char>| #[trigger]
                                        has_expense_cat(pref2, c2) implies exists|i: int|
                                        0 <= i < breakdown@.len() && (#[trigger] breakdown@[i].0)@
                                            == c2 by {
                                        if has_expense_cat(pref, c2) {
                                            let i = choose|i: int|
                                                0 <= i < bd0.len() && (#[trigger] bd0[i].0)@ == c2;
                                            assert(breakdown@[i].0@ == c2);
                                        } else {
                                            assert(c2 == c@);
                                            assert(breakdown@[ix as int].0@ == c2);
                                        }
                                    }
                                }
                            },
                            None => {
                                proof {
                                    if has_expense_cat(pref, c@) {
                                        let i = choose|i: int|
                                            0 <= i < bd0.len() && (#[trigger] bd0[i].0)@ == c@;
                                    }
                                    assert(!has_expense_cat(pref, c@));
                                    lemma_cat_sum_absent(pref, c@);
                                }
                                breakdown.push((c.clone(), m.cents as u128));
                                proof {
                                    assert(breakdown@.drop_last() =~= bd0);
                                    assert(breakdown@[breakdown@.len() - 1].0@ == c@);
                                    assert forall|i: int|
                                        0 <= i < breakdown@.len() implies has_expense_cat(
                                        pref2,
                                        (#[trigger] breakdown@[i]).0@,
                                    ) && breakdown@[i].1 == cat_sum(pref2, breakdown@[i].0@)
                                        && breakdown@[i].1 <= (k as int + 1) * MONTHLY_MAX by {
                                        if i < breakdown@.len() - 1 {
                                            assert(breakdown@[i] == bd0[i]);
                                            assert(bd0[i].0@ != c@) by {
                                                assert(has_expense_cat(pref, bd0[i].0@));
                                            }
                                            assert(cat_sum(pref2, bd0[i].0@) == cat_sum(
                                                pref,
                                                bd0[i].0@,
                                            ));
                                        } else {
                                            assert(cat_sum(pref2, c@) == cat_sum(pref, c@)
                                                + monthly_cents(t.freq, t.amount as int));
                                        }
                                    }
                                    assert forall|c2: Seq<char>| #[trigger]
                                        has_expense_cat(pref2, c2) implies exists|i: int|
                                        0 <= i < breakdown@.len() && (#[trigger] breakdown@[i].0)@
                                            == c2 by {
                                        if has_expense_cat(pref, c2) {
                                            let i = choose|i: int|
                                                0 <= i < bd0.len() && (#[trigger] bd0[i].0)@ == c2;
                                            assert(breakdown@[i].0@ == c2);
                                        } else {
                                            assert(c2 == c@);
                                            assert(breakdown@[breakdown@.len() - 1].0@ == c2);
                                        }
                                    }
                                }
                            },
                        }
                    },
                    None => {
                        other_expenses = other_expenses + (m.cents as u128);
                        proof {
                            assert forall|i: int|
                                0 <= i < breakdown@.len() implies has_expense_cat(
                                pref2,
                                (#[trigger] breakdown@[i]).0@,
                            ) && breakdown@[i].1 == cat_sum(pref2, breakdown@[i].0@) by {
                                assert(has_expense_cat(pref, breakdown@[i].0@));
                                assert(cat_sum(pref2, breakdown@[i].0@) == cat_sum(
                                    pref,
                                    breakdown@[i].0@,
                                ));
                            }
                            assert forall|c2: Seq<char>| #[trigger]
                                has_expense_cat(pref2, c2) implies exists|i: int|
                                0 <= i < breakdown@.len() && (#[trigger] breakdown@[i].0)@
                                    == c2 by {
                                assert(has_expense_cat(pref, c2));
                            }
                        }
                    },
                }
                match &e.account {
                    Some(a) => {
                        proof {
                            assert(has_expense_acct(pref2, a@)) by {
                                assert(pref2[k as int].kind is Expense && pref2[k as int].account
                                    == Some(a@));
                            }
                        }
                        let ghost cv0 = coverage@;
                        match find_slot(&coverage, a) {
                            Some(ix) => {
                                let key = coverage[ix].0.clone();
                                let val = coverage[ix].1;
                                coverage.set(ix, (key, val + (m.cents as u128)));
                                proof {
                                    assert(coverage@[ix as int].0@ == a@);
                                    assert forall|x: int|
                                        0 <= x < coverage@.len() implies (
                                    #[trigger] coverage@[x]).0@ == cv0[x].0@ by {}
                                    assert forall|i: int|
                                        0 <= i < coverage@.len() implies has_expense_acct(
                                        pref2,
                                        (#[trigger] coverage@[i]).0@,
                                    ) && coverage@[i].1 == acct_sum(pref2, coverage@[i].0@)
                                        && coverage@[i].1 <= (k as int + 1) * MONTHLY_MAX by {
                                        if i == ix {
                                            assert(acct_sum(pref2, a@) == acct_sum(pref, a@)
                                                + monthly_cents(t.freq, t.amount as int));
                                        } else {
                                            assert(coverage@[i] == cv0[i]);
                                            assert(cv0[i].0@ != a@);
                                            assert(acct_sum(pref2, cv0[i].0@) == acct_sum(
                                                pref,
                                                cv0[i].0@,
                                            ));
                                            assert(has_expense_acct(pref, cv0[i].0@));
                                        }
                                    }
                                    assert forall|a2: Seq<char>| #[trigger]
                                        has_expense_acct(pref2, a2) implies exists|i: int|
                                        0 <= i < coverage@.len() && (#[trigger] coverage@[i].0)@
                                            == a2 by {
                                        if has_expense_acct(pref, a2) {
                                            let i = choose|i: int|
                                                0 <= i < cv0.len() && (#[trigger] cv0[i].0)@ == a2;
                                            assert(coverage@[i].0@ == a2);
                                        } else {
                                            assert(a2 == a@);
                                            assert(coverage@[ix as int].0@ == a2);
                                        }
                                    }
                                }
                            },
                            None => {
                                proof {
                                    if has_expense_acct(pref, a@) {
                                        let i = choose|i: int|
                                            0 <= i < cv0.len() && (#[trigger] cv0[i].0)@ == a@;
                                    }
                                    assert(!has_expense_acct(pref, a@));
                                    lemma_acct_sum_absent(pref, a@);
                                }
                                coverage.push((a.clone(), m.cents as u128));
                                proof {
                                    assert(coverage@.drop_last() =~= cv0);
                                    assert(coverage@[coverage@.len() - 1].0@ == a@);
                                    assert forall|i: int|
                                        0 <= i < coverage@.len() implies has_expense_acct(
                                        pref2,
                                        (#[trigger] coverage@[i]).0@,
                                    ) && coverage@[i].1 == acct_sum(pref2, coverage@[i].0@)
                                        && coverage@[i].1 <= (k as int + 1) * MONTHLY_MAX by {
                                        if i < coverage@.len() - 1 {
                                            assert(coverage@[i] == cv0[i]);
                                            assert(cv0[i].0@ != a@) by {
                                                assert(has_expense_acct(pref, cv0[i].0@));
                                            }
                                            assert(acct_sum(pref2, cv0[i].0@) == acct_sum(
                                                pref,
                                                cv0[i].0@,
                                            ));
                                        } else {
                                            assert(acct_sum(pref2, a@) == acct_sum(pref, a@)
                                                + monthly_cents(t.freq, t.amount as int));
                                        }
                                    }
                                    assert forall|a2: Seq<char>| #[trigger]
                                        has_expense_acct(pref2, a2) implies exists|i: int|
                                        0 <= i < coverage@.len() && (#[trigger] coverage@[i].0)@
                                            == a2 by {
                                        if has_expense_acct(pref, a2) {
                                            let i = choose|i: int|
                                                0 <= i < cv0.len() && (#[trigger] cv0[i].0)@ == a2;
                                            assert(coverage@[i].0@ == a2);
                                        } else {
                                            assert(a2 == a@);
                                            assert(coverage@[coverage@.len() - 1].0@ == a2);
                                        }
                                    }
                                }
                            },
                        }
                    },
                    None => {
                        unallocated = unallocated + (m.cents as u128);
                        proof {
                            assert forall|i: int|
                                0 <= i < coverage@.len() implies has_expense_acct(
                                pref2,
                                (#[trigger] coverage@[i]).0@,
                            ) && coverage@[i].1 == acct_sum(pref2, coverage@[i].0@) by {
                                assert(has_expense_acct(pref, coverage@[i].0@));
                                assert(acct_sum(pref2, coverage@[i].0@) == acct_sum(
                                    pref,
                                    coverage@[i].0@,
                                ));
                            }
                            assert forall|a2: Seq<char>| #[trigger]
                                has_expense_acct(pref2, a2) implies exists|i: int|
                                0 <= i < coverage@.len() && (#[trigger] coverage@[i].0)@
                                    == a2 by {
                                assert(has_expense_acct(pref, a2));
                            }
                        }
                    },
                }
            },
        }
        k = k + 1;
    }
    proof {
        assert(l@.take(n as int) =~= l@);
    }
    Report { rows, total, breakdown, other_expenses, coverage, unallocated }
}

/// Loads the active ledger and builds its report.
pub fn report(store: &Store) -> (r: Result<Report, Error>)
    requires
        store.wf(),
    ensures
        (match r {
            Ok(rep) => {
                &&& stored_ledger(store@, current_name()) is Some
                &&& {
                    let lv = stored_ledger(store@, current_name())->0;
                    &&& rep.total == total_of(lv)
                    &&& rep.other_expenses == other_sum(lv)
                    &&& rep.unallocated == unalloc_sum(lv)
                    &&& rep.rows@.len() == lv.len()
                    &&& forall|i: int|
                        0 <= i < lv.len() ==> row_matches(#[trigger] rep.rows@[i], lv[i])
                    &&& breakdown_matches(rep.breakdown@, lv)
                    &&& coverage_matches(rep.coverage@, lv)
                }
            },
            Err(e) => stored_ledger(store@, current_name()) is None && (match e {
                Error::NotFound(n) => n@ == current_name() && !store@.dom().contains(
                    current_name(),
                ),
                Error::DecodeError => store@.dom().contains(current_name()),
                _ => false,
            }),
        }),
{
    let l = match crate::store::load_current_ledger(store) {
        Ok(l) => l,
        Err(e) => {
            return Err(e);
        },
    };
    Ok(compute_report(&l))
}

/// The total row's cell: a positive total plain, anything else in
/// parentheses with its magnitude, as the table shows signs by
/// presentation rather than by a leading minus.
pub fn format_total(total: i128) -> (r: String)
    requires
        total != i128::MIN,
    ensures
        total > 0 ==> r@ == seq![' '] + money_text(total as int) + seq![' '],
        total <= 0 ==> r@ == seq!['('] + money_text(-(total as int)) + seq![')'],
{
    proof {
        reveal_strlit(" ");
        reveal_strlit("(");
        reveal_strlit(")");
        assert((" "@) =~= seq![' ']);
        assert(("("@) =~= seq!['(']);
        assert((")"@) =~= seq![')']);
    }
    if total > 0 {
        let mut s = " ".to_owned();
        let cell = format_cents(total as u128);
        s.append(cell.as_str());
        s.append(" ");
        proof {
            assert(s@ =~= seq![' '] + money_text(total as int) + seq![' ']);
        }
        s
    } else {
        let mag: i128 = -total;
        let mut s = "(".to_owned();
        let cell = format_cents(mag as u128);
        s.append(cell.as_str());
        s.append(")");
        proof {
            assert(s@ =~= seq!['('] + money_text(-(total as int)) + seq![')']);
        }
        s
    }
}

/// A table cell for one entry's monthly amount: income shown plain with
/// spaces, expense parenthesized.
pub fn format_amount_cell(kind: Kind, m: Money) -> (r: String)
    ensures
        (match kind {
            Kind::Income => r@ == seq![' '] + money_text(m.cents as int) + seq![' '],
            Kind::Expense => r@ == seq!['('] + money_text(m.cents as int) + seq![')'],
        }),
{
    proof {
        reveal_strlit(" ");
        reveal_strlit("(");
        reveal_strlit(")");
        assert((" "@) =~= seq![' ']);
        assert(("("@) =~= seq!['(']);
        assert((")"@) =~= seq![')']);
    }
    match kind {
        Kind::Income => {
            let mut s = " ".to_owned();
            let cell = format_cents(m.cents as u128);
            s.append(cell.as_str());
            s.append(" ");
            proof {
                assert(s@ =~= seq![' '] + money_text(m.cents as int) + seq![' ']);
            }
            s
        },
        Kind::Expense => {
            let mut s = "(".to_owned();
            let cell = format_cents(m.cents as u128);
            s.append(cell.as_str());
            s.append(")");
            proof {
                assert(s@ =~= seq!['('] + money_text(m.cents as int) + seq![')']);
            }
            s
        },
    }
}

} // verus!
