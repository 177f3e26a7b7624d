//! The ledger file format: a JSON object that maps each transaction name
//! to a record `{"kind":..,"frequency":..,"name":..,"amount":..,
//! "category":..,"account":..}`. The encoder emits this canonical form;
//! the parser reads it back. `lemma_parse_of_encode` is the round-trip
//! guarantee: whatever `encode` writes, the parser returns unchanged.

use vstd::prelude::*;
use crate::ledger::{Kind, Frequency, TransactionV, Transaction, Ledger, txs_view, unique_names};
use crate::money::Money;
use crate::strings::{str_to_chars, push_char};
use crate::money::{MAX_CENTS, dec_digits, is_digit, digit_val, digits_val, all_digits, pow10};
use crate::money::{
    lemma_digits_val_of_dec_digits,
    lemma_digits_val_nonneg,
    lemma_digits_val_front,
    lemma_pow10_pos,
};

verus! {

// ---------------------------------------------------------------------
// The encoding, character by character.
// ---------------------------------------------------------------------
/// A string character as it appears inside a JSON string literal: quote
/// and backslash get a backslash escape, everything else stands as is.
pub open spec fn esc_char(c: char) -> Seq<char> {
    if c == '"' {
        seq!['\\', '"']
    } else if c == '\\' {
        seq!['\\', '\\']
    } else {
        seq![c]
    }
}

/// A whole string body, escaped.
pub open spec fn esc(s: Seq<char>) -> Seq<char>
    decreases s.len(),
{
    if s.len() == 0 {
        Seq::empty()
    } else {
        esc(s.drop_last()) + esc_char(s.last())
    }
}

/// A JSON string literal: quote, escaped body, quote.
pub open spec fn enc_str(s: Seq<char>) -> Seq<char> {
    seq!['"'] + esc(s) + seq!['"']
}

/// The text of a kind.
pub open spec fn kind_text(k: Kind) -> Seq<char> {
    match k {
        Kind::Income => seq!['i', 'n', 'c', 'o', 'm', 'e'],
        Kind::Expense => seq!['e', 'x', 'p', 'e', 'n', 's', 'e'],
    }
}

/// The text of a frequency.
pub open spec fn freq_text(f: Frequency) -> Seq<char> {
    match f {
        Frequency::Daily => seq!['d', 'a', 'i', 'l', 'y'],
        Frequency::Workdays => seq!['w', 'o', 'r', 'k', 'd', 'a', 'y', 's'],
        Frequency::Weekly => seq!['w', 'e', 'e', 'k', 'l', 'y'],
        Frequency::Monthly => seq!['m', 'o', 'n', 't', 'h', 'l', 'y'],
        Frequency::Quarterly => seq!['q', 'u', 'a', 'r', 't', 'e', 'r', 'l', 'y'],
        Frequency::Yearly => seq!['y', 'e', 'a', 'r', 'l', 'y'],
    }
}

/// The literal `null`.
pub open spec fn null_lit() -> Seq<char> {
    seq!['n', 'u', 'l', 'l']
}

/// An optional string field: `null` when absent.
pub open spec fn enc_opt(o: Option<Seq<char>>) -> Seq<char> {
    match o {
        None => null_lit(),
        Some(s) => enc_str(s),
    }
}

/// The opening brace and first key of a record.
pub open spec fn key_kind() -> Seq<char> {
    seq!['{', '"', 'k', 'i', 'n', 'd', '"', ':']
}

/// Comma and the `frequency` key.
pub open spec fn key_freq() -> Seq<char> {
    seq![',', '"', 'f', 'r', 'e', 'q', 'u', 'e', 'n', 'c', 'y', '"', ':']
}

/// Comma and the `name` key.
pub open spec fn key_name() -> Seq<char> {
    seq![',', '"', 'n', 'a', 'm', 'e', '"', ':']
}

/// Comma and the `amount` key.
pub open spec fn key_amount() -> Seq<char> {
    seq![',', '"', 'a', 'm', 'o', 'u', 'n', 't', '"', ':']
}

/// Comma and the `category` key.
pub open spec fn key_category() -> Seq<char> {
    seq![',', '"', 'c', 'a', 't', 'e', 'g', 'o', 'r', 'y', '"', ':']
}

/// Comma and the `account` key.
pub open spec fn key_account() -> Seq<char> {
    seq![',', '"', 'a', 'c', 'c', 'o', 'u', 'n', 't', '"', ':']
}

/// One transaction record.
pub open spec fn enc_tx(t: TransactionV) -> Seq<char> {
    key_kind() + enc_str(kind_text(t.kind)) + key_freq() + enc_str(freq_text(t.freq)) + key_name()
        + enc_str(t.name) + key_amount() + dec_digits(t.amount as int) + key_category() + enc_opt(
        t.category,
    ) + key_account() + enc_opt(t.account) + seq!['}']
}

/// One object member: the name as key, then the record.
pub open spec fn enc_entry(t: TransactionV) -> Seq<char> {
    enc_str(t.name) + seq![':'] + enc_tx(t)
}

/// The members, comma-separated.
pub open spec fn enc_entries(s: Seq<TransactionV>) -> Seq<char>
    decreases s.len(),
{
    if s.len() == 0 {
        Seq::empty()
    } else if s.len() == 1 {
        enc_entry(s[0])
    } else {
        enc_entry(s[0]) + seq![','] + enc_entries(s.drop_first())
    }
}

/// A whole ledger.
pub open spec fn enc_ledger(s: Seq<TransactionV>) -> Seq<char> {
    seq!['{'] + enc_entries(s) + seq!['}']
}

// ---------------------------------------------------------------------
// The parser, consuming from the front of a character sequence. Each
// function returns the parsed value and what remains, or nothing on
// text it does not accept.
// ---------------------------------------------------------------------
/// Whether `p` is a prefix of `s`.
pub open spec fn starts_with(s: Seq<char>, p: Seq<char>) -> bool {
    p.len() <= s.len() && s.take(p.len() as int) == p
}

/// Consumes an exact literal.
pub open spec fn sp_lit(s: Seq<char>, p: Seq<char>) -> Option<Seq<char>> {
    if starts_with(s, p) {
        Some(s.skip(p.len() as int))
    } else {
        None
    }
}

/// Consumes a string body up to and including the closing quote.
pub open spec fn sp_strbody(s: Seq<char>) -> Option<(Seq<char>, Seq<char>)>
    decreases s.len(),
{
    if s.len() == 0 {
        None
    } else if s[0] == '"' {
        Some((Seq::empty(), s.drop_first()))
    } else if s[0] == '\\' {
        if s.len() < 2 || !(s[1] == '"' || s[1] == '\\') {
            None
        } else {
            match sp_strbody(s.skip(2)) {
                Some((v, r)) => Some((seq![s[1]] + v, r)),
                None => None,
            }
        }
    } else {
        match sp_strbody(s.drop_first()) {
            Some((v, r)) => Some((seq![s[0]] + v, r)),
            None => None,
        }
    }
}

/// Consumes a quoted string literal.
pub open spec fn sp_string(s: Seq<char>) -> Option<(Seq<char>, Seq<char>)> {
    if s.len() > 0 && s[0] == '"' {
        sp_strbody(s.drop_first())
    } else {
        None
    }
}

/// Consumes digits, accumulating their value onto `acc`; a value past
/// `MAX_CENTS` is rejected.
pub open spec fn sp_digits(s: Seq<char>, acc: int) -> Option<(int, Seq<char>)>
    decreases s.len(),
{
    if s.len() > 0 && is_digit(s[0]) {
        if acc * 10 + digit_val(s[0]) > MAX_CENTS {
            None
        } else {
            sp_digits(s.drop_first(), acc * 10 + digit_val(s[0]))
        }
    } else {
        Some((acc, s))
    }
}

/// Consumes an amount: at least one digit.
pub open spec fn sp_amount(s: Seq<char>) -> Option<(int, Seq<char>)> {
    if s.len() > 0 && is_digit(s[0]) {
        sp_digits(s, 0)
    } else {
        None
    }
}

/// Consumes a kind.
pub open spec fn sp_kind(s: Seq<char>) -> Option<(Kind, Seq<char>)> {
    match sp_string(s) {
        Some((w, r)) => if w == kind_text(Kind::Income) {
            Some((Kind::Income, r))
        } else if w == kind_text(Kind::Expense) {
            Some((Kind::Expense, r))
        } else {
            None
        },
        None => None,
    }
}

/// Consumes a frequency.
pub open spec fn sp_freq(s: Seq<char>) -> Option<(Frequency, Seq<char>)> {
    match sp_string(s) {
        Some((w, r)) => if w == freq_text(Frequency::Daily) {
            Some((Frequency::Daily, r))
        } else if w == freq_text(Frequency::Workdays) {
            Some((Frequency::Workdays, r))
        } else if w == freq_text(Frequency::Weekly) {
            Some((Frequency::Weekly, r))
        } else if w == freq_text(Frequency::Monthly) {
            Some((Frequency::Monthly, r))
        } else if w == freq_text(Frequency::Quarterly) {
            Some((Frequency::Quarterly, r))
        } else if w == freq_text(Frequency::Yearly) {
            Some((Frequency::Yearly, r))
        } else {
            None
        },
        None => None,
    }
}

/// Consumes an optional string: `null` or a string literal.
pub open spec fn sp_opt(s: Seq<char>) -> Option<(Option<Seq<char>>, Seq<char>)> {
    if starts_with(s, null_lit()) {
        Some((None, s.skip(4)))
    } else {
        match sp_string(s) {
            Some((w, r)) => Some((Some(w), r)),
            None => None,
        }
    }
}

/// Consumes one transaction record.
pub open spec fn sp_tx(s: Seq<char>) -> Option<(TransactionV, Seq<char>)> {
    match sp_lit(s, key_kind()) {
        None => None,
        Some(s1) => match sp_kind(s1) {
            None => None,
            Some((kind, s2)) => match sp_lit(s2, key_freq()) {
                None => None,
                Some(s3) => match sp_freq(s3) {
                    None => None,
                    Some((freq, s4)) => match sp_lit(s4, key_name()) {
                        None => None,
                        Some(s5) => match sp_string(s5) {
                            None => None,
                            Some((name, s6)) => match sp_lit(s6, key_amount()) {
                                None => None,
                                Some(s7) => match sp_amount(s7) {
                                    None => None,
                                    Some((amount, s8)) => match sp_lit(s8, key_category()) {
                                        None => None,
                                        Some(s9) => match sp_opt(s9) {
                                            None => None,
                                            Some((category, s10)) => match sp_lit(
                                                s10,
                                                key_account(),
                                            ) {
                                                None => None,
                                                Some(s11) => match sp_opt(s11) {
                                                    None => None,
                                                    Some((account, s12)) => match sp_lit(
                                                        s12,
                                                        seq!['}'],
                                                    ) {
                                                        None => None,
                                                        Some(s13) => Some(
                                                            (
                                                                TransactionV {
                                                                    kind,
                                                                    freq,
                                                                    name,
                                                                    amount: amount as u64,
                                                                    category,
                                                                    account,
                                                                },
                                                                s13,
                                                            ),
                                                        ),
                                                    },
                                                },
                                            },
                                        },
                                    },
                                },
                            },
                        },
                    },
                },
            },
        },
    }
}

/// Consumes one member: the key must repeat the record's own name.
pub open spec fn sp_entry(s: Seq<char>) -> Option<(TransactionV, Seq<char>)> {
    match sp_string(s) {
        None => None,
        Some((key, s1)) => match sp_lit(s1, seq![':']) {
            None => None,
            Some(s2) => match sp_tx(s2) {
                None => None,
                Some((t, s3)) => if t.name == key {
                    Some((t, s3))
                } else {
                    None
                },
            },
        },
    }
}

/// Consumes a non-empty member list. A member is never empty, so what
/// remains after one is strictly shorter; the length test writes that
/// down where the recursion needs it.
pub open spec fn sp_entries(s: Seq<char>) -> Option<(Seq<TransactionV>, Seq<char>)>
    decreases s.len(),
{
    match sp_entry(s) {
        None => None,
        Some((t, r)) => if r.len() >= s.len() {
            None
        } else if r.len() > 0 && r[0] == ',' {
            match sp_entries(r.drop_first()) {
                Some((ts, r2)) => Some((seq![t] + ts, r2)),
                None => None,
            }
        } else {
            Some((seq![t], r))
        },
    }
}

/// What a whole text denotes: a ledger, or nothing.
pub open spec fn sp_ledger(s: Seq<char>) -> Option<Seq<TransactionV>> {
    if s.len() == 0 || s[0] != '{' {
        None
    } else {
        let t = s.drop_first();
        if t.len() > 0 && t[0] == '}' {
            if t.len() == 1 {
                Some(Seq::empty())
            } else {
                None
            }
        } else {
            match sp_entries(t) {
                Some((ts, r)) => if r.len() == 1 && r[0] == '}' {
                    Some(ts)
                } else {
                    None
                },
                None => None,
            }
        }
    }
}

// ---------------------------------------------------------------------
// Round trip: the parser undoes the encoder.
// ---------------------------------------------------------------------
/// A literal consumes itself.
proof fn lemma_sp_lit_enc(p: Seq<char>, rest: Seq<char>)
    ensures
        sp_lit(p + rest, p) == Some(rest),
{
    assert((p + rest).take(p.len() as int) =~= p);
    assert((p + rest).skip(p.len() as int) =~= rest);
}

/// Escaping keeps the first character's escape at the front.
proof fn lemma_esc_first(v: Seq<char>)
    requires
        v.len() > 0,
    ensures
        esc(v) == esc_char(v[0]) + esc(v.drop_first()),
    decreases v.len(),
{
    if v.len() == 1 {
        assert(v.drop_last() =~= Seq::<char>::empty());
        assert(v.drop_first() =~= Seq::<char>::empty());
        assert(esc(Seq::<char>::empty()) == Seq::<char>::empty());
        assert(v.last() == v[0]);
        assert(esc(v) =~= esc_char(v[0]) + esc(v.drop_first()));
    } else {
        let dl = v.drop_last();
        assert(dl[0] == v[0]);
        lemma_esc_first(dl);
        assert(dl.drop_first() =~= v.drop_first().drop_last());
        assert(v.drop_first().last() == v.last());
        assert(esc(v) == esc(dl) + esc_char(v.last()));
        assert(esc(v.drop_first()) == esc(v.drop_first().drop_last()) + esc_char(
            v.drop_first().last(),
        ));
        assert(esc(v) =~= esc_char(v[0]) + esc(v.drop_first()));
    }
}

/// A string body parses back to the characters it was made from.
proof fn lemma_sp_strbody_enc(v: Seq<char>, rest: Seq<char>)
    ensures
        sp_strbody(esc(v) + seq!['"'] + rest) == Some((v, rest)),
    decreases v.len(),
{
    let s = esc(v) + seq!['"'] + rest;
    if v.len() == 0 {
        assert(esc(v) == Seq::<char>::empty());
        assert(s =~= seq!['"'] + rest);
        assert(s[0] == '"');
        assert(s.drop_first() =~= rest);
    } else {
        let c = v[0];
        lemma_esc_first(v);
        assert(s =~= esc_char(c) + (esc(v.drop_first()) + seq!['"'] + rest));
        let tail = esc(v.drop_first()) + seq!['"'] + rest;
        lemma_sp_strbody_enc(v.drop_first(), rest);
        if c == '"' {
            assert(esc_char(c) == seq!['\\', '"']);
            assert(s[0] == '\\');
            assert(s[1] == '"');
            assert(s.skip(2) =~= tail);
            assert(seq![s[1]] + v.drop_first() =~= v);
        } else if c == '\\' {
            assert(esc_char(c) == seq!['\\', '\\']);
            assert(s[0] == '\\');
            assert(s[1] == '\\');
            assert(s.skip(2) =~= tail);
            assert(seq![s[1]] + v.drop_first() =~= v);
        } else {
            assert(esc_char(c) == seq![c]);
            assert(s[0] == c);
            assert(s.drop_first() =~= tail);
            assert(seq![s[0]] + v.drop_first() =~= v);
        }
    }
}

/// A string literal parses back to the string it encodes.
proof fn lemma_sp_string_enc(v: Seq<char>, rest: Seq<char>)
    ensures
        sp_string(enc_str(v) + rest) == Some((v, rest)),
{
    let s = enc_str(v) + rest;
    assert(s[0] == '"');
    assert(s.drop_first() =~= esc(v) + seq!['"'] + rest);
    lemma_sp_strbody_enc(v, rest);
}

/// Digits parse back to the number they render, as long as the whole
/// value stays in range.
proof fn lemma_sp_digits_enc(ds: Seq<char>, acc: int, rest: Seq<char>)
    requires
        all_digits(ds),
        acc >= 0,
        rest.len() == 0 || !is_digit(rest[0]),
        acc * pow10(ds.len()) + digits_val(ds) <= MAX_CENTS,
    ensures
        sp_digits(ds + rest, acc) == Some((acc * pow10(ds.len()) + digits_val(ds), rest)),
    decreases ds.len(),
{
    let s = ds + rest;
    if ds.len() == 0 {
        assert(s =~= rest);
        assert(digits_val(ds) == 0);
    } else {
        assert(s[0] == ds[0]);
        assert(is_digit(s[0]));
        let d = digit_val(ds[0]);
        let a2 = acc * 10 + d;
        let n1 = (ds.len() - 1) as nat;
        lemma_digits_val_front(ds);
        lemma_pow10_pos(n1);
        assert(pow10(ds.len()) == 10 * pow10(n1));
        assert(acc * (10 * pow10(n1)) + d * pow10(n1) == a2 * pow10(n1)) by (nonlinear_arith)
            requires
                a2 == acc * 10 + d,
        ;
        assert(all_digits(ds.drop_first())) by {
            assert(forall|i: int|
                0 <= i < ds.drop_first().len() ==> ds.drop_first()[i] == ds[i + 1]);
        }
        lemma_digits_val_nonneg(ds.drop_first());
        assert(a2 * pow10(n1) + digits_val(ds.drop_first()) <= MAX_CENTS);
        assert(a2 <= a2 * pow10(n1)) by (nonlinear_arith)
            requires
                a2 >= 0,
                pow10(n1) >= 1,
        ;
        assert(a2 <= MAX_CENTS);
        assert(s.drop_first() =~= ds.drop_first() + rest);
        lemma_sp_digits_enc(ds.drop_first(), a2, rest);
    }
}

/// An amount parses back to the value it renders.
proof fn lemma_sp_amount_enc(n: int, rest: Seq<char>)
    requires
        0 <= n <= MAX_CENTS,
        rest.len() == 0 || !is_digit(rest[0]),
    ensures
        sp_amount(dec_digits(n) + rest) == Some((n, rest)),
{
    lemma_digits_val_of_dec_digits(n);
    let ds = dec_digits(n);
    assert(ds.len() > 0);
    assert((ds + rest)[0] == ds[0]);
    assert(is_digit(ds[0]));
    assert(0 * pow10(ds.len()) == 0) by (nonlinear_arith);
    lemma_sp_digits_enc(ds, 0, rest);
}

/// A kind parses back.
proof fn lemma_sp_kind_enc(k: Kind, rest: Seq<char>)
    ensures
        sp_kind(enc_str(kind_text(k)) + rest) == Some((k, rest)),
{
    lemma_sp_string_enc(kind_text(k), rest);
    assert(kind_text(Kind::Income).len() == 6);
    assert(kind_text(Kind::Expense).len() == 7);
}

/// A frequency parses back.
proof fn lemma_sp_freq_enc(f: Frequency, rest: Seq<char>)
    ensures
        sp_freq(enc_str(freq_text(f)) + rest) == Some((f, rest)),
{
    lemma_sp_string_enc(freq_text(f), rest);
    assert(freq_text(Frequency::Daily).len() == 5);
    assert(freq_text(Frequency::Workdays).len() == 8);
    assert(freq_text(Frequency::Weekly).len() == 6);
    assert(freq_text(Frequency::Monthly).len() == 7);
    assert(freq_text(Frequency::Quarterly).len() == 9);
    assert(freq_text(Frequency::Yearly).len() == 6);
    assert(freq_text(Frequency::Weekly)[0] == 'w');
    assert(freq_text(Frequency::Yearly)[0] == 'y');
}

/// An optional string parses back.
proof fn lemma_sp_opt_enc(o: Option<Seq<char>>, rest: Seq<char>)
    ensures
        sp_opt(enc_opt(o) + rest) == Some((o, rest)),
{
    let s = enc_opt(o) + rest;
    match o {
        None => {
            assert(s.take(4) =~= null_lit());
            assert(s.skip(4) =~= rest);
        },
        Some(v) => {
            assert(s[0] == '"');
            if starts_with(s, null_lit()) {
                assert(s.take(4)[0] == s[0]);
                assert(null_lit()[0] == 'n');
            }
            assert(!starts_with(s, null_lit()));
            lemma_sp_string_enc(v, rest);
        },
    }
}

/// A record parses back to the transaction it encodes.
#[verifier::rlimit(100)]
#[verifier::spinoff_prover]
proof fn lemma_sp_tx_enc(t: TransactionV, rest: Seq<char>)
    requires
        t.wf(),
    ensures
        sp_tx(enc_tx(t) + rest) == Some((t, rest)),
{
    let r12 = seq!['}'] + rest;
    let r11 = enc_opt(t.account) + r12;
    let r10 = key_account() + r11;
    let r9 = enc_opt(t.category) + r10;
    let r8 = key_category() + r9;
    let r7 = dec_digits(t.amount as int) + r8;
    let r6 = key_amount() + r7;
    let r5 = enc_str(t.name) + r6;
    let r4 = key_name() + r5;
    let r3 = enc_str(freq_text(t.freq)) + r4;
    let r2 = key_freq() + r3;
    let r1 = enc_str(kind_text(t.kind)) + r2;
    let s = key_kind() + r1;
    assert(enc_tx(t) + rest =~= s);
    lemma_sp_lit_enc(key_kind(), r1);
    lemma_sp_kind_enc(t.kind, r2);
    lemma_sp_lit_enc(key_freq(), r3);
    lemma_sp_freq_enc(t.freq, r4);
    lemma_sp_lit_enc(key_name(), r5);
    lemma_sp_string_enc(t.name, r6);
    lemma_sp_lit_enc(key_amount(), r7);
    assert(r8[0] == ',');
    lemma_sp_amount_enc(t.amount as int, r8);
    lemma_sp_lit_enc(key_category(), r9);
    lemma_sp_opt_enc(t.category, r10);
    lemma_sp_lit_enc(key_account(), r11);
    lemma_sp_opt_enc(t.account, r12);
    lemma_sp_lit_enc(seq!['}'], rest);
    assert(sp_lit(r12, seq!['}']) == Some(rest));
}

/// A member parses back to its transaction.
proof fn lemma_sp_entry_enc(t: TransactionV, rest: Seq<char>)
    requires
        t.wf(),
    ensures
        sp_entry(enc_entry(t) + rest) == Some((t, rest)),
{
    let r2 = enc_tx(t) + rest;
    let r1 = seq![':'] + r2;
    let s = enc_str(t.name) + r1;
    assert(enc_entry(t) + rest =~= s);
    lemma_sp_string_enc(t.name, r1);
    lemma_sp_lit_enc(seq![':'], r2);
    lemma_sp_tx_enc(t, rest);
}

/// A member list parses back, up to the closing brace that follows it.
proof fn lemma_sp_entries_enc(lv: Seq<TransactionV>, rest: Seq<char>)
    requires
        lv.len() >= 1,
        forall|i: int| 0 <= i < lv.len() ==> (#[trigger] lv[i]).wf(),
        rest.len() > 0,
        rest[0] == '}',
    ensures
        sp_entries(enc_entries(lv) + rest) == Some((lv, rest)),
    decreases lv.len(),
{
    assert(enc_str(lv[0].name).len() >= 2);
    if lv.len() == 1 {
        let s = enc_entries(lv) + rest;
        assert(s =~= enc_entry(lv[0]) + rest);
        lemma_sp_entry_enc(lv[0], rest);
        assert(s.len() == enc_entry(lv[0]).len() + rest.len());
        assert(enc_entry(lv[0]).len() >= 2);
        assert(rest.len() < s.len());
        assert(seq![lv[0]] =~= lv);
    } else {
        let tail = lv.drop_first();
        assert(forall|i: int| 0 <= i < tail.len() ==> tail[i] == lv[i + 1]);
        let r = seq![','] + (enc_entries(tail) + rest);
        let s = enc_entry(lv[0]) + r;
        assert(enc_entries(lv) + rest =~= s);
        lemma_sp_entry_enc(lv[0], r);
        assert(s.len() == enc_entry(lv[0]).len() + r.len());
        assert(enc_entry(lv[0]).len() >= 2);
        assert(r.len() < s.len());
        assert(r[0] == ',');
        assert(r.drop_first() =~= enc_entries(tail) + rest);
        lemma_sp_entries_enc(tail, rest);
        assert(seq![lv[0]] + tail =~= lv);
    }
}

/// Round trip: parsing an encoded ledger gives back exactly the entries
/// that were encoded, in their order. With `decode` and `encode` holding
/// their contracts, loading a saved ledger returns it unchanged.
pub proof fn lemma_parse_of_encode(lv: Seq<TransactionV>)
    requires
        forall|i: int| 0 <= i < lv.len() ==> (#[trigger] lv[i]).wf(),
    ensures
        sp_ledger(enc_ledger(lv)) == Some(lv),
{
    let s = enc_ledger(lv);
    assert(s[0] == '{');
    let t = s.drop_first();
    assert(t =~= enc_entries(lv) + seq!['}']);
    if lv.len() == 0 {
        assert(enc_entries(lv) == Seq::<char>::empty());
        assert(t =~= seq!['}']);
        assert(sp_ledger(s) == Some(Seq::<TransactionV>::empty()));
        assert(Seq::<TransactionV>::empty() =~= lv);
    } else {
        assert(enc_entries(lv)[0] == '"') by {
            assert(enc_str(lv[0].name)[0] == '"');
            if lv.len() == 1 {
                assert(enc_entries(lv) == enc_entry(lv[0]));
            }
            assert(enc_entry(lv[0])[0] == enc_str(lv[0].name)[0]);
        }
        assert(t[0] == '"');
        lemma_sp_entries_enc(lv, seq!['}']);
        assert(sp_entries(t) == Some((lv, seq!['}'])));
    }
}

// ---------------------------------------------------------------------
// The executable encoder.
// ---------------------------------------------------------------------
/// The text of a kind, as a string slice.
fn kind_str(k: Kind) -> (r: &'static str)
    ensures
        r@ == kind_text(k),
{
    proof {
        reveal_strlit("income");
        reveal_strlit("expense");
        assert(("income"@) =~= kind_text(Kind::Income));
        assert(("expense"@) =~= kind_text(Kind::Expense));
    }
    match k {
        Kind::Income => "income",
        Kind::Expense => "expense",
    }
}

/// The text of a frequency, as a string slice.
fn freq_str(f: Frequency) -> (r: &'static str)
    ensures
        r@ == freq_text(f),
{
    proof {
        reveal_strlit("daily");
        reveal_strlit("workdays");
        reveal_strlit("weekly");
        reveal_strlit("monthly");
        reveal_strlit("quarterly");
        reveal_strlit("yearly");
        assert(("daily"@) =~= freq_text(Frequency::Daily));
        assert(("workdays"@) =~= freq_text(Frequency::Workdays));
        assert(("weekly"@) =~= freq_text(Frequency::Weekly));
        assert(("monthly"@) =~= freq_text(Frequency::Monthly));
        assert(("quarterly"@) =~= freq_text(Frequency::Quarterly));
        assert(("yearly"@) =~= freq_text(Frequency::Yearly));
    }
    match f {
        Frequency::Daily => "daily",
        Frequency::Workdays => "workdays",
        Frequency::Weekly => "weekly",
        Frequency::Monthly => "monthly",
        Frequency::Quarterly => "quarterly",
        Frequency::Yearly => "yearly",
    }
}

/// Appends the JSON string literal that encodes `s`.
fn append_string_enc(out: &mut String, s: &str)
    ensures
        final(out)@ == old(out)@ + enc_str(s@),
{
    push_char(out, '"');
    let cs = str_to_chars(s);
    let n = cs.len();
    let mut i: usize = 0;
    proof {
        assert(esc(s@.take(0)) == Seq::<char>::empty());
        assert(out@ =~= old(out)@ + seq!['"'] + esc(s@.take(0)));
    }
    while i < n
        invariant
            i <= n,
            n == s@.len(),
            cs@ == s@,
            out@ == old(out)@ + seq!['"'] + esc(s@.take(i as int)),
        decreases n - i,
    {
        let c = cs[i];
        if c == '"' {
            push_char(out, '\\');
            push_char(out, '"');
        } else if c == '\\' {
            push_char(out, '\\');
            push_char(out, '\\');
        } else {
            push_char(out, c);
        }
        proof {
            assert(s@.take(i + 1 as int).drop_last() =~= s@.take(i as int));
            assert(s@.take(i + 1 as int).last() == s@[i as int]);
            assert(out@ =~= old(out)@ + seq!['"'] + esc(s@.take(i + 1 as int)));
        }
        i = i + 1;
    }
    push_char(out, '"');
    proof {
        assert(s@.take(n as int) =~= s@);
        assert(out@ =~= old(out)@ + enc_str(s@));
    }
}

/// Appends the encoding of an optional string field.
fn append_opt_enc(out: &mut String, o: &Option<String>)
    ensures
        final(out)@ == old(out)@ + enc_opt(
            match o {
                Some(c) => Some(c@),
                None => None,
            },
        ),
{
    match o {
        None => {
            out.append("null");
            proof {
                reveal_strlit("null");
                assert(("null"@) =~= null_lit());
            }
        },
        Some(c) => {
            append_string_enc(out, c.as_str());
        },
    }
}

/// Appends the record that encodes `t`.
#[verifier::rlimit(100)]
#[verifier::spinoff_prover]
fn append_tx_enc(out: &mut String, t: &Transaction)
    ensures
        final(out)@ == old(out)@ + enc_tx(t@),
{
    proof {
        reveal_strlit("{\"kind\":");
        reveal_strlit(",\"frequency\":");
        reveal_strlit(",\"name\":");
        reveal_strlit(",\"amount\":");
        reveal_strlit(",\"category\":");
        reveal_strlit(",\"account\":");
        assert(("{\"kind\":"@) =~= key_kind());
        assert((",\"frequency\":"@) =~= key_freq());
        assert((",\"name\":"@) =~= key_name());
        assert((",\"amount\":"@) =~= key_amount());
        assert((",\"category\":"@) =~= key_category());
        assert((",\"account\":"@) =~= key_account());
    }
    out.append("{\"kind\":");
    append_string_enc(out, kind_str(t.kind));
    out.append(",\"frequency\":");
    append_string_enc(out, freq_str(t.freq));
    out.append(",\"name\":");
    append_string_enc(out, t.name.as_str());
    out.append(",\"amount\":");
    let am = crate::money::dec_string(t.amount.cents as u128);
    out.append(am.as_str());
    out.append(",\"category\":");
    append_opt_enc(out, &t.category);
    out.append(",\"account\":");
    append_opt_enc(out, &t.account);
    push_char(out, '}');
    proof {
        assert(out@ =~= old(out)@ + enc_tx(t@));
    }
}

/// Splitting a member list splits its encoding at a comma.
proof fn lemma_enc_entries_split(a: Seq<TransactionV>, b: Seq<TransactionV>)
    requires
        a.len() > 0,
        b.len() > 0,
    ensures
        enc_entries(a + b) == enc_entries(a) + seq![','] + enc_entries(b),
    decreases a.len(),
{
    if a.len() == 1 {
        assert((a + b)[0] == a[0]);
        assert((a + b).drop_first() =~= b);
        assert(enc_entries(a) == enc_entry(a[0]));
        assert(enc_entries(a + b) =~= enc_entries(a) + seq![','] + enc_entries(b));
    } else {
        let a1 = a.drop_first();
        assert((a + b)[0] == a[0]);
        assert((a + b).drop_first() =~= a1 + b);
        lemma_enc_entries_split(a1, b);
        assert(enc_entries(a + b) == enc_entry(a[0]) + seq![','] + enc_entries(a1 + b));
        assert(enc_entries(a) == enc_entry(a[0]) + seq![','] + enc_entries(a1));
        assert(enc_entries(a + b) =~= enc_entries(a) + seq![','] + enc_entries(b));
    }
}

/// Writes the canonical text of a ledger: the JSON object that maps each
/// entry's name to its record, in the ledger's own entry order.
pub fn encode(l: &Ledger) -> (r: String)
    ensures
        r@ == enc_ledger(l@),
{
    let mut out = String::new();
    push_char(&mut out, '{');
    let n = l.entries.len();
    let mut k: usize = 0;
    proof {
        assert(out@ =~= seq!['{'] + enc_entries(l@.take(0)));
    }
    while k < n
        invariant
            k <= n,
            n == l.entries@.len(),
            l@.len() == l.entries@.len(),
            out@ == seq!['{'] + enc_entries(l@.take(k as int)),
        decreases n - k,
    {
        let ghost pre = out@;
        if k > 0 {
            push_char(&mut out, ',');
        }
        let tx = &l.entries[k];
        append_string_enc(&mut out, tx.name.as_str());
        push_char(&mut out, ':');
        append_tx_enc(&mut out, tx);
        proof {
            let t = l@[k as int];
            assert(tx@ == t);
            assert(l@.take(k + 1 as int) =~= l@.take(k as int).push(t));
            if k == 0 {
                assert(l@.take(1) =~= seq![t]);
                assert(enc_entries(seq![t]) == enc_entry(t));
                assert(out@ =~= seq!['{'] + enc_entries(l@.take(1)));
            } else {
                lemma_enc_entries_split(l@.take(k as int), seq![t]);
                assert(l@.take(k as int) + seq![t] =~= l@.take(k + 1 as int));
                assert(enc_entries(seq![t]) == enc_entry(t));
                assert(out@ =~= seq!['{'] + enc_entries(l@.take(k + 1 as int)));
            }
        }
        k = k + 1;
    }
    push_char(&mut out, '}');
    proof {
        assert(l@.take(n as int) =~= l@);
        assert(out@ =~= enc_ledger(l@));
    }
    out
}

// ---------------------------------------------------------------------
// The executable parser.
// ---------------------------------------------------------------------
/// A parse result with `p` put back in front of the parsed characters.
pub open spec fn prepend_parse(p: Seq<char>, o: Option<(Seq<char>, Seq<char>)>) -> Option<
    (Seq<char>, Seq<char>),
> {
    match o {
        Some((v, r)) => Some((p + v, r)),
        None => None,
    }
}

/// Prepending nothing changes nothing.
proof fn lemma_prepend_empty(o: Option<(Seq<char>, Seq<char>)>)
    ensures
        prepend_parse(Seq::empty(), o) == o,
{
    match o {
        Some((v, r)) => {
            assert(Seq::empty() + v =~= v);
        },
        None => {},
    }
}

/// Prepending composes by concatenation.
proof fn lemma_prepend_compose(a: Seq<char>, b: Seq<char>, o: Option<(Seq<char>, Seq<char>)>)
    ensures
        prepend_parse(a, prepend_parse(b, o)) == prepend_parse(a + b, o),
{
    match o {
        Some((v, r)) => {
            assert(a + (b + v) =~= (a + b) + v);
        },
        None => {},
    }
}

/// Reads a string literal starting at `i`; on success returns its
/// characters and the position just past the closing quote.
fn parse_string(cs: &Vec<char>, i: usize) -> (r: Option<(String, usize)>)
    requires
        i <= cs.len(),
    ensures
        (match r {
            Some(p) => i < p.1 <= cs.len() && sp_string(cs@.skip(i as int)) == Some(
                (p.0@, cs@.skip(p.1 as int)),
            ),
            None => sp_string(cs@.skip(i as int)) is None,
        }),
{
    let n = cs.len();
    if i == n || cs[i] != '"' {
        proof {
            if i < n {
                assert(cs@.skip(i as int)[0] == cs@[i as int]);
            }
            assert(cs@.skip(i as int).len() == n - i);
        }
        return None;
    }
    proof {
        assert(cs@.skip(i as int)[0] == '"');
        assert(cs@.skip(i as int).drop_first() =~= cs@.skip(i + 1 as int));
    }
    let mut j: usize = i + 1;
    let mut out = String::new();
    proof {
        lemma_prepend_empty(sp_strbody(cs@.skip(i + 1 as int)));
    }
    while j < n
        invariant
            i < j <= n,
            n == cs.len(),
            cs@[i as int] == '"',
            sp_strbody(cs@.skip(i + 1 as int)) == prepend_parse(
                out@,
                sp_strbody(cs@.skip(j as int)),
            ),
        decreases n - j,
    {
        let c = cs[j];
        proof {
            assert(cs@.skip(j as int)[0] == cs@[j as int]);
            assert(cs@.skip(j as int).len() == n - j);
        }
        if c == '"' {
            proof {
                assert(cs@.skip(j as int).drop_first() =~= cs@.skip(j + 1 as int));
                assert(out@ + Seq::<char>::empty() =~= out@);
                assert(cs@.skip(i as int)[0] == '"');
                assert(cs@.skip(i as int).drop_first() =~= cs@.skip(i + 1 as int));
            }
            return Some((out, j + 1));
        } else if c == '\\' {
            if j + 1 == n {
                proof {
                    assert(cs@.skip(i as int)[0] == '"');
                    assert(cs@.skip(i as int).drop_first() =~= cs@.skip(i + 1 as int));
                }
                return None;
            }
            let c2 = cs[j + 1];
            proof {
                assert(cs@.skip(j as int)[1] == cs@[j + 1 as int]);
            }
            if c2 == '"' || c2 == '\\' {
                proof {
                    assert(cs@.skip(j as int).skip(2) =~= cs@.skip(j + 2 as int));
                    assert(sp_strbody(cs@.skip(j as int)) == prepend_parse(
                        seq![c2],
                        sp_strbody(cs@.skip(j + 2 as int)),
                    ));
                    lemma_prepend_compose(out@, seq![c2], sp_strbody(cs@.skip(j + 2 as int)));
                    assert(out@ + seq![c2] =~= out@.push(c2));
                }
                push_char(&mut out, c2);
                j = j + 2;
            } else {
                proof {
                    assert(cs@.skip(i as int)[0] == '"');
                    assert(cs@.skip(i as int).drop_first() =~= cs@.skip(i + 1 as int));
                }
                return None;
            }
        } else {
            proof {
                assert(cs@.skip(j as int).drop_first() =~= cs@.skip(j + 1 as int));
                assert(sp_strbody(cs@.skip(j as int)) == prepend_parse(
                    seq![c],
                    sp_strbody(cs@.skip(j + 1 as int)),
                ));
                lemma_prepend_compose(out@, seq![c], sp_strbody(cs@.skip(j + 1 as int)));
                assert(out@ + seq![c] =~= out@.push(c));
            }
            push_char(&mut out, c);
            j = j + 1;
        }
    }
    proof {
        assert(cs@.skip(j as int).len() == 0);
        assert(cs@.skip(i as int)[0] == '"');
        assert(cs@.skip(i as int).drop_first() =~= cs@.skip(i + 1 as int));
    }
    None
}

/// Reads a run of digits starting at `i`, as a cent value.
fn parse_amount(cs: &Vec<char>, i: usize) -> (r: Option<(u64, usize)>)
    requires
        i <= cs.len(),
    ensures
        (match r {
            Some(p) => i < p.1 <= cs.len() && p.0 <= MAX_CENTS && sp_amount(cs@.skip(i as int))
                == Some((p.0 as int, cs@.skip(p.1 as int))),
            None => sp_amount(cs@.skip(i as int)) is None,
        }),
{
    let n = cs.len();
    if i == n || (cs[i] as u32) < ('0' as u32) || (cs[i] as u32) > ('9' as u32) {
        proof {
            if i < n {
                assert(cs@.skip(i as int)[0] == cs@[i as int]);
            }
            assert(cs@.skip(i as int).len() == n - i);
        }
        return None;
    }
    proof {
        assert(cs@.skip(i as int)[0] == cs@[i as int]);
    }
    let mut j: usize = i;
    let mut acc: u64 = 0;
    while j < n && (cs[j] as u32) >= ('0' as u32) && (cs[j] as u32) <= ('9' as u32)
        invariant
            i <= j <= n,
            n == cs.len(),
            i < n,
            is_digit(cs@[i as int]),
            acc <= MAX_CENTS,
            sp_amount(cs@.skip(i as int)) == sp_digits(cs@.skip(j as int), acc as int),
        decreases n - j,
    {
        let d: u32 = cs[j] as u32 - '0' as u32;
        proof {
            assert(cs@.skip(j as int)[0] == cs@[j as int]);
            assert(cs@.skip(j as int).len() == n - j);
            assert(digit_val(cs@[j as int]) == d);
        }
        let a2: u64 = acc * 10 + (d as u64);
        if a2 > MAX_CENTS {
            return None;
        }
        proof {
            assert(cs@.skip(j as int).drop_first() =~= cs@.skip(j + 1 as int));
        }
        acc = a2;
        j = j + 1;
    }
    proof {
        assert(cs@.skip(j as int).len() == n - j);
        if j < n {
            assert(cs@.skip(j as int)[0] == cs@[j as int]);
        }
        assert(sp_digits(cs@.skip(j as int), acc as int) == Some(
            (acc as int, cs@.skip(j as int)),
        ));
    }
    Some((acc, j))
}

/// Reads the exact characters of `lit` starting at `i`.
fn parse_lit(cs: &Vec<char>, i: usize, lit: &Vec<char>) -> (r: Option<usize>)
    requires
        i <= cs.len(),
    ensures
        (match r {
            Some(j) => i <= j <= cs.len() && j == i + lit@.len() && sp_lit(
                cs@.skip(i as int),
                lit@,
            ) == Some(cs@.skip(j as int)),
            None => sp_lit(cs@.skip(i as int), lit@) is None,
        }),
{
    let n = cs.len();
    let m = lit.len();
    if n - i < m {
        proof {
            assert(cs@.skip(i as int).len() == n - i);
        }
        return None;
    }
    let mut k: usize = 0;
    while k < m
        invariant
            k <= m,
            m == lit@.len(),
            i + m <= n,
            n == cs.len(),
            forall|t: int| 0 <= t < k ==> cs@[i + t] == lit@[t],
        decreases m - k,
    {
        if cs[i + k] != lit[k] {
            proof {
                let s = cs@.skip(i as int);
                assert(s.take(m as int)[k as int] == cs@[i + k]);
            }
            return None;
        }
        k = k + 1;
    }
    proof {
        let s = cs@.skip(i as int);
        assert(s.take(m as int) =~= lit@) by {
            assert(forall|t: int| 0 <= t < m ==> s.take(m as int)[t] == cs@[i + t]);
        }
        assert(s.skip(m as int) =~= cs@.skip(i + m));
    }
    Some(i + m)
}

/// Reads a kind.
fn parse_kind(cs: &Vec<char>, i: usize) -> (r: Option<(Kind, usize)>)
    requires
        i <= cs.len(),
    ensures
        (match r {
            Some(p) => i < p.1 <= cs.len() && sp_kind(cs@.skip(i as int)) == Some(
                (p.0, cs@.skip(p.1 as int)),
            ),
            None => sp_kind(cs@.skip(i as int)) is None,
        }),
{
    proof {
        reveal_strlit("income");
        reveal_strlit("expense");
        assert(("income"@) =~= kind_text(Kind::Income));
        assert(("expense"@) =~= kind_text(Kind::Expense));
    }
    match parse_string(cs, i) {
        None => None,
        Some((w, j)) => {
            if w.eq(&("income".to_owned())) {
                Some((Kind::Income, j))
            } else if w.eq(&("expense".to_owned())) {
                Some((Kind::Expense, j))
            } else {
                None
            }
        },
    }
}

/// Reads a frequency.
fn parse_freq(cs: &Vec<char>, i: usize) -> (r: Option<(Frequency, usize)>)
    requires
        i <= cs.len(),
    ensures
        (match r {
            Some(p) => i < p.1 <= cs.len() && sp_freq(cs@.skip(i as int)) == Some(
                (p.0, cs@.skip(p.1 as int)),
            ),
            None => sp_freq(cs@.skip(i as int)) is None,
        }),
{
    proof {
        reveal_strlit("daily");
        reveal_strlit("workdays");
        reveal_strlit("weekly");
        reveal_strlit("monthly");
        reveal_strlit("quarterly");
        reveal_strlit("yearly");
        assert(("daily"@) =~= freq_text(Frequency::Daily));
        assert(("workdays"@) =~= freq_text(Frequency::Workdays));
        assert(("weekly"@) =~= freq_text(Frequency::Weekly));
        assert(("monthly"@) =~= freq_text(Frequency::Monthly));
        assert(("quarterly"@) =~= freq_text(Frequency::Quarterly));
        assert(("yearly"@) =~= freq_text(Frequency::Yearly));
    }
    match parse_string(cs, i) {
        None => None,
        Some((w, j)) => {
            if w.eq(&("daily".to_owned())) {
                Some((Frequency::Daily, j))
            } else if w.eq(&("workdays".to_owned())) {
                Some((Frequency::Workdays, j))
            } else if w.eq(&("weekly".to_owned())) {
                Some((Frequency::Weekly, j))
            } else if w.eq(&("monthly".to_owned())) {
                Some((Frequency::Monthly, j))
            } else if w.eq(&("quarterly".to_owned())) {
                Some((Frequency::Quarterly, j))
            } else if w.eq(&("yearly".to_owned())) {
                Some((Frequency::Yearly, j))
            } else {
                None
            }
        },
    }
}

/// Reads an optional string: `null` or a string literal.
fn parse_opt(cs: &Vec<char>, i: usize) -> (r: Option<(Option<String>, usize)>)
    requires
        i <= cs.len(),
    ensures
        (match r {
            Some(p) => i < p.1 <= cs.len() && sp_opt(cs@.skip(i as int)) == Some(
                (
                    match p.0 {
                        Some(c) => Some(c@),
                        None => None,
                    },
                    cs@.skip(p.1 as int),
                ),
            ),
            None => sp_opt(cs@.skip(i as int)) is None,
        }),
{
    let nullv = str_to_chars("null");
    proof {
        reveal_strlit("null");
        assert(nullv@ =~= null_lit());
    }
    match parse_lit(cs, i, &nullv) {
        Some(j) => Some((None, j)),
        None => {
            match parse_string(cs, i) {
                None => None,
                Some((w, j)) => Some((Some(w), j)),
            }
        },
    }
}

/// Reads one record.
#[verifier::rlimit(100)]
#[verifier::spinoff_prover]
fn parse_tx(cs: &Vec<char>, i: usize) -> (r: Option<(Transaction, usize)>)
    requires
        i <= cs.len(),
    ensures
        (match r {
            Some(p) => i < p.1 <= cs.len() && p.0@.wf() && sp_tx(cs@.skip(i as int)) == Some(
                (p.0@, cs@.skip(p.1 as int)),
            ),
            None => sp_tx(cs@.skip(i as int)) is None,
        }),
{
    let k_kind = str_to_chars("{\"kind\":");
    let k_freq = str_to_chars(",\"frequency\":");
    let k_name = str_to_chars(",\"name\":");
    let k_amount = str_to_chars(",\"amount\":");
    let k_category = str_to_chars(",\"category\":");
    let k_account = str_to_chars(",\"account\":");
    let k_close = str_to_chars("}");
    proof {
        reveal_strlit("{\"kind\":");
        reveal_strlit(",\"frequency\":");
        reveal_strlit(",\"name\":");
        reveal_strlit(",\"amount\":");
        reveal_strlit(",\"category\":");
        reveal_strlit(",\"account\":");
        reveal_strlit("}");
        assert(k_kind@ =~= key_kind());
        assert(k_freq@ =~= key_freq());
        assert(k_name@ =~= key_name());
        assert(k_amount@ =~= key_amount());
        assert(k_category@ =~= key_category());
        assert(k_account@ =~= key_account());
        assert(k_close@ =~= seq!['}']);
    }
    let j1 = match parse_lit(cs, i, &k_kind) {
        Some(j) => j,
        None => {
            return None;
        },
    };
    let (kind, j2) = match parse_kind(cs, j1) {
        Some(p) => p,
        None => {
            return None;
        },
    };
    let j3 = match parse_lit(cs, j2, &k_freq) {
        Some(j) => j,
        None => {
            return None;
        },
    };
    let (freq, j4) = match parse_freq(cs, j3) {
        Some(p) => p,
        None => {
            return None;
        },
    };
    let j5 = match parse_lit(cs, j4, &k_name) {
        Some(j) => j,
        None => {
            return None;
        },
    };
    let (name, j6) = match parse_string(cs, j5) {
        Some(p) => p,
        None => {
            return None;
        },
    };
    let j7 = match parse_lit(cs, j6, &k_amount) {
        Some(j) => j,
        None => {
            return None;
        },
    };
    let (amount, j8) = match parse_amount(cs, j7) {
        Some(p) => p,
        None => {
            return None;
        },
    };
    let j9 = match parse_lit(cs, j8, &k_category) {
        Some(j) => j,
        None => {
            return None;
        },
    };
    let (category, j10) = match parse_opt(cs, j9) {
        Some(p) => p,
        None => {
            return None;
        },
    };
    let j11 = match parse_lit(cs, j10, &k_account) {
        Some(j) => j,
        None => {
            return None;
        },
    };
    let (account, j12) = match parse_opt(cs, j11) {
        Some(p) => p,
        None => {
            return None;
        },
    };
    let j13 = match parse_lit(cs, j12, &k_close) {
        Some(j) => j,
        None => {
            return None;
        },
    };
    let tx = Transaction { kind, freq, name, amount: Money { cents: amount }, category, account };
    Some((tx, j13))
}

/// Reads one member and checks that the key repeats the record's name.
fn parse_entry(cs: &Vec<char>, i: usize) -> (r: Option<(Transaction, usize)>)
    requires
        i <= cs.len(),
    ensures
        (match r {
            Some(p) => i < p.1 <= cs.len() && p.0@.wf() && sp_entry(cs@.skip(i as int)) == Some(
                (p.0@, cs@.skip(p.1 as int)),
            ),
            None => sp_entry(cs@.skip(i as int)) is None,
        }),
{
    let colon = str_to_chars(":");
    proof {
        reveal_strlit(":");
        assert(colon@ =~= seq![':']);
    }
    let (key, j1) = match parse_string(cs, i) {
        Some(p) => p,
        None => {
            return None;
        },
    };
    let j2 = match parse_lit(cs, j1, &colon) {
        Some(j) => j,
        None => {
            return None;
        },
    };
    let (tx, j3) = match parse_tx(cs, j2) {
        Some(p) => p,
        None => {
            return None;
        },
    };
    if tx.name.eq(&key) {
        Some((tx, j3))
    } else {
        None
    }
}

/// Reads a non-empty member list.
fn parse_entries(cs: &Vec<char>, i: usize) -> (r: Option<(Vec<Transaction>, usize)>)
    requires
        i <= cs.len(),
    ensures
        (match r {
            Some(p) => i < p.1 <= cs.len() && sp_entries(cs@.skip(i as int)) == Some(
                (txs_view(p.0@), cs@.skip(p.1 as int)),
            ) && (forall|k: int| 0 <= k < p.0@.len() ==> (#[trigger] p.0@[k]@).wf()),
            None => sp_entries(cs@.skip(i as int)) is None,
        }),
    decreases cs.len() - i,
{
    let n = cs.len();
    let (t, j) = match parse_entry(cs, i) {
        Some(p) => p,
        None => {
            return None;
        },
    };
    proof {
        assert(cs@.skip(i as int).len() == n - i);
        assert(cs@.skip(j as int).len() == n - j);
    }
    if j < n && cs[j] == ',' {
        proof {
            assert(cs@.skip(j as int)[0] == ',');
            assert(cs@.skip(j as int).drop_first() =~= cs@.skip(j + 1 as int));
        }
        let (mut rest, j2) = match parse_entries(cs, j + 1) {
            Some(p) => p,
            None => {
                return None;
            },
        };
        let ghost restv = rest@;
        let mut v: Vec<Transaction> = Vec::new();
        v.push(t);
        v.append(&mut rest);
        proof {
            assert(v@ =~= seq![t] + restv);
            assert(txs_view(v@) =~= seq![t@] + txs_view(restv));
        }
        Some((v, j2))
    } else {
        proof {
            if j < n {
                assert(cs@.skip(j as int)[0] == cs@[j as int]);
            }
        }
        let mut v: Vec<Transaction> = Vec::new();
        v.push(t);
        proof {
            assert(txs_view(v@) =~= seq![t@]);
        }
        Some((v, j))
    }
}

/// Whether two entries share a name.
fn find_dup(v: &Vec<Transaction>) -> (b: bool)
    ensures
        b == !unique_names(txs_view(v@)),
{
    let ghost w = txs_view(v@);
    let n = v.len();
    let mut a: usize = 0;
    while a < n
        invariant
            a <= n,
            n == v@.len(),
            w == txs_view(v@),
            forall|x: int, y: int| 0 <= x < y < n && x < a ==> w[x].name != w[y].name,
        decreases n - a,
    {
        let mut b: usize = a + 1;
        while b < n
            invariant
                a < n,
                a + 1 <= b <= n,
                n == v@.len(),
                w == txs_view(v@),
                forall|x: int, y: int| 0 <= x < y < n && x < a ==> w[x].name != w[y].name,
                forall|y: int| a < y < b ==> w[a as int].name != w[y].name,
            decreases n - b,
        {
            if v[a].name.eq(&v[b].name) {
                proof {
                    assert(w[a as int] == v@[a as int]@);
                    assert(w[b as int] == v@[b as int]@);
                    assert(!unique_names(w));
                }
                return true;
            }
            proof {
                assert(w[a as int] == v@[a as int]@);
                assert(w[b as int] == v@[b as int]@);
            }
            b = b + 1;
        }
        a = a + 1;
    }
    false
}

/// Reads a ledger from its canonical text. Returns the entries in the
/// order the text gives them, or nothing when the text is not a ledger
/// encoding or repeats a name.
pub fn decode(text: &str) -> (r: Option<Ledger>)
    ensures
        r is Some <==> (sp_ledger(text@) is Some && unique_names(sp_ledger(text@)->0)),
        r is Some ==> (r->0)@ == sp_ledger(text@)->0 && (r->0).wf(),
{
    let cs = str_to_chars(text);
    let n = cs.len();
    if n == 0 {
        return None;
    }
    if cs[0] != '{' {
        return None;
    }
    proof {
        assert(text@.drop_first() =~= cs@.skip(1));
        assert(cs@.skip(1).len() == n - 1);
        if n >= 2 {
            assert(cs@.skip(1)[0] == cs@[1]);
        }
    }
    if n >= 2 && cs[1] == '}' {
        if n == 2 {
            let l = Ledger::new();
            proof {
                assert(sp_ledger(text@) == Some(Seq::<TransactionV>::empty()));
                assert(unique_names(Seq::<TransactionV>::empty()));
            }
            return Some(l);
        }
        return None;
    }
    let (ts, j) = match parse_entries(&cs, 1) {
        Some(p) => p,
        None => {
            return None;
        },
    };
    if j < n && cs[j] == '}' && j + 1 == n {
        proof {
            assert(cs@.skip(j as int).len() == 1);
            assert(cs@.skip(j as int)[0] == '}');
            assert(sp_ledger(text@) == Some(txs_view(ts@)));
        }
        if find_dup(&ts) {
            return None;
        }
        let l = Ledger { entries: ts };
        proof {
            assert(l@ == txs_view(ts@));
            assert(l.wf());
        }
        Some(l)
    } else {
        proof {
            assert(cs@.skip(j as int).len() == n - j);
            if j < n {
                assert(cs@.skip(j as int)[0] == cs@[j as int]);
            }
        }
        None
    }
}

} // verus!
