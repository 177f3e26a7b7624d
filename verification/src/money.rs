//! Fixed-point currency values: an integer count of minor units (cents),
//! parsed from a decimal string and shown as `D...D.CC`.

use vstd::prelude::*;

verus! {

/// Largest cent count a `Money` may hold. The bound keeps every report
/// computation (a monthly extrapolation is at most 30 times an amount,
/// summed over at most `usize::MAX` entries) inside 128-bit arithmetic.
pub const MAX_CENTS: u64 = 99_999_999_999_999;

/// The decimal digit character for a value between 0 and 9.
pub open spec fn digit_char(d: int) -> char
    recommends
        0 <= d < 10,
{
    if d == 0 {
        '0'
    } else if d == 1 {
        '1'
    } else if d == 2 {
        '2'
    } else if d == 3 {
        '3'
    } else if d == 4 {
        '4'
    } else if d == 5 {
        '5'
    } else if d == 6 {
        '6'
    } else if d == 7 {
        '7'
    } else if d == 8 {
        '8'
    } else {
        '9'
    }
}

/// The decimal digits of `n`, most significant first, with no leading
/// zeros (`0` itself is the single digit `0`).
pub open spec fn dec_digits(n: int) -> Seq<char>
    recommends
        n >= 0,
    decreases n,
{
    if n < 10 {
        seq![digit_char(n)]
    } else {
        dec_digits(n / 10).push(digit_char(n % 10))
    }
}

/// Whether `c` is a decimal digit.
pub open spec fn is_digit(c: char) -> bool {
    '0' as u32 <= c as u32 <= '9' as u32
}

/// The value of a digit character.
pub open spec fn digit_val(c: char) -> int
    recommends
        is_digit(c),
{
    c as u32 - '0' as u32
}

/// The value of a sequence of digit characters, most significant first.
pub open spec fn digits_val(s: Seq<char>) -> int
    recommends
        all_digits(s),
    decreases s.len(),
{
    if s.len() == 0 {
        0
    } else {
        digits_val(s.drop_last()) * 10 + digit_val(s.last())
    }
}

/// Whether every character of `s` is a decimal digit.
pub open spec fn all_digits(s: Seq<char>) -> bool {
    forall|i: int| 0 <= i < s.len() ==> is_digit(s[i])
}

/// A digit character carries the value it was made from.
pub proof fn lemma_digit_char_val(d: int)
    requires
        0 <= d < 10,
    ensures
        is_digit(digit_char(d)),
        digit_val(digit_char(d)) == d,
{
}

/// Reading back the digits of `n` gives `n` again.
pub proof fn lemma_digits_val_of_dec_digits(n: int)
    requires
        n >= 0,
    ensures
        all_digits(dec_digits(n)),
        digits_val(dec_digits(n)) == n,
    decreases n,
{
    if n < 10 {
        lemma_digit_char_val(n);
        assert(dec_digits(n) =~= seq![digit_char(n)]);
        assert(dec_digits(n).drop_last() =~= Seq::<char>::empty());
        assert(digits_val(Seq::<char>::empty()) == 0);
        assert(digits_val(dec_digits(n)) == 0 * 10 + digit_val(digit_char(n)));
    } else {
        lemma_digits_val_of_dec_digits(n / 10);
        lemma_digit_char_val(n % 10);
        assert(dec_digits(n) == dec_digits(n / 10).push(digit_char(n % 10)));
        assert(dec_digits(n).drop_last() =~= dec_digits(n / 10));
        assert(dec_digits(n).last() == digit_char(n % 10));
        assert forall|i: int| 0 <= i < dec_digits(n).len() implies is_digit(dec_digits(n)[i]) by {
            if i < dec_digits(n / 10).len() {
                assert(dec_digits(n)[i] == dec_digits(n / 10)[i]);
            }
        }
    }
}

/// The digit character for `d`, as a one-character string slice.
fn digit_str(d: u64) -> (r: &'static str)
    requires
        d < 10,
    ensures
        r@ =~= seq![digit_char(d as int)],
{
    proof {
        reveal_strlit("0");
        reveal_strlit("1");
        reveal_strlit("2");
        reveal_strlit("3");
        reveal_strlit("4");
        reveal_strlit("5");
        reveal_strlit("6");
        reveal_strlit("7");
        reveal_strlit("8");
        reveal_strlit("9");
    }
    if d == 0 {
        "0"
    } else if d == 1 {
        "1"
    } else if d == 2 {
        "2"
    } else if d == 3 {
        "3"
    } else if d == 4 {
        "4"
    } else if d == 5 {
        "5"
    } else if d == 6 {
        "6"
    } else if d == 7 {
        "7"
    } else if d == 8 {
        "8"
    } else {
        "9"
    }
}

/// Whether every character of a prefix is a digit, and how long the
/// longest such prefix is.
pub open spec fn digits_prefix_len(s: Seq<char>) -> nat
    decreases s.len(),
{
    if s.len() > 0 && is_digit(s[0]) {
        1 + digits_prefix_len(s.drop_first())
    } else {
        0
    }
}

/// `digits_prefix_len` is the unique cut between a digit prefix and a
/// non-digit (or the end).
pub proof fn lemma_digits_prefix_len_is(s: Seq<char>, p: int)
    requires
        0 <= p <= s.len(),
        forall|j: int| 0 <= j < p ==> is_digit(s[j]),
        p == s.len() || !is_digit(s[p]),
    ensures
        digits_prefix_len(s) == p,
    decreases p,
{
    if p == 0 {
    } else {
        assert(is_digit(s[0]));
        lemma_digits_prefix_len_is(s.drop_first(), p - 1);
    }
}

/// The value of a digit sequence is never negative.
pub proof fn lemma_digits_val_nonneg(s: Seq<char>)
    requires
        all_digits(s),
    ensures
        digits_val(s) >= 0,
    decreases s.len(),
{
    if s.len() > 0 {
        assert(all_digits(s.drop_last()));
        lemma_digits_val_nonneg(s.drop_last());
    }
}

/// Ten to the `k`.
pub open spec fn pow10(k: nat) -> int
    decreases k,
{
    if k == 0 {
        1
    } else {
        10 * pow10((k - 1) as nat)
    }
}

/// Powers of ten are positive.
pub proof fn lemma_pow10_pos(k: nat)
    ensures
        pow10(k) >= 1,
    decreases k,
{
    if k > 0 {
        lemma_pow10_pos((k - 1) as nat);
    }
}

/// Splitting a digit sequence at the front: the leading digit weighs a
/// power of ten.
pub proof fn lemma_digits_val_front(ds: Seq<char>)
    requires
        ds.len() > 0,
        all_digits(ds),
    ensures
        digits_val(ds) == digit_val(ds[0]) * pow10((ds.len() - 1) as nat) + digits_val(
            ds.drop_first(),
        ),
    decreases ds.len(),
{
    if ds.len() == 1 {
        assert(ds.drop_last() =~= Seq::<char>::empty());
        assert(ds.drop_first() =~= Seq::<char>::empty());
        assert(digits_val(Seq::<char>::empty()) == 0);
        assert(digits_val(ds) == digit_val(ds[0]));
    } else {
        let dl = ds.drop_last();
        assert(all_digits(dl)) by {
            assert(forall|i: int| 0 <= i < dl.len() ==> dl[i] == ds[i]);
        }
        lemma_digits_val_front(dl);
        assert(dl.drop_first() =~= ds.drop_first().drop_last());
        assert(ds.drop_first().last() == ds.last());
        assert(dl[0] == ds[0]);
        let n = ds.len();
        let d0 = digit_val(ds[0]);
        let p = pow10((n - 2) as nat);
        assert(pow10((n - 1) as nat) == 10 * p);
        assert(digits_val(ds) == digits_val(dl) * 10 + digit_val(ds.last()));
        assert(digits_val(dl) == d0 * p + digits_val(ds.drop_first().drop_last()));
        assert((d0 * p + digits_val(ds.drop_first().drop_last())) * 10 == d0 * (10 * p)
            + digits_val(ds.drop_first().drop_last()) * 10) by (nonlinear_arith);
        assert(digits_val(ds.drop_first()) == digits_val(ds.drop_first().drop_last()) * 10
            + digit_val(ds.drop_first().last()));
    }
}

/// The decimal rendering of `n`, most significant digit first.
pub fn dec_string(n: u128) -> (r: String)
    ensures
        r@ == dec_digits(n as int),
    decreases n,
{
    if n < 10 {
        digit_str(n as u64).to_owned()
    } else {
        let mut s = dec_string(n / 10);
        s.append(digit_str((n % 10) as u64));
        proof {
            assert(s@ =~= dec_digits(n as int / 10).push(digit_char(n as int % 10)));
        }
        s
    }
}

/// The canonical text of a cent count `c`: the dollars without leading
/// zeros, a point, and exactly two cent digits.
pub open spec fn money_text(c: int) -> Seq<char>
    recommends
        c >= 0,
{
    dec_digits(c / 100) + seq!['.', digit_char((c % 100) / 10), digit_char(c % 10)]
}

/// The first two digits of a fraction, read as cents: a missing digit
/// counts as zero, digits past the second are truncated away.
pub open spec fn frac_cents(f: Seq<char>) -> int
    recommends
        all_digits(f),
{
    if f.len() == 0 {
        0
    } else if f.len() == 1 {
        digit_val(f[0]) * 10
    } else {
        digit_val(f[0]) * 10 + digit_val(f[1])
    }
}

/// A value capped at `MAX_CENTS`: anything larger is rejected.
pub open spec fn cap_cents(v: int) -> Option<int> {
    if v > MAX_CENTS {
        None
    } else {
        Some(v)
    }
}

/// What a decimal money string denotes, in cents: one or more integer
/// digits, then optionally a point and any run of fraction digits, of
/// which the first two count (multiply by 100 and truncate). Anything
/// else, or a value above `MAX_CENTS`, denotes nothing.
pub open spec fn money_parse(s: Seq<char>) -> Option<int> {
    let p = digits_prefix_len(s) as int;
    if p == 0 {
        None
    } else if p == s.len() {
        cap_cents(digits_val(s) * 100)
    } else if s[p] == '.' && all_digits(s.skip(p + 1)) {
        cap_cents(digits_val(s.take(p)) * 100 + frac_cents(s.skip(p + 1)))
    } else {
        None
    }
}

/// Renders a cent count as `D...D.CC`, cents zero-padded to two digits.
pub fn format_cents(cents: u128) -> (r: String)
    ensures
        r@ == money_text(cents as int),
{
    let dollars = cents / 100;
    let rem = cents % 100;
    let mut s = dec_string(dollars);
    s.append(".");
    s.append(digit_str((rem / 10) as u64));
    s.append(digit_str((cents % 10) as u64));
    proof {
        reveal_strlit(".");
        assert(("."@) =~= seq!['.']);
        assert(s@ =~= money_text(cents as int));
    }
    s
}

/// A currency amount: a non-negative count of cents, externally signed
/// by the transaction kind that carries it.
#[derive(Clone, Copy, PartialEq, Eq, Structural, Debug)]
pub struct Money {
    pub cents: u64,
}

impl Money {
    /// A stored amount stays within the range the report arithmetic is
    /// proved for.
    pub open spec fn wf(self) -> bool {
        self.cents <= MAX_CENTS
    }

    /// Renders the amount as `D...D.CC`, cents zero-padded to two digits.
    pub fn format(&self) -> (r: String)
        ensures
            r@ == money_text(self.cents as int),
    {
        format_cents(self.cents as u128)
    }

    /// Reads a decimal amount. Returns the cents it denotes, or `None`
    /// on text that is not a plain non-negative decimal number or that
    /// lies above `MAX_CENTS`.
    pub fn parse(text: &str) -> (r: Option<Money>)
        ensures
            match money_parse(text@) {
                Some(v) => r == Some(Money { cents: v as u64 }) && v <= MAX_CENTS,
                None => r is None,
            },
            r is Some ==> r->0.wf(),
    {
        let cs = crate::strings::str_to_chars(text);
        let ghost s = text@;
        let n = cs.len();
        let dollar_cap: u64 = MAX_CENTS / 100;
        let mut i: usize = 0;
        let mut acc: u64 = 0;
        let mut big = false;
        while i < n && (cs[i] as u32) >= ('0' as u32) && (cs[i] as u32) <= ('9' as u32)
            invariant
                0 <= i <= n,
                s == text@,
                n == s.len(),
                cs@ == s,
                dollar_cap == MAX_CENTS / 100,
                forall|j: int| 0 <= j < i ==> is_digit(s[j]),
                !big ==> acc == digits_val(s.take(i as int)) && acc <= dollar_cap,
                big ==> digits_val(s.take(i as int)) > dollar_cap,
            decreases n - i,
        {
            let d: u32 = cs[i] as u32 - '0' as u32;
            proof {
                assert(is_digit(s[i as int]));
                assert(s.take(i + 1 as int).drop_last() =~= s.take(i as int));
                assert(s.take(i + 1 as int).last() == s[i as int]);
                assert(digits_val(s.take(i + 1 as int)) == digits_val(s.take(i as int)) * 10
                    + digit_val(s[i as int]));
                if big {
                    assert(forall|j: int| 0 <= j < i ==> is_digit(s.take(i as int)[j]));
                    lemma_digits_val_nonneg(s.take(i as int));
                }
            }
            if !big {
                let a2: u64 = acc * 10 + (d as u64);
                if a2 > dollar_cap {
                    big = true;
                } else {
                    acc = a2;
                }
            }
            i = i + 1;
        }
        proof {
            lemma_digits_prefix_len_is(s, i as int);
        }
        if i == 0 {
            return None;
        }
        if i == n {
            proof {
                assert(s.take(i as int) =~= s);
            }
            if big {
                return None;
            }
            return Some(Money { cents: acc * 100 });
        }
        if cs[i] != '.' {
            return None;
        }
        assert(s[i as int] == '.');
        let mut j: usize = i + 1;
        while j < n
            invariant
                i + 1 <= j <= n,
                s == text@,
                n == s.len(),
                cs@ == s,
                1 <= i < n,
                digits_prefix_len(s) == i,
                forall|k: int| i + 1 <= k < j ==> is_digit(s[k]),
            decreases n - j,
        {
            let c = cs[j];
            if (c as u32) < ('0' as u32) || (c as u32) > ('9' as u32) {
                proof {
                    assert(s.skip(i + 1 as int)[j - i - 1] == s[j as int]);
                    assert(!all_digits(s.skip(i + 1 as int)));
                }
                return None;
            }
            j = j + 1;
        }
        proof {
            assert forall|k: int| 0 <= k < s.skip(i + 1 as int).len() implies is_digit(
                #[trigger] s.skip(i + 1 as int)[k],
            ) by {
                assert(s.skip(i + 1 as int)[k] == s[k + i + 1]);
            }
        }
        let mut fr: u64 = 0;
        if i + 1 < n {
            fr = (cs[i + 1] as u32 - '0' as u32) as u64 * 10;
            if i + 2 < n {
                fr = fr + (cs[i + 2] as u32 - '0' as u32) as u64;
            }
        }
        proof {
            assert(fr == frac_cents(s.skip(i + 1 as int)));
        }
        if big {
            return None;
        }
        Some(Money { cents: acc * 100 + fr })
    }
}

} // verus!
