//! Text building blocks shared by the ranking and the report layouts:
//! display names, whitespace trimming and decimal formatting of integers
//! and fixed-point values.
use vstd::prelude::*;
use vstd::string::*;

verus! {

/// The characters that `char::is_whitespace` accepts (Unicode `White_Space`).
pub open spec fn is_white_space(c: char) -> bool {
    ||| c == '\t'
    ||| c == '\n'
    ||| c == '\u{0B}'
    ||| c == '\u{0C}'
    ||| c == '\r'
    ||| c == ' '
    ||| c == '\u{85}'
    ||| c == '\u{A0}'
    ||| c == '\u{1680}'
    ||| ('\u{2000}' <= c && c <= '\u{200A}')
    ||| c == '\u{2028}'
    ||| c == '\u{2029}'
    ||| c == '\u{202F}'
    ||| c == '\u{205F}'
    ||| c == '\u{3000}'
}

/// `s` without its leading white space.
pub open spec fn trim_start(s: Seq<char>) -> Seq<char>
    decreases s.len(),
{
    if s.len() > 0 && is_white_space(s[0]) {
        trim_start(s.drop_first())
    } else {
        s
    }
}

/// `s` without its trailing white space.
pub open spec fn trim_end(s: Seq<char>) -> Seq<char>
    decreases s.len(),
{
    if s.len() > 0 && is_white_space(s.last()) {
        trim_end(s.drop_last())
    } else {
        s
    }
}

/// `s` without surrounding white space.
pub open spec fn trimmed(s: Seq<char>) -> Seq<char> {
    trim_end(trim_start(s))
}

/// The name shown for a candidate: `"{last}, {first} {middle}"`, trimmed.
pub open spec fn display_name(first: Seq<char>, middle: Seq<char>, last: Seq<char>) -> Seq<char> {
    trimmed(last + ", "@ + first + " "@ + middle)
}

/// The character of a decimal digit.
pub open spec fn digit_char(d: nat) -> char {
    if d == 0 {
        '0'
    } else if d == 1 {
        '1'
    } else if d == 2 {
        '2'
    } else if d == 3 {
        '3'
    } else if d == 4 {
        '4'
    } else if d == 5 {
        '5'
    } else if d == 6 {
        '6'
    } else if d == 7 {
        '7'
    } else if d == 8 {
        '8'
    } else {
        '9'
    }
}

/// The decimal digits of `n`, without leading zeros ("0" for zero).
pub open spec fn decimal(n: nat) -> Seq<char>
    decreases n,
{
    if n < 10 {
        seq![digit_char(n)]
    } else {
        decimal(n / 10) + seq![digit_char(n % 10)]
    }
}

/// The decimal text of a signed integer.
pub open spec fn signed_decimal(n: int) -> Seq<char> {
    if n < 0 {
        seq!['-'] + decimal((-n) as nat)
    } else {
        decimal(n as nat)
    }
}

/// The last `k` decimal digits of `r`, padded with leading zeros.
pub open spec fn padded_digits(r: nat, k: nat) -> Seq<char>
    decreases k,
{
    if k == 0 {
        seq![]
    } else {
        padded_digits(r / 10, (k - 1) as nat) + seq![digit_char(r % 10)]
    }
}

/// The `k` fractional digits of `r`, with trailing zeros dropped.
pub open spec fn fraction_digits(r: nat, k: nat) -> Seq<char>
    decreases k,
{
    if k == 0 {
        seq![]
    } else if r % 10 == 0 {
        fraction_digits(r / 10, (k - 1) as nat)
    } else {
        padded_digits(r, k)
    }
}

pub open spec fn pow10(k: nat) -> nat
    decreases k,
{
    if k == 0 {
        1
    } else {
        10 * pow10((k - 1) as nat)
    }
}

/// `n / 10^k` written in the shortest decimal form: no trailing zeros in the
/// fraction, and no point when the fraction is empty.
pub open spec fn short_decimal(n: nat, k: nat) -> Seq<char> {
    let frac = fraction_digits(n % pow10(k), k);
    if frac.len() == 0 {
        decimal(n / pow10(k))
    } else {
        decimal(n / pow10(k)) + seq!['.'] + frac
    }
}

/// `h / 100` written with exactly two decimals.
pub open spec fn two_decimals(h: nat) -> Seq<char> {
    decimal(h / 100) + seq!['.'] + padded_digits(h % 100, 2)
}

/// `n / d` rounded to the nearest integer, halves rounded up.
pub open spec fn round_div(n: nat, d: nat) -> nat
    recommends
        d > 0,
{
    ((2 * n + d) / (2 * d)) as nat
}

pub fn is_white_space_char(c: char) -> (r: bool)
    ensures
        r == is_white_space(c),
{
    c == '\t' || c == '\n' || c == '\u{0B}' || c == '\u{0C}' || c == '\r' || c == ' ' || c
        == '\u{85}' || c == '\u{A0}' || c == '\u{1680}' || ('\u{2000}' <= c && c <= '\u{200A}')
        || c == '\u{2028}' || c == '\u{2029}' || c == '\u{202F}' || c == '\u{205F}' || c
        == '\u{3000}'
}

/// Returns `s` without surrounding white space, as `str::trim` does.
pub fn trim(s: &str) -> (r: String)
    ensures
        r@ == trimmed(s@),
{
    let n = s.unicode_len();
    let mut i: usize = 0;
    assert(s@.subrange(0, n as int) =~= s@);
    while i < n && is_white_space_char(s.get_char(i))
        invariant
            i <= n,
            n == s@.len(),
            trim_start(s@) == trim_start(s@.subrange(i as int, n as int)),
        decreases n - i,
    {
        assert(s@.subrange(i as int, n as int).drop_first() =~= s@.subrange(i + 1, n as int));
        i = i + 1;
    }
    assert(trim_start(s@.subrange(i as int, n as int)) == s@.subrange(i as int, n as int));
    let mut j: usize = n;
    while j > i && is_white_space_char(s.get_char(j - 1))
        invariant
            i <= j <= n,
            n == s@.len(),
            trim_end(s@.subrange(i as int, n as int)) == trim_end(s@.subrange(i as int, j as int)),
        decreases j,
    {
        assert(s@.subrange(i as int, j as int).drop_last() =~= s@.subrange(i as int, j - 1));
        j = j - 1;
    }
    assert(trim_end(s@.subrange(i as int, j as int)) == s@.subrange(i as int, j as int));
    String::from_str(s.substring_char(i, j))
}

/// Builds `"{last}, {first} {middle}"` and trims it.
pub fn candidate_display_name(first: &String, middle: &String, last: &String) -> (r: String)
    ensures
        r@ == display_name(first@, middle@, last@),
{
    let mut full = last.clone();
    full.append(", ");
    full.append(first.as_str());
    full.append(" ");
    full.append(middle.as_str());
    trim(full.as_str())
}

fn digit_text(d: u64) -> (r: &'static str)
    requires
        d < 10,
    ensures
        r@ == seq![digit_char(d as nat)],
{
    proof {
        reveal_strlit("0");
        reveal_strlit("1");
        reveal_strlit("2");
        reveal_strlit("3");
        reveal_strlit("4");
        reveal_strlit("5");
        reveal_strlit("6");
        reveal_strlit("7");
        reveal_strlit("8");
        reveal_strlit("9");
    }
    if d == 0 {
        "0"
    } else if d == 1 {
        "1"
    } else if d == 2 {
        "2"
    } else if d == 3 {
        "3"
    } else if d == 4 {
        "4"
    } else if d == 5 {
        "5"
    } else if d == 6 {
        "6"
    } else if d == 7 {
        "7"
    } else if d == 8 {
        "8"
    } else {
        "9"
    }
}

/// Appends the decimal digits of `n` to `s`.
pub fn push_decimal(s: &mut String, n: u128)
    ensures
        final(s)@ == old(s)@ + decimal(n as nat),
    decreases n,
{
    if n >= 10 {
        push_decimal(s, n / 10);
    }
    s.append(digit_text((n % 10) as u64));
    assert(final(s)@ =~= old(s)@ + decimal(n as nat));
}

/// Appends the last `k` digits of `r`, padded with zeros, to `s`.
fn push_padded_digits(s: &mut String, r: u128, k: u32)
    ensures
        final(s)@ == old(s)@ + padded_digits(r as nat, k as nat),
    decreases k,
{
    if k > 0 {
        push_padded_digits(s, r / 10, k - 1);
        s.append(digit_text((r % 10) as u64));
    }
    assert(final(s)@ =~= old(s)@ + padded_digits(r as nat, k as nat));
}

/// The decimal text of `n`.
pub fn decimal_text(n: u128) -> (r: String)
    ensures
        r@ == decimal(n as nat),
{
    let mut s = String::new();
    push_decimal(&mut s, n);
    assert(s@ =~= decimal(n as nat));
    s
}

/// The decimal text of a signed integer, with a leading minus when negative.
pub fn signed_decimal_text(n: i64) -> (r: String)
    ensures
        r@ == signed_decimal(n as int),
{
    let mut s = String::new();
    if n < 0 {
        s.append("-");
        proof {
            reveal_strlit("-");
        }
        let m: u128 = (0 - (n as i128)) as u128;
        push_decimal(&mut s, m);
        assert(s@ =~= signed_decimal(n as int));
    } else {
        push_decimal(&mut s, n as u128);
        assert(s@ =~= signed_decimal(n as int));
    }
    s
}

/// `h / 100` with exactly two decimals, as `format!("{:.2}", ..)` writes it.
pub fn two_decimals_text(h: u128) -> (r: String)
    ensures
        r@ == two_decimals(h as nat),
{
    let mut s = String::new();
    push_decimal(&mut s, h / 100);
    s.append(".");
    proof {
        reveal_strlit(".");
    }
    push_padded_digits(&mut s, h % 100, 2);
    assert(s@ =~= two_decimals(h as nat));
    s
}

proof fn lemma_pow10_grows(i: nat, j: nat)
    requires
        i <= j,
    ensures
        1 <= pow10(i) <= pow10(j),
    decreases j,
{
    if i < j {
        lemma_pow10_grows(i, (j - 1) as nat);
    } else if i > 0 {
        lemma_pow10_grows((i - 1) as nat, (i - 1) as nat);
    }
}

fn pow10_exec(k: u32) -> (r: u128)
    requires
        k <= 38,
    ensures
        r == pow10(k as nat),
        r > 0,
{
    assert(pow10(38) == 100_000_000_000_000_000_000_000_000_000_000_000_000) by {
        reveal_with_fuel(pow10, 39);
    }
    let mut p: u128 = 1;
    let mut i: u32 = 0;
    while i < k
        invariant
            i <= k <= 38,
            p == pow10(i as nat),
            pow10(38) == 100_000_000_000_000_000_000_000_000_000_000_000_000,
        decreases k - i,
    {
        proof {
            lemma_pow10_grows((i + 1) as nat, 38);
        }
        p = p * 10;
        i = i + 1;
    }
    proof {
        lemma_pow10_grows(0, k as nat);
    }
    p
}

/// `n / 10^k` in its shortest decimal form (`6000, 4` gives "0.6").
pub fn short_decimal_text(n: u128, k: u32) -> (r: String)
    requires
        k <= 38,
    ensures
        r@ == short_decimal(n as nat, k as nat),
{
    let p = pow10_exec(k);
    let mut s = String::new();
    push_decimal(&mut s, n / p);
    let mut r: u128 = n % p;
    let mut m: u32 = k;
    while m > 0 && r % 10 == 0
        invariant
            m <= k,
            fraction_digits((n as nat) % pow10(k as nat), k as nat) == fraction_digits(
                r as nat,
                m as nat,
            ),
        decreases m,
    {
        r = r / 10;
        m = m - 1;
    }
    assert(m == 0 || r % 10 != 0);
    assert(fraction_digits(r as nat, m as nat) == padded_digits(r as nat, m as nat));
    if m > 0 {
        s.append(".");
        proof {
            reveal_strlit(".");
        }
        push_padded_digits(&mut s, r, m);
        assert(padded_digits(r as nat, m as nat).len() > 0) by {
            reveal_with_fuel(padded_digits, 1);
        }
    }
    assert(s@ =~= short_decimal(n as nat, k as nat));
    s
}

} // verus!
