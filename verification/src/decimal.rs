//! Decimal numbers written as text: reading an operand, the four operations
//! on exact decimal fractions, and writing the outcome back as text.
//!
//! A number `m / 10^s` is held as its mantissa `m` and scale `s`. Every
//! operation is done on integers, so sums, differences and products are exact;
//! a quotient is cut off after `QUOTIENT_DIGITS` fractional digits.

use vstd::prelude::*;
use vstd::string::*;
use vstd::arithmetic::div_mod::{
    lemma_fundamental_div_mod, lemma_mod_bound, lemma_mod_breakdown, lemma_mod_twice,
};
use crate::operator::MathOperator;

verus! {

/// The longest operand, in characters, that the arithmetic accepts.
pub const MAX_OPERAND_LEN: usize = 12;

/// The number of fractional digits that a quotient keeps.
pub const QUOTIENT_DIGITS: u32 = 12;

/// The value of a decimal digit, if the character is one.
pub open spec fn digit_value(c: char) -> Option<nat> {
    if c == '0' {
        Some(0nat)
    } else if c == '1' {
        Some(1nat)
    } else if c == '2' {
        Some(2nat)
    } else if c == '3' {
        Some(3nat)
    } else if c == '4' {
        Some(4nat)
    } else if c == '5' {
        Some(5nat)
    } else if c == '6' {
        Some(6nat)
    } else if c == '7' {
        Some(7nat)
    } else if c == '8' {
        Some(8nat)
    } else if c == '9' {
        Some(9nat)
    } else {
        None
    }
}

/// The character that writes a digit; `'0'` for anything above nine.
pub open spec fn digit_char(d: nat) -> char {
    if d == 1 {
        '1'
    } else if d == 2 {
        '2'
    } else if d == 3 {
        '3'
    } else if d == 4 {
        '4'
    } else if d == 5 {
        '5'
    } else if d == 6 {
        '6'
    } else if d == 7 {
        '7'
    } else if d == 8 {
        '8'
    } else if d == 9 {
        '9'
    } else {
        '0'
    }
}

/// A character that an operand buffer may hold: a digit or the point.
pub open spec fn is_entry_char(c: char) -> bool {
    c == '.' || digit_value(c).is_some()
}

/// How many decimal points a text holds.
pub open spec fn point_count(s: Seq<char>) -> nat
    decreases s.len(),
{
    if s.len() == 0 {
        0
    } else if s.last() == '.' {
        point_count(s.drop_last()) + 1
    } else {
        point_count(s.drop_last())
    }
}

/// Text that a buffer may hold while a number is being typed: digits and at
/// most one point.
pub open spec fn is_entry_text(s: Seq<char>) -> bool {
    &&& forall|i: int| 0 <= i < s.len() ==> is_entry_char(#[trigger] s[i])
    &&& point_count(s) <= 1
}

/// Text that writes a number: entry text with at least one digit.
pub open spec fn is_number(s: Seq<char>) -> bool {
    is_entry_text(s) && s.len() > point_count(s)
}

/// The digits of a text read as one natural number, the point skipped.
pub open spec fn mantissa(s: Seq<char>) -> nat
    decreases s.len(),
{
    if s.len() == 0 {
        0
    } else {
        match digit_value(s.last()) {
            Some(d) => mantissa(s.drop_last()) * 10 + d,
            None => mantissa(s.drop_last()),
        }
    }
}

/// The number of characters that follow the point; zero without a point.
pub open spec fn scale(s: Seq<char>) -> nat
    decreases s.len(),
{
    if s.len() == 0 || s.last() == '.' {
        0
    } else if point_count(s.drop_last()) > 0 {
        scale(s.drop_last()) + 1
    } else {
        0
    }
}

/// Ten to the power `n`.
pub open spec fn pow10(n: nat) -> nat
    decreases n,
{
    if n == 0 {
        1
    } else {
        10 * pow10((n - 1) as nat)
    }
}

/// A mantissa and scale with the trailing fractional zeros removed.
pub open spec fn trimmed(m: nat, s: nat) -> (nat, nat)
    decreases s,
{
    if s > 0 && m % 10 == 0 {
        trimmed(m / 10, (s - 1) as nat)
    } else {
        (m, s)
    }
}

/// A natural number in decimal, without leading zeros.
pub open spec fn nat_text(n: nat) -> Seq<char>
    decreases n,
{
    if n < 10 {
        seq![digit_char(n)]
    } else {
        nat_text(n / 10).push(digit_char(n % 10))
    }
}

/// The last `width` decimal digits of `n`, zeros included.
pub open spec fn fixed_text(n: nat, width: nat) -> Seq<char>
    decreases width,
{
    if width == 0 {
        Seq::<char>::empty()
    } else {
        fixed_text(n / 10, (width - 1) as nat).push(digit_char(n % 10))
    }
}

/// The text of `m / 10^s`, negated where `negative`: the whole part, then a
/// point and the fractional digits if any are left once trailing zeros are
/// dropped.
pub open spec fn decimal_text(negative: bool, m: nat, s: nat) -> Seq<char> {
    let t = trimmed(m, s);
    let sign = if negative {
        seq!['-']
    } else {
        Seq::<char>::empty()
    };
    let whole = nat_text(t.0 / pow10(t.1));
    if t.1 == 0 {
        sign + whole
    } else {
        sign + whole + seq!['.'] + fixed_text(t.0 % pow10(t.1), t.1)
    }
}

/// What the display shows where an operation has no value: a malformed
/// operand or a division by zero.
pub open spec fn undefined_text() -> Seq<char> {
    "undefined"@
}

/// What the display shows where an operand is too long for the arithmetic.
pub open spec fn overflow_text() -> Seq<char> {
    "overflow"@
}

/// The text that applying `op` to the operands `a` and `b` gives.
pub open spec fn result_text(a: Seq<char>, op: MathOperator, b: Seq<char>) -> Seq<char> {
    if !is_number(a) || !is_number(b) {
        undefined_text()
    } else if a.len() > MAX_OPERAND_LEN || b.len() > MAX_OPERAND_LEN {
        overflow_text()
    } else {
        let s = if scale(a) >= scale(b) {
            scale(a)
        } else {
            scale(b)
        };
        let x = mantissa(a) * pow10((s - scale(a)) as nat);
        let y = mantissa(b) * pow10((s - scale(b)) as nat);
        match op {
            MathOperator::Add => decimal_text(false, x + y, s),
            MathOperator::Subtract => if x >= y {
                decimal_text(false, (x - y) as nat, s)
            } else {
                decimal_text(true, (y - x) as nat, s)
            },
            MathOperator::Multiply => decimal_text(
                false,
                mantissa(a) * mantissa(b),
                scale(a) + scale(b),
            ),
            MathOperator::Divide => if mantissa(b) == 0 {
                undefined_text()
            } else {
                decimal_text(
                    false,
                    (mantissa(a) * pow10(scale(b) + QUOTIENT_DIGITS as nat)) / (mantissa(b) * pow10(
                        scale(a),
                    )),
                    QUOTIENT_DIGITS as nat,
                )
            },
        }
    }
}

/// A decimal number `mantissa / 10^scale`.
#[derive(Copy, Clone, Debug)]
pub struct Decimal {
    pub mantissa: u128,
    pub scale: u32,
}

/// Every power of ten is at least one.
pub proof fn lemma_pow10_positive(n: nat)
    ensures
        pow10(n) >= 1,
    decreases n,
{
    if n > 0 {
        lemma_pow10_positive((n - 1) as nat);
    }
}

/// The powers of ten grow with the exponent.
pub proof fn lemma_pow10_monotonic(i: nat, j: nat)
    requires
        i <= j,
    ensures
        1 <= pow10(i) <= pow10(j),
    decreases j,
{
    lemma_pow10_positive(i);
    if i < j {
        lemma_pow10_monotonic(i, (j - 1) as nat);
    }
}

/// The powers of ten that bound the arithmetic.
pub proof fn lemma_pow10_values()
    ensures
        pow10(12) == 1_000_000_000_000,
        pow10(24) == 1_000_000_000_000_000_000_000_000,
        pow10(36) == 1_000_000_000_000_000_000_000_000_000_000_000_000,
{
    reveal_with_fuel(pow10, 13);
    assert(pow10(12) == 1_000_000_000_000);
    assert(pow10(24) == 1_000_000_000_000 * pow10(12));
    assert(pow10(36) == 1_000_000_000_000 * pow10(24));
}

/// Ten to the power `k`, for the exponents that the arithmetic needs.
pub fn pow10_exec(k: u32) -> (p: u128)
    requires
        k <= 36,
    ensures
        p == pow10(k as nat),
        p >= 1,
{
    let mut p: u128 = 1;
    let mut i: u32 = 0;
    while i < k
        invariant
            i <= k,
            k <= 36,
            p == pow10(i as nat),
        decreases k - i,
    {
        proof {
            lemma_pow10_monotonic((i + 1) as nat, 36);
            lemma_pow10_values();
        }
        p = p * 10;
        i = i + 1;
    }
    proof {
        lemma_pow10_monotonic(k as nat, k as nat);
    }
    p
}

/// The value of a digit character, if it is one.
pub fn digit_of(c: char) -> (d: Option<u8>)
    ensures
        match d {
            Some(v) => digit_value(c) == Some(v as nat),
            None => digit_value(c).is_none(),
        },
{
    match c {
        '0' => Some(0u8),
        '1' => Some(1u8),
        '2' => Some(2u8),
        '3' => Some(3u8),
        '4' => Some(4u8),
        '5' => Some(5u8),
        '6' => Some(6u8),
        '7' => Some(7u8),
        '8' => Some(8u8),
        '9' => Some(9u8),
        _ => None,
    }
}

/// Whether a text holds only digits and at most one point.
pub fn is_entry_str(s: &str) -> (ok: bool)
    ensures
        ok == is_entry_text(s@),
{
    let n = s.unicode_len();
    let mut i: usize = 0;
    let mut points: usize = 0;
    while i < n
        invariant
            i <= n,
            n == s@.len(),
            points == point_count(s@.take(i as int)),
            points <= i,
            forall|k: int| 0 <= k < i ==> is_entry_char(#[trigger] s@[k]),
        decreases n - i,
    {
        let c = s.get_char(i);
        proof {
            assert(s@.take(i + 1).drop_last() =~= s@.take(i as int));
        }
        if c == '.' {
            points = points + 1;
        } else if digit_of(c).is_none() {
            assert(!is_entry_char(s@[i as int]));
            return false;
        }
        i = i + 1;
    }
    proof {
        assert(s@.take(n as int) =~= s@);
    }
    points <= 1
}

/// How many decimal points a text holds.
pub fn count_points(s: &str) -> (points: usize)
    ensures
        points == point_count(s@),
{
    let n = s.unicode_len();
    let mut i: usize = 0;
    let mut points: usize = 0;
    while i < n
        invariant
            i <= n,
            n == s@.len(),
            points == point_count(s@.take(i as int)),
            points <= i,
        decreases n - i,
    {
        let c = s.get_char(i);
        proof {
            assert(s@.take(i + 1).drop_last() =~= s@.take(i as int));
        }
        if c == '.' {
            points = points + 1;
        }
        i = i + 1;
    }
    proof {
        assert(s@.take(n as int) =~= s@);
    }
    points
}

/// Whether a text writes a number.
pub fn is_number_str(s: &str) -> (ok: bool)
    ensures
        ok == is_number(s@),
{
    is_entry_str(s) && s.unicode_len() > count_points(s)
}

/// Reads an operand that is a number and short enough.
pub fn read_operand(s: &str) -> (d: Decimal)
    requires
        is_number(s@),
        s@.len() <= MAX_OPERAND_LEN,
    ensures
        d.mantissa == mantissa(s@),
        d.scale == scale(s@),
        d.mantissa < pow10(12),
        d.scale <= 12,
{
    let n = s.unicode_len();
    let mut i: usize = 0;
    let mut m: u128 = 0;
    let mut sc: u32 = 0;
    let mut seen_point = false;
    proof {
        lemma_pow10_values();
    }
    while i < n
        invariant
            i <= n,
            n == s@.len(),
            n <= 12,
            is_number(s@),
            m == mantissa(s@.take(i as int)),
            m < pow10(i as nat),
            sc == scale(s@.take(i as int)),
            sc <= i,
            seen_point == (point_count(s@.take(i as int)) > 0),
            pow10(12) == 1_000_000_000_000,
        decreases n - i,
    {
        let c = s.get_char(i);
        proof {
            assert(s@.take(i + 1).drop_last() =~= s@.take(i as int));
            assert(is_entry_char(s@[i as int]));
            lemma_pow10_monotonic((i + 1) as nat, 12);
        }
        match digit_of(c) {
            Some(v) => {
                m = m * 10 + v as u128;
                if seen_point {
                    sc = sc + 1;
                }
            },
            None => {
                seen_point = true;
                sc = 0;
            },
        }
        i = i + 1;
    }
    proof {
        assert(s@.take(n as int) =~= s@);
        lemma_pow10_monotonic(n as nat, 12);
    }
    Decimal { mantissa: m, scale: sc }
}

/// The one-character text of a digit.
pub fn digit_str(d: u128) -> (text: &'static str)
    requires
        d < 10,
    ensures
        text@ == seq![digit_char(d as nat)],
{
    proof {
        reveal_strlit("0");
        reveal_strlit("1");
        reveal_strlit("2");
        reveal_strlit("3");
        reveal_strlit("4");
        reveal_strlit("5");
        reveal_strlit("6");
        reveal_strlit("7");
        reveal_strlit("8");
        reveal_strlit("9");
    }
    let text = if d == 0 {
        "0"
    } else if d == 1 {
        "1"
    } else if d == 2 {
        "2"
    } else if d == 3 {
        "3"
    } else if d == 4 {
        "4"
    } else if d == 5 {
        "5"
    } else if d == 6 {
        "6"
    } else if d == 7 {
        "7"
    } else if d == 8 {
        "8"
    } else {
        "9"
    };
    assert(text@ =~= seq![digit_char(d as nat)]);
    text
}

/// Appends a natural number in decimal.
pub fn push_nat(out: &mut String, n: u128)
    ensures
        final(out)@ == old(out)@ + nat_text(n as nat),
    decreases n,
{
    if n >= 10 {
        push_nat(out, n / 10);
    }
    out.append(digit_str(n % 10));
    proof {
        if n >= 10 {
            assert(final(out)@ =~= old(out)@ + nat_text(n as nat));
        } else {
            assert(final(out)@ =~= old(out)@ + nat_text(n as nat));
        }
    }
}

/// Appends the last `width` decimal digits of a number.
pub fn push_fixed(out: &mut String, n: u128, width: u32)
    ensures
        final(out)@ == old(out)@ + fixed_text(n as nat, width as nat),
    decreases width,
{
    if width > 0 {
        push_fixed(out, n / 10, width - 1);
        out.append(digit_str(n % 10));
    }
    proof {
        assert(final(out)@ =~= old(out)@ + fixed_text(n as nat, width as nat));
    }
}

/// Writes `mantissa / 10^scale` as text, negated where `negative`.
pub fn render(negative: bool, mantissa: u128, scale: u32) -> (text: String)
    requires
        scale <= 36,
    ensures
        text@ == decimal_text(negative, mantissa as nat, scale as nat),
{
    let mut m: u128 = mantissa;
    let mut s: u32 = scale;
    while s > 0 && m % 10 == 0
        invariant
            s <= scale,
            trimmed(m as nat, s as nat) == trimmed(mantissa as nat, scale as nat),
        decreases s,
    {
        m = m / 10;
        s = s - 1;
    }
    assert(trimmed(mantissa as nat, scale as nat) == (m as nat, s as nat));
    let p = pow10_exec(s);
    let mut text = String::new();
    if negative {
        proof {
            reveal_strlit("-");
        }
        text.append("-");
    }
    push_nat(&mut text, m / p);
    if s > 0 {
        proof {
            reveal_strlit(".");
        }
        text.append(".");
        push_fixed(&mut text, m % p, s);
    }
    proof {
        assert(text@ =~= decimal_text(negative, mantissa as nat, scale as nat));
    }
    text
}

/// Applies an operator to two operands given as text and writes the outcome:
/// the exact sum, difference or product, the quotient cut off after
/// `QUOTIENT_DIGITS` fractional digits, or the word that says why there is
/// no number.
pub fn evaluate(a: &str, op: MathOperator, b: &str) -> (text: String)
    ensures
        text@ == result_text(a@, op, b@),
{
    if !is_number_str(a) || !is_number_str(b) {
        return String::from_str("undefined");
    }
    if a.unicode_len() > MAX_OPERAND_LEN || b.unicode_len() > MAX_OPERAND_LEN {
        return String::from_str("overflow");
    }
    let x = read_operand(a);
    let y = read_operand(b);
    proof {
        lemma_pow10_values();
        lemma_pow10_monotonic(x.scale as nat, 12);
        lemma_pow10_monotonic(y.scale as nat, 12);
        lemma_pow10_monotonic((y.scale + QUOTIENT_DIGITS) as nat, 24);
    }
    match op {
        MathOperator::Multiply => {
            assert(x.mantissa * y.mantissa < 1_000_000_000_000 * 1_000_000_000_000)
                by (nonlinear_arith)
                requires
                    x.mantissa < 1_000_000_000_000,
                    y.mantissa < 1_000_000_000_000,
            ;
            render(false, x.mantissa * y.mantissa, x.scale + y.scale)
        },
        MathOperator::Divide => {
            if y.mantissa == 0 {
                return String::from_str("undefined");
            }
            let pn = pow10_exec(y.scale + QUOTIENT_DIGITS);
            let pd = pow10_exec(x.scale);
            assert(x.mantissa * pn < 1_000_000_000_000 * 1_000_000_000_000_000_000_000_000)
                by (nonlinear_arith)
                requires
                    x.mantissa < 1_000_000_000_000,
                    pn <= 1_000_000_000_000_000_000_000_000,
            ;
            assert(1 <= y.mantissa * pd < 1_000_000_000_000 * 1_000_000_000_000)
                by (nonlinear_arith)
                requires
                    1 <= y.mantissa < 1_000_000_000_000,
                    1 <= pd <= 1_000_000_000_000,
            ;
            render(false, (x.mantissa * pn) / (y.mantissa * pd), QUOTIENT_DIGITS)
        },
        _ => {
            let s: u32 = if x.scale >= y.scale {
                x.scale
            } else {
                y.scale
            };
            let px = pow10_exec(s - x.scale);
            let py = pow10_exec(s - y.scale);
            proof {
                lemma_pow10_monotonic((s - x.scale) as nat, 12);
                lemma_pow10_monotonic((s - y.scale) as nat, 12);
            }
            assert(x.mantissa * px < 1_000_000_000_000 * 1_000_000_000_000) by (nonlinear_arith)
                requires
                    x.mantissa < 1_000_000_000_000,
                    px <= 1_000_000_000_000,
            ;
            assert(y.mantissa * py < 1_000_000_000_000 * 1_000_000_000_000) by (nonlinear_arith)
                requires
                    y.mantissa < 1_000_000_000_000,
                    py <= 1_000_000_000_000,
            ;
            let vx: u128 = x.mantissa * px;
            let vy: u128 = y.mantissa * py;
            match op {
                MathOperator::Add => render(false, vx + vy, s),
                _ => if vx >= vy {
                    render(false, vx - vy, s)
                } else {
                    render(true, vy - vx, s)
                },
            }
        },
    }
}

/// Trimming keeps the number: the trimmed mantissa, scaled back up, is the
/// mantissa that went in; and nothing is left to trim.
pub proof fn lemma_trimmed_keeps_value(m: nat, s: nat)
    ensures
        trimmed(m, s).1 <= s,
        trimmed(m, s).0 * pow10((s - trimmed(m, s).1) as nat) == m,
        trimmed(m, s).1 > 0 ==> trimmed(m, s).0 % 10 != 0,
    decreases s,
{
    if s > 0 && m % 10 == 0 {
        lemma_trimmed_keeps_value(m / 10, (s - 1) as nat);
        let t = trimmed(m, s);
        let k = (s - 1 - t.1) as nat;
        assert(pow10((s - t.1) as nat) == 10 * pow10(k));
        assert(t.0 * (10 * pow10(k)) == (t.0 * pow10(k)) * 10) by (nonlinear_arith);
    } else {
        assert(m * 1 == m);
    }
}

/// Text without a point has no fractional digits.
pub proof fn lemma_scale_without_point(s: Seq<char>)
    requires
        point_count(s) == 0,
    ensures
        scale(s) == 0,
{
}

/// A natural number that was written reads back as itself: its text holds
/// digits only, at least one, and their value is the number.
pub proof fn lemma_nat_text_reads_back(n: nat)
    ensures
        nat_text(n).len() >= 1,
        forall|i: int| 0 <= i < nat_text(n).len() ==> is_entry_char(#[trigger] nat_text(n)[i]),
        point_count(nat_text(n)) == 0,
        mantissa(nat_text(n)) == n,
    decreases n,
{
    let c = digit_char(n % 10);
    assert(digit_value(c) == Some(n % 10));
    if n < 10 {
        assert(nat_text(n).drop_last() =~= Seq::<char>::empty());
        assert(mantissa(Seq::<char>::empty()) == 0);
        assert(point_count(Seq::<char>::empty()) == 0);
    } else {
        lemma_nat_text_reads_back(n / 10);
        assert(nat_text(n).drop_last() =~= nat_text(n / 10));
    }
}

/// Fixed-width digits written behind a text read back as that many more
/// digits: the mantissa moves up by the width and takes the digits in, no
/// point is added, and behind a point the scale grows by the width.
pub proof fn lemma_fixed_text_reads_back(prefix: Seq<char>, n: nat, width: nat)
    requires
        forall|i: int| 0 <= i < prefix.len() ==> is_entry_char(#[trigger] prefix[i]),
    ensures
        (prefix + fixed_text(n, width)).len() == prefix.len() + width,
        forall|i: int|
            0 <= i < (prefix + fixed_text(n, width)).len() ==> is_entry_char(
                #[trigger] (prefix + fixed_text(n, width))[i],
            ),
        point_count(prefix + fixed_text(n, width)) == point_count(prefix),
        mantissa(prefix + fixed_text(n, width)) == mantissa(prefix) * pow10(width) + n % pow10(
            width,
        ),
        point_count(prefix) > 0 ==> scale(prefix + fixed_text(n, width)) == scale(prefix) + width,
    decreases width,
{
    let whole = prefix + fixed_text(n, width);
    if width == 0 {
        assert(whole =~= prefix);
        assert(mantissa(prefix) * 1 == mantissa(prefix));
    } else {
        let w = (width - 1) as nat;
        let shorter = prefix + fixed_text(n / 10, w);
        lemma_fixed_text_reads_back(prefix, n / 10, w);
        let c = digit_char(n % 10);
        assert(digit_value(c) == Some(n % 10));
        assert(whole =~= shorter.push(c));
        assert(whole.drop_last() =~= shorter);
        assert(whole.last() == c);
        assert forall|i: int| 0 <= i < whole.len() implies is_entry_char(#[trigger] whole[i]) by {
            if i < shorter.len() {
                assert(whole[i] == shorter[i]);
            }
        }
        lemma_pow10_positive(w);
        lemma_mod_breakdown(n as int, 10, pow10(w) as int);
        assert(pow10(width) == 10 * pow10(w));
        let a = mantissa(prefix) as int;
        let q = pow10(w) as int;
        let r = ((n / 10) % pow10(w)) as int;
        let d = (n % 10) as int;
        assert((a * q + r) * 10 + d == a * (10 * q) + (10 * r + d)) by (nonlinear_arith);
    }
}

/// What is written reads back as the same number: the text of a number that
/// is not negative is itself a number, whose mantissa and scale are the
/// trimmed ones. With `lemma_trimmed_keeps_value`, its value is `m / 10^s`.
pub proof fn lemma_written_number_reads_back(m: nat, s: nat)
    ensures
        is_number(decimal_text(false, m, s)),
        mantissa(decimal_text(false, m, s)) == trimmed(m, s).0,
        scale(decimal_text(false, m, s)) == trimmed(m, s).1,
{
    let t = trimmed(m, s);
    let p = pow10(t.1);
    lemma_pow10_positive(t.1);
    let whole = nat_text(t.0 / p);
    lemma_nat_text_reads_back(t.0 / p);
    let text = decimal_text(false, m, s);
    if t.1 == 0 {
        assert(text =~= whole);
        assert(t.0 / 1 == t.0);
        lemma_scale_without_point(whole);
    } else {
        let prefix = whole.push('.');
        assert(prefix.drop_last() =~= whole);
        assert(prefix.last() == '.');
        assert(point_count(prefix) == 1);
        assert(mantissa(prefix) == t.0 / p);
        assert(scale(prefix) == 0);
        assert(Seq::<char>::empty() + whole + seq!['.'] =~= prefix);
        assert forall|i: int| 0 <= i < prefix.len() implies is_entry_char(#[trigger] prefix[i]) by {
            if i < whole.len() {
                assert(prefix[i] == whole[i]);
            }
        }
        lemma_fixed_text_reads_back(prefix, t.0 % p, t.1);
        assert(text == prefix + fixed_text(t.0 % p, t.1));
        lemma_mod_twice(t.0 as int, p as int);
        lemma_fundamental_div_mod(t.0 as int, p as int);
        assert((t.0 / p) * p == p * (t.0 / p)) by (nonlinear_arith);
    }
}

/// Whether a text writes the number `m / 10^s`: it is a number with at most
/// `s` fractional digits whose mantissa, scaled up to `s`, is `m`.
pub open spec fn reads_as(text: Seq<char>, m: nat, s: nat) -> bool {
    &&& is_number(text)
    &&& scale(text) <= s
    &&& mantissa(text) * pow10((s - scale(text)) as nat) == m
}

/// The text of a number that is not negative writes that number.
pub proof fn lemma_decimal_text_reads_as(m: nat, s: nat)
    ensures
        reads_as(decimal_text(false, m, s), m, s),
        decimal_text(true, m, s) == seq!['-'] + decimal_text(false, m, s),
{
    lemma_trimmed_keeps_value(m, s);
    lemma_written_number_reads_back(m, s);
    assert(decimal_text(true, m, s) =~= seq!['-'] + decimal_text(false, m, s));
}

/// The arithmetic is the usual one. For operands that are numbers and short
/// enough, with both brought to the larger scale `s`: the sum's text writes
/// the sum; the difference's text writes the difference, behind a minus sign
/// where the second operand is the larger; the product's text writes the
/// product; and the quotient's text writes the largest number with
/// `QUOTIENT_DIGITS` fractional digits that, times the divisor, does not
/// exceed the dividend.
pub proof fn lemma_result_is_arithmetic(a: Seq<char>, op: MathOperator, b: Seq<char>)
    requires
        is_number(a),
        is_number(b),
        a.len() <= MAX_OPERAND_LEN,
        b.len() <= MAX_OPERAND_LEN,
    ensures
        ({
            let s = if scale(a) >= scale(b) {
                scale(a)
            } else {
                scale(b)
            };
            let x = mantissa(a) * pow10((s - scale(a)) as nat);
            let y = mantissa(b) * pow10((s - scale(b)) as nat);
            let text = result_text(a, op, b);
            match op {
                MathOperator::Add => reads_as(text, x + y, s),
                MathOperator::Subtract => if x >= y {
                    reads_as(text, (x - y) as nat, s)
                } else {
                    exists|rest: Seq<char>|
                        text == seq!['-'] + rest && reads_as(rest, (y - x) as nat, s)
                },
                MathOperator::Multiply => reads_as(
                    text,
                    mantissa(a) * mantissa(b),
                    scale(a) + scale(b),
                ),
                MathOperator::Divide => if mantissa(b) == 0 {
                    text == undefined_text()
                } else {
                    exists|q: nat|
                        {
                            &&& reads_as(text, q, QUOTIENT_DIGITS as nat)
                            &&& q * (mantissa(b) * pow10(scale(a))) <= mantissa(a) * pow10(
                                scale(b) + QUOTIENT_DIGITS as nat,
                            )
                            &&& mantissa(a) * pow10(scale(b) + QUOTIENT_DIGITS as nat) < (q + 1)
                                * (mantissa(b) * pow10(scale(a)))
                        }
                },
            }
        }),
{
    let s = if scale(a) >= scale(b) {
        scale(a)
    } else {
        scale(b)
    };
    let x = mantissa(a) * pow10((s - scale(a)) as nat);
    let y = mantissa(b) * pow10((s - scale(b)) as nat);
    let text = result_text(a, op, b);
    match op {
        MathOperator::Add => {
            lemma_decimal_text_reads_as(x + y, s);
        },
        MathOperator::Subtract => {
            if x >= y {
                lemma_decimal_text_reads_as((x - y) as nat, s);
            } else {
                lemma_decimal_text_reads_as((y - x) as nat, s);
                let rest = decimal_text(false, (y - x) as nat, s);
                assert(text == seq!['-'] + rest && reads_as(rest, (y - x) as nat, s));
            }
        },
        MathOperator::Multiply => {
            lemma_decimal_text_reads_as(mantissa(a) * mantissa(b), scale(a) + scale(b));
        },
        MathOperator::Divide => {
            if mantissa(b) != 0 {
                let n = mantissa(a) * pow10(scale(b) + QUOTIENT_DIGITS as nat);
                let d = mantissa(b) * pow10(scale(a));
                lemma_pow10_positive(scale(a));
                assert(d > 0) by (nonlinear_arith)
                    requires
                        d == mantissa(b) * pow10(scale(a)),
                        mantissa(b) > 0,
                        pow10(scale(a)) > 0,
                ;
                let q = n / d;
                lemma_decimal_text_reads_as(q, QUOTIENT_DIGITS as nat);
                lemma_fundamental_div_mod(n as int, d as int);
                lemma_mod_bound(n as int, d as int);
                assert(q * d == d * q && (q + 1) * d == d * q + d) by (nonlinear_arith);
                assert(reads_as(text, q, QUOTIENT_DIGITS as nat) && q * d <= n && n < (q + 1) * d);
            }
        },
    }
}

} // verus!
