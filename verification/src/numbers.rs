//! The fixed-point decimal codec: formatting a count of millionths as the
//! decimal text stored in the collection file, and reading such a text
//! back, truncating anything below the fixed-point grid.

use vstd::prelude::*;

verus! {

use crate::json::plain_decimal;

/// One million: the fixed-point scale.
pub const SCALE: u64 = 1_000_000;

pub open spec fn is_digit(c: char) -> bool {
    '0' <= c <= '9'
}

pub open spec fn digit_val(c: char) -> int {
    c as int - 48
}

pub open spec fn digit_char(d: int) -> char {
    if d == 0 {
        '0'
    } else if d == 1 {
        '1'
    } else if d == 2 {
        '2'
    } else if d == 3 {
        '3'
    } else if d == 4 {
        '4'
    } else if d == 5 {
        '5'
    } else if d == 6 {
        '6'
    } else if d == 7 {
        '7'
    } else if d == 8 {
        '8'
    } else {
        '9'
    }
}

pub open spec fn all_digits(s: Seq<char>) -> bool {
    forall|i: int| 0 <= i < s.len() ==> is_digit(s[i])
}

/// The number a digit string denotes, most significant digit first.
pub open spec fn digits_val(s: Seq<char>) -> int
    decreases s.len(),
{
    if s.len() == 0 {
        0
    } else {
        digits_val(s.drop_last()) * 10 + digit_val(s.last())
    }
}

/// The canonical digits of `n >= 0`, no leading zero except for zero
/// itself.
pub open spec fn dec_digits(n: int) -> Seq<char>
    decreases n,
{
    if n < 10 {
        seq![digit_char(n)]
    } else {
        dec_digits(n / 10).push(digit_char(n % 10))
    }
}

/// The low `k` digits of `n`, zero padded to exactly `k` characters.
pub open spec fn digits_fixed(n: int, k: int) -> Seq<char>
    decreases k,
{
    if k <= 0 {
        Seq::empty()
    } else {
        digits_fixed(n / 10, k - 1).push(digit_char(n % 10))
    }
}

pub open spec fn pow10(k: int) -> int
    decreases k,
{
    if k <= 0 {
        1
    } else {
        10 * pow10(k - 1)
    }
}

/// `f` with its trailing decimal zeros removed.
pub open spec fn strip10(f: int) -> int
    decreases f,
{
    if f <= 0 {
        f
    } else if f % 10 == 0 {
        strip10(f / 10)
    } else {
        f
    }
}

/// How many trailing decimal zeros `f` has.
pub open spec fn tzeros(f: int) -> int
    decreases f,
{
    if f <= 0 {
        0
    } else if f % 10 == 0 {
        1 + tzeros(f / 10)
    } else {
        0
    }
}

/// The decimal text of `x` millionths: the whole part in canonical digits,
/// then, unless zero, a point and the fractional digits with trailing
/// zeros removed.
pub open spec fn micro_text(x: int) -> Seq<char> {
    let q = x / 1_000_000;
    let f = x % 1_000_000;
    if f == 0 {
        dec_digits(q)
    } else {
        dec_digits(q) + seq!['.'] + digits_fixed(strip10(f), 6 - tzeros(f))
    }
}

/// Index of the first `'.'` in `s`, or `s.len()` if there is none.
pub open spec fn dot_pos(s: Seq<char>) -> int
    decreases s.len(),
{
    if s.len() == 0 {
        0
    } else if s[0] == '.' {
        0
    } else {
        1 + dot_pos(s.skip(1))
    }
}

pub proof fn lemma_dot_pos(s: Seq<char>)
    ensures
        0 <= dot_pos(s) <= s.len(),
        forall|j: int| 0 <= j < dot_pos(s) ==> s[j] != '.',
        dot_pos(s) < s.len() ==> s[dot_pos(s)] == '.',
    decreases s.len(),
{
    if s.len() > 0 && s[0] != '.' {
        lemma_dot_pos(s.skip(1));
        assert forall|j: int| 0 <= j < dot_pos(s) implies s[j] != '.' by {
            if j > 0 {
                assert(s.skip(1)[j - 1] != '.');
            }
        }
        if dot_pos(s) < s.len() {
            assert(s.skip(1)[dot_pos(s) - 1] == '.');
        }
    }
}

/// Whether the unsigned part of a stored decimal is well-formed: digits,
/// then optionally a point and at least one more digit.
pub open spec fn valid_body(b: Seq<char>) -> bool {
    let dp = dot_pos(b);
    &&& dp >= 1
    &&& all_digits(b.take(dp))
    &&& (dp == b.len() || (b.len() - dp - 1 >= 1 && all_digits(b.skip(dp + 1))))
}

/// The value of a well-formed unsigned decimal body, in millionths,
/// truncated below the grid: the first six fractional digits scaled up to
/// six places.
pub open spec fn body_micro_val(b: Seq<char>) -> int {
    let dp = dot_pos(b);
    let frac = if dp == b.len() {
        Seq::<char>::empty()
    } else {
        b.skip(dp + 1)
    };
    let fr6 = frac.take(if frac.len() <= 6 {
        frac.len() as int
    } else {
        6
    });
    digits_val(b.take(dp)) * 1_000_000 + digits_val(fr6) * pow10(6 - fr6.len())
}

/// What reading a stored decimal as a count of millionths yields: `None`
/// when the text is not a plain signed decimal or its value does not fit;
/// a negative reading is clamped to zero.
pub open spec fn parse_micro_spec(s: Seq<char>) -> Option<u64> {
    let neg = s.len() > 0 && s[0] == '-';
    let b = if neg {
        s.skip(1)
    } else {
        s
    };
    if !valid_body(b) {
        None
    } else if neg {
        Some(0u64)
    } else if body_micro_val(b) > u64::MAX {
        None
    } else {
        Some(body_micro_val(b) as u64)
    }
}

/// What reading a stored whole number as a count yields: digits only,
/// within `u32`.
pub open spec fn parse_count_spec(s: Seq<char>) -> Option<u32> {
    if s.len() >= 1 && all_digits(s) && digits_val(s) <= u32::MAX {
        Some(digits_val(s) as u32)
    } else {
        None
    }
}

/// The canonical digits denote the number they were made from.
pub proof fn lemma_dec_digits_val(n: int)
    requires
        n >= 0,
    ensures
        digits_val(dec_digits(n)) == n,
        dec_digits(n).len() >= 1,
        all_digits(dec_digits(n)),
        n >= 1 ==> dec_digits(n)[0] != '0',
        dec_digits(n)[0] != '.',
        dec_digits(n)[0] == '0' ==> n == 0,
    decreases n,
{
    if n < 10 {
        let s = seq![digit_char(n)];
        assert(s.len() == 1);
        assert(s.last() == digit_char(n));
        assert(s.drop_last() =~= Seq::<char>::empty());
        assert(digits_val(Seq::<char>::empty()) == 0);
        assert(digits_val(s) == digits_val(s.drop_last()) * 10 + digit_val(s.last()));
        assert(digits_val(s) == digit_val(digit_char(n)));
        assert(digit_val(digit_char(n)) == n);
        assert(is_digit(s[0]));
    } else {
        lemma_dec_digits_val(n / 10);
        let t = dec_digits(n / 10);
        let w = t.push(digit_char(n % 10));
        assert(w.last() == digit_char(n % 10));
        assert(w.drop_last() =~= t);
        assert(digits_val(w) == digits_val(t) * 10 + digit_val(digit_char(n % 10)));
        assert(digit_val(digit_char(n % 10)) == n % 10);
        assert(digits_val(w) == (n / 10) * 10 + n % 10);
        assert(w[0] == t[0]);
        assert forall|i: int| 0 <= i < w.len() implies is_digit(w[i]) by {
            if i < t.len() {
                assert(w[i] == t[i]);
            } else {
                assert(w[i] == digit_char(n % 10));
            }
        }
    }
}

/// A number below the `k`-th power of ten has at most `k` digits.
pub proof fn lemma_dec_digits_len(n: int, k: int)
    requires
        0 <= n < pow10(k),
        1 <= k,
    ensures
        dec_digits(n).len() <= k,
    decreases k,
{
    if n < 10 {
    } else {
        assert(pow10(k) == 10 * pow10(k - 1));
        assert(n / 10 < pow10(k - 1)) by (nonlinear_arith)
            requires
                n < pow10(k) && pow10(k) == 10 * pow10(k - 1) && n >= 10,
        ;
        assert(k >= 2) by {
            if k == 1 {
                assert(pow10(1) == 10);
            }
        }
        lemma_dec_digits_len(n / 10, k - 1);
    }
}

/// The fixed-width digits denote the number when it fits the width.
pub proof fn lemma_digits_fixed_val(n: int, k: int)
    requires
        0 <= k,
        0 <= n < pow10(k),
    ensures
        digits_val(digits_fixed(n, k)) == n,
        digits_fixed(n, k).len() == k,
        all_digits(digits_fixed(n, k)),
    decreases k,
{
    if k <= 0 {
    } else {
        assert(n / 10 < pow10(k - 1)) by (nonlinear_arith)
            requires
                n < pow10(k) && pow10(k) == 10 * pow10(k - 1) && n >= 0,
        ;
        lemma_digits_fixed_val(n / 10, k - 1);
        let t = digits_fixed(n / 10, k - 1);
        let w = t.push(digit_char(n % 10));
        assert(w.last() == digit_char(n % 10));
        assert(w.drop_last() =~= t);
        assert(digits_val(w) == digits_val(t) * 10 + digit_val(digit_char(n % 10)));
        assert(digit_val(digit_char(n % 10)) == n % 10);
        assert(digits_val(w) == (n / 10) * 10 + n % 10);
        assert forall|i: int| 0 <= i < w.len() implies is_digit(w[i]) by {
            if i < t.len() {
                assert(w[i] == t[i]);
            } else {
                assert(w[i] == digit_char(n % 10));
            }
        }
    }
}

/// Stripping trailing zeros divides out exactly the matching power of ten.
pub proof fn lemma_strip10(f: int)
    requires
        f >= 1,
    ensures
        strip10(f) >= 1,
        strip10(f) % 10 != 0,
        tzeros(f) >= 0,
        strip10(f) * pow10(tzeros(f)) == f,
    decreases f,
{
    if f % 10 == 0 {
        lemma_strip10(f / 10);
        let g = strip10(f / 10);
        let t = tzeros(f / 10);
        assert(tzeros(f) == 1 + t);
        assert(pow10(1 + t) == 10 * pow10(t));
        assert(g * (10 * pow10(t)) == (g * pow10(t)) * 10) by (nonlinear_arith);
        assert((g * pow10(t)) * 10 == (f / 10) * 10);
        assert((f / 10) * 10 == f);
    }
}

pub proof fn lemma_pow10_pos(k: int)
    ensures
        pow10(k) >= 1,
    decreases k,
{
    if k > 0 {
        lemma_pow10_pos(k - 1);
    }
}

pub proof fn lemma_pow10_monotone(a: int, b: int)
    requires
        a <= b,
    ensures
        pow10(a) <= pow10(b),
    decreases b,
{
    lemma_pow10_pos(a);
    if b > a && b > 0 {
        lemma_pow10_monotone(a, b - 1);
        lemma_pow10_pos(b - 1);
    }
}

pub proof fn lemma_pow10_add(a: int, b: int)
    requires
        0 <= a,
        0 <= b,
    ensures
        pow10(a + b) == pow10(a) * pow10(b),
    decreases a,
{
    if a == 0 {
    } else {
        lemma_pow10_add(a - 1, b);
        assert(10 * (pow10(a - 1) * pow10(b)) == (10 * pow10(a - 1)) * pow10(b))
            by (nonlinear_arith);
    }
}

pub proof fn lemma_digits_val_bounds(s: Seq<char>)
    requires
        all_digits(s),
    ensures
        0 <= digits_val(s) < pow10(s.len() as int),
    decreases s.len(),
{
    if s.len() == 0 {
    } else {
        let t = s.drop_last();
        assert(all_digits(t));
        lemma_digits_val_bounds(t);
        assert(is_digit(s.last()));
        assert(0 <= digit_val(s.last()) <= 9);
        assert(pow10(s.len() as int) == 10 * pow10(t.len() as int));
    }
}

pub proof fn lemma_digits_val_prefix(s: Seq<char>, j: int)
    requires
        all_digits(s),
        0 <= j <= s.len(),
    ensures
        digits_val(s) >= digits_val(s.take(j)),
    decreases s.len(),
{
    if j == s.len() {
        assert(s.take(j) =~= s);
    } else {
        let t = s.drop_last();
        assert(all_digits(t));
        assert(s.take(j) =~= t.take(j));
        lemma_digits_val_prefix(t, j);
        lemma_digits_val_bounds(t);
        assert(is_digit(s.last()));
        assert(digits_val(s) == digits_val(t) * 10 + digit_val(s.last()));
        assert(digits_val(t) * 10 >= digits_val(t)) by (nonlinear_arith)
            requires
                digits_val(t) >= 0,
        ;
    }
}

pub proof fn lemma_dot_pos_unique(s: Seq<char>, k: int)
    requires
        0 <= k <= s.len(),
        forall|j: int| 0 <= j < k ==> s[j] != '.',
        k < s.len() ==> s[k] == '.',
    ensures
        dot_pos(s) == k,
{
    lemma_dot_pos(s);
    let dp = dot_pos(s);
    if dp < k {
        assert(s[dp] == '.');
        assert(s[dp] != '.');
    } else if dp > k {
        assert(k < s.len());
        assert(s[k] != '.');
        assert(s[k] == '.');
    }
}

/// A single decimal digit as text.
fn digit_str(d: u64) -> (r: &'static str)
    requires
        d < 10,
    ensures
        r@ =~= seq![digit_char(d as int)],
{
    proof {
        reveal_strlit("0");
        reveal_strlit("1");
        reveal_strlit("2");
        reveal_strlit("3");
        reveal_strlit("4");
        reveal_strlit("5");
        reveal_strlit("6");
        reveal_strlit("7");
        reveal_strlit("8");
        reveal_strlit("9");
    }
    if d == 0 {
        "0"
    } else if d == 1 {
        "1"
    } else if d == 2 {
        "2"
    } else if d == 3 {
        "3"
    } else if d == 4 {
        "4"
    } else if d == 5 {
        "5"
    } else if d == 6 {
        "6"
    } else if d == 7 {
        "7"
    } else if d == 8 {
        "8"
    } else {
        "9"
    }
}

/// The canonical digits of `n`.
pub fn format_u64(n: u64) -> (r: String)
    ensures
        r@ == dec_digits(n as int),
    decreases n,
{
    if n < 10 {
        String::from_str(digit_str(n))
    } else {
        let mut s = format_u64(n / 10);
        s.append(digit_str(n % 10));
        proof {
            assert(s@ =~= dec_digits((n / 10) as int).push(digit_char((n % 10) as int)));
        }
        s
    }
}

/// The low `k` digits of `n`, zero padded to exactly `k` characters.
fn format_fixed(n: u64, k: u64) -> (r: String)
    requires
        k <= 6,
    ensures
        r@ == digits_fixed(n as int, k as int),
    decreases k,
{
    if k == 0 {
        let r = String::new();
        proof {
            assert(r@ =~= digits_fixed(n as int, 0));
        }
        r
    } else {
        let mut s = format_fixed(n / 10, k - 1);
        s.append(digit_str(n % 10));
        proof {
            assert(s@ =~= digits_fixed((n / 10) as int, k as int - 1).push(
                digit_char((n % 10) as int),
            ));
        }
        s
    }
}

/// The decimal text of `x` millionths, in the shape the collection file
/// stores: whole part, then a point and the non-zero fraction if any.
pub fn format_micro(x: u64) -> (r: String)
    ensures
        r@ == micro_text(x as int),
        plain_decimal(r@),
{
    let q = x / 1_000_000;
    let f = x % 1_000_000;
    let mut s = format_u64(q);
    proof {
        lemma_dec_digits_val(q as int);
    }
    if f == 0 {
        proof {
            lemma_plain_decimal_int(q as int);
        }
        return s;
    }
    let mut g = f;
    let mut k: u64 = 6;
    proof {
        lemma_strip_small(f as int);
    }
    while g % 10 == 0
        invariant
            1 <= g <= f < 1_000_000,
            1 + tzeros(g as int) <= k <= 6,
            strip10(g as int) == strip10(f as int),
            tzeros(g as int) == tzeros(f as int) - (6 - k),
            g as int * pow10(6 - k) == f,
        decreases g,
    {
        proof {
            lemma_strip10(g as int);
            lemma_strip10((g / 10) as int);
            assert((g / 10) as int * (10 * pow10(6 - k)) == (g as int) * pow10(6 - k))
                by (nonlinear_arith)
                requires
                    g % 10 == 0 && g == 10 * (g / 10),
            ;
            assert(pow10(6 - k + 1) == 10 * pow10(6 - k));
            lemma_tz_bound(g as int, k as int);
        }
        g = g / 10;
        k = k - 1;
    }
    proof {
        lemma_strip10(f as int);
        lemma_strip10(g as int);
        assert(strip10(g as int) == g as int);
        assert(tzeros(g as int) == 0);
        assert(k as int == 6 - tzeros(f as int));
        lemma_strip_small(f as int);
        lemma_pow10_add(k as int, 6 - k as int);
        lemma_pow10_pos(6 - k as int);
        assert(pow10(6) == 1_000_000) by {
            reveal_with_fuel(pow10, 7);
        }
        assert((g as int) < pow10(k as int)) by (nonlinear_arith)
            requires
                pow10(6 - k as int) >= 1,
                (g as int) * pow10(6 - k as int) == f as int,
                (f as int) < pow10(k as int) * pow10(6 - k as int),
        ;
    }
    s.append(".");
    let frac = format_fixed(g, k);
    s.append(frac.as_str());
    proof {
        reveal_strlit(".");
        assert("."@ =~= seq!['.']);
        lemma_digits_fixed_val(g as int, k as int);
        assert(s@ =~= dec_digits((x as int) / 1_000_000) + seq!['.'] + digits_fixed(
            strip10((x as int) % 1_000_000),
            6 - tzeros((x as int) % 1_000_000),
        ));
        lemma_plain_decimal_frac(q as int, g as int, k as int);
        assert(s@ =~= micro_text(x as int));
    }
    s
}

/// Trailing zeros of a six-digit fraction number at most five.
proof fn lemma_tz_bound(g: int, k: int)
    requires
        1 <= g,
        1 <= k <= 6,
        g % 10 == 0,
    ensures
        tzeros(g / 10) == tzeros(g) - 1,
{
}

/// A positive number below the scale has fewer than six trailing zeros.
proof fn lemma_strip_small(f: int)
    requires
        1 <= f < 1_000_000,
    ensures
        0 <= tzeros(f) <= 5,
{
    lemma_strip10(f);
    if tzeros(f) >= 6 {
        lemma_pow10_monotone(6, tzeros(f));
        assert(pow10(6) == 1_000_000) by {
            reveal_with_fuel(pow10, 7);
        }
        assert(strip10(f) * pow10(tzeros(f)) >= 1 * pow10(tzeros(f))) by (nonlinear_arith)
            requires
                strip10(f) >= 1 && pow10(tzeros(f)) >= 0,
        ;
    }
}

/// The integer-only text of a representable count is a plain decimal.
pub proof fn lemma_plain_decimal_int(q: int)
    requires
        0 <= q <= u64::MAX,
    ensures
        plain_decimal(dec_digits(q)),
{
    lemma_dec_digits_val(q);
    assert(pow10(20) > u64::MAX) by {
        reveal_with_fuel(pow10, 21);
    }
    lemma_dec_digits_len(q, 20);
    let s = dec_digits(q);
    assert forall|i: int| 0 <= i < s.len() implies ('0' <= s[i] <= '9' || s[i] == '.') by {
        assert(is_digit(s[i]));
    }
    if s[0] == '0' && s.len() > 1 {
        assert(q == 0);
        assert(dec_digits(0) =~= seq![digit_char(0)]);
    }
}

/// The fractional text of a representable count of millionths is a plain
/// decimal.
proof fn lemma_plain_decimal_frac(q: int, g: int, k: int)
    requires
        0 <= q <= u64::MAX,
        1 <= k <= 6,
        0 <= g < pow10(k),
        g % 10 != 0 || g >= 1,
    ensures
        plain_decimal(dec_digits(q) + seq!['.'] + digits_fixed(g, k)),
{
    lemma_dec_digits_val(q);
    assert(pow10(20) > u64::MAX) by {
        reveal_with_fuel(pow10, 21);
    }
    lemma_dec_digits_len(q, 20);
    lemma_digits_fixed_val(g, k);
    let a = dec_digits(q);
    let b = digits_fixed(g, k);
    let s = a + seq!['.'] + b;
    assert(s.len() == a.len() + 1 + k);
    assert forall|i: int| 0 <= i < s.len() implies ('0' <= s[i] <= '9' || s[i] == '.') by {
        if i < a.len() {
            assert(s[i] == a[i]);
            assert(is_digit(a[i]));
        } else if i == a.len() {
            assert(s[i] == '.');
        } else {
            assert(s[i] == b[i - a.len() - 1]);
            assert(is_digit(b[i - a.len() - 1]));
        }
    }
    assert(s[0] == a[0]);
    assert(is_digit(a[0]));
    assert(s[s.len() - 1] == b[k - 1]);
    assert(is_digit(b[k - 1]));
    assert forall|i: int, j: int|
        0 <= i < j < s.len() && s[i] == '.' && s[j] == '.' implies i == j by {
        if i != a.len() {
            if i < a.len() {
                assert(is_digit(a[i]));
            } else {
                assert(is_digit(b[i - a.len() - 1]));
            }
        }
        if j != a.len() {
            if j < a.len() {
                assert(is_digit(a[j]));
            } else {
                assert(is_digit(b[j - a.len() - 1]));
            }
        }
    }
    if s[0] == '0' && s.len() > 1 {
        assert(a[0] == '0');
        assert(q == 0);
        assert(dec_digits(0) =~= seq![digit_char(0)]);
        assert(a.len() == 1);
        assert(s[1] == '.');
    }
}

/// Appending one digit multiplies by ten and adds it.
proof fn lemma_digits_val_snoc(s: Seq<char>, t: Seq<char>, c: char)
    requires
        t == s.push(c),
    ensures
        digits_val(t) == digits_val(s) * 10 + digit_val(c),
{
    assert(t.drop_last() =~= s);
    assert(t.last() == c);
}

/// Read a stored decimal as a count of millionths, exactly as
/// `parse_micro_spec` describes: truncating below the grid, clamping a
/// negative reading to zero, refusing malformed text and values that do
/// not fit.
pub fn parse_micro(s: &str) -> (r: Option<u64>)
    ensures
        r == parse_micro_spec(s@),
{
    let len = s.unicode_len();
    if len == 0 {
        return None;
    }
    let neg = {
        let c0 = s.get_char(0);
        c0 == '-'
    };
    let start: usize = if neg {
        1
    } else {
        0
    };
    let ghost b = s@.skip(start as int);
    proof {
        assert(b.len() == len - start);
        assert(forall|m: int| 0 <= m < b.len() ==> b[m] == s@[m + start]);
        if start == 0 {
            assert(s@.skip(0) =~= s@);
            assert(b == s@);
        }
    }
    let mut i: usize = start;
    let mut acc: u64 = 0;
    let mut going = true;
    while going && i < len
        invariant
            len == s@.len(),
            start <= 1,
            (start == 1) == neg,
            neg == (s@.len() > 0 && s@[0] == '-'),
            start == 0 ==> b == s@,
            start <= i <= len,
            b == s@.skip(start as int),
            b.len() == len - start,
            forall|j: int| start <= j < i ==> is_digit(s@[j]),
            !neg ==> acc == digits_val(b.take(i - start)),
            !going ==> i < len && !is_digit(s@[i as int]),
        decreases len - i + if going {
            1int
        } else {
            0int
        },
    {
        let c = s.get_char(i);
        let u = c as u32;
        if 48 <= u && u <= 57 {
            assert(is_digit(c));
            let d = (u - 48) as u64;
            assert(d == digit_val(c));
            if !neg {
                if acc > (u64::MAX - d) / 10 {
                    proof {
                        assert(s@.skip(0) =~= s@);
                        assert(b == s@);
                        lemma_parse_overflow(s@, i as int, acc, d);
                    }
                    return None;
                }
                proof {
                    assert(b.take(i + 1 - start) =~= b.take(i - start).push(s@[i as int]));
                    lemma_digits_val_snoc(
                        b.take(i - start),
                        b.take(i + 1 - start),
                        s@[i as int],
                    );
                }
                acc = acc * 10 + d;
            }
            i = i + 1;
        } else {
            assert(!is_digit(c));
            going = false;
        }
    }
    let intn = i - start;
    if intn == 0 {
        proof {
            if b.len() == 0 {
                assert(dot_pos(b) == 0);
                assert(!valid_body(b));
            } else {
                assert(!going);
                assert(!is_digit(b[0]));
                if valid_body(b) {
                    let dp0 = dot_pos(b);
                    lemma_dot_pos(b);
                    assert(b.take(dp0)[0] == b[0]);
                    assert(is_digit(b[0]));
                }
            }
        }
        return None;
    }
    if going {
        proof {
            assert(i == len);
            assert forall|j: int| 0 <= j < b.len() implies b[j] != '.' by {
                assert(is_digit(b[j]));
            }
            lemma_dot_pos_unique(b, b.len() as int);
            assert(valid_body(b)) by {
                assert(b.take(b.len() as int) =~= b);
            }
            assert(body_micro_val(b) == digits_val(b) * 1_000_000) by {
                assert(b.take(dot_pos(b)) =~= b);
                assert(Seq::<char>::empty().take(0) =~= Seq::<char>::empty());
                lemma_pow10_pos(6);
            }
        }
        if neg {
            return Some(0);
        }
        let v = (acc as u128) * 1_000_000;
        proof {
            assert(b.take(i - start) =~= b);
        }
        if v > u64::MAX as u128 {
            return None;
        }
        return Some(v as u64);
    }
    let dotc = s.get_char(i);
    if dotc != '.' {
        proof {
            lemma_invalid_at(b, (i - start) as int);
        }
        return None;
    }
    let ghost dp = (i - start) as int;
    proof {
        assert forall|j: int| 0 <= j < dp implies b[j] != '.' by {
            assert(is_digit(b[j]));
        }
        lemma_dot_pos_unique(b, dp);
    }
    let fs = i + 1;
    let ghost fseq = s@.skip(fs as int);
    proof {
        assert(fseq =~= b.skip(dp + 1));
    }
    let mut j: usize = fs;
    let mut cnt: u64 = 0;
    let mut fv: u64 = 0;
    while j < len
        invariant
            len == s@.len(),
            fs <= j <= len,
            fs == i + 1,
            i < len,
            start <= i,
            start <= 1,
            (start == 1) == neg,
            neg == (s@.len() > 0 && s@[0] == '-'),
            start == 0 ==> b == s@,
            b == s@.skip(start as int),
            b.len() == len - start,
            fseq == s@.skip(fs as int),
            fseq.len() == len - fs,
            forall|m: int| fs <= m < j ==> is_digit(s@[m]),
            cnt == if j - fs <= 6 {
                (j - fs) as int
            } else {
                6int
            },
            fv == digits_val(fseq.take(cnt as int)),
            fv < 1_000_000,
            dp == i - start,
            dot_pos(b) == dp,
            forall|m: int| 0 <= m < dp ==> is_digit(b[m]),
            intn >= 1,
            intn == dp,
            !neg ==> acc == digits_val(b.take(dp)),
        decreases len - j,
    {
        let c = s.get_char(j);
        let u = c as u32;
        if !(48 <= u && u <= 57) {
            proof {
                let p: int = j - start;
                assert(b[p] == s@[j as int]);
                assert(!is_digit(b[p]));
                assert(dp + 1 <= p);
                assert(p < b.len());
                lemma_dot_pos(b);
                assert(b[dp] == '.');
                if valid_body(b) {
                    assert(b.skip(dp + 1)[p - dp - 1] == b[p]);
                    assert(is_digit(b[p]));
                }
                assert(!valid_body(b));
            }
            return None;
        }
        assert(is_digit(c));
        if cnt < 6 {
            proof {
                assert(fseq.take(cnt as int + 1) =~= fseq.take(cnt as int).push(s@[j as int]));
                lemma_digits_val_snoc(
                    fseq.take(cnt as int),
                    fseq.take(cnt as int + 1),
                    s@[j as int],
                );
                assert(all_digits(fseq.take(cnt as int + 1)));
                lemma_digits_val_bounds(fseq.take(cnt as int + 1));
                lemma_pow10_monotone(cnt as int + 1, 6);
                assert(pow10(6) == 1_000_000) by {
                    reveal_with_fuel(pow10, 7);
                }
            }
            let d = (u - 48) as u64;
            assert(d == digit_val(c));
            fv = fv * 10 + d;
            cnt = cnt + 1;
        }
        j = j + 1;
    }
    let fraclen = len - fs;
    if fraclen == 0 {
        proof {
            assert(b.len() as int - dp - 1 == 0);
            assert(!valid_body(b));
        }
        return None;
    }
    proof {
        assert(valid_body(b)) by {
            assert(b.take(dp) =~= s@.subrange(start as int, i as int));
            assert forall|m: int| 0 <= m < dp implies is_digit(b.take(dp)[m]) by {
                assert(b.take(dp)[m] == b[m]);
            }
            assert forall|m: int| 0 <= m < fseq.len() implies is_digit(#[trigger] b.skip(dp + 1)[m]) by {
                assert(b.skip(dp + 1)[m] == s@[m + fs]);
            }
        }
    }
    let ghost f6len: int = if fseq.len() <= 6 {
        fseq.len() as int
    } else {
        6
    };
    proof {
        assert(cnt as int == f6len);
        assert forall|m: int| 0 <= m < f6len implies is_digit(#[trigger] fseq.take(f6len)[m]) by {
            assert(fseq.take(f6len)[m] == s@[m + fs]);
        }
        assert(all_digits(fseq.take(f6len)));
        lemma_digits_val_bounds(fseq.take(f6len));
    }
    while cnt < 6
        invariant
            cnt <= 6,
            0 <= f6len <= cnt,
            fv == digits_val(fseq.take(f6len)) * pow10(cnt as int - f6len),
            digits_val(fseq.take(f6len)) < pow10(f6len),
            digits_val(fseq.take(f6len)) >= 0,
            fv < 1_000_000,
        decreases 6 - cnt,
    {
        proof {
            lemma_pow10_pos(cnt as int - f6len);
            lemma_pow10_add(f6len, cnt as int + 1 - f6len);
            lemma_pow10_pos(f6len);
            lemma_pow10_pos(cnt as int + 1 - f6len);
            lemma_pow10_monotone(cnt as int + 1, 6);
            assert(pow10(6) == 1_000_000) by {
                reveal_with_fuel(pow10, 7);
            }
            assert(digits_val(fseq.take(f6len)) * pow10(cnt as int - f6len + 1) == (digits_val(
                fseq.take(f6len),
            ) * pow10(cnt as int - f6len)) * 10) by (nonlinear_arith)
                requires
                    pow10(cnt as int - f6len + 1) == 10 * pow10(cnt as int - f6len),
            ;
            assert(digits_val(fseq.take(f6len)) * pow10(cnt as int + 1 - f6len) < pow10(
                cnt as int + 1,
            )) by (nonlinear_arith)
                requires
                    digits_val(fseq.take(f6len)) < pow10(f6len),
                    pow10(cnt as int + 1) == pow10(f6len) * pow10(cnt as int + 1 - f6len),
                    digits_val(fseq.take(f6len)) >= 0,
                    pow10(f6len) >= 1,
                    pow10(cnt as int + 1 - f6len) >= 1,
            ;
        }
        fv = fv * 10;
        cnt = cnt + 1;
    }
    proof {
        assert(body_micro_val(b) == digits_val(b.take(dp)) * 1_000_000 + digits_val(
            fseq.take(f6len),
        ) * pow10(6 - f6len));
    }
    if neg {
        return Some(0);
    }
    let v = (acc as u128) * 1_000_000 + (fv as u128);
    if v > u64::MAX as u128 {
        return None;
    }
    Some(v as u64)
}

/// A non-digit inside what would have to be the integer or fraction part
/// spoils the body.
proof fn lemma_invalid_at(b: Seq<char>, p: int)
    requires
        0 <= p < b.len(),
        !is_digit(b[p]),
        b[p] != '.',
        forall|j: int| 0 <= j < p ==> is_digit(b[j]),
    ensures
        !valid_body(b),
{
    lemma_dot_pos(b);
    let dp = dot_pos(b);
    if valid_body(b) {
        if dp <= p {
            if dp == b.len() {
                assert(b.take(dp)[p] == b[p]);
            } else {
                assert(b[dp] == '.');
                assert(dp < p);
                assert(b.skip(dp + 1)[p - dp - 1] == b[p]);
            }
        } else {
            assert(b.take(dp)[p] == b[p]);
        }
    }
}

/// Once the integer digits alone exceed the representable range, the body
/// is either malformed or too large.
proof fn lemma_parse_overflow(s: Seq<char>, i: int, acc: u64, d: u64)
    requires
        0 <= i < s.len(),
        s[0] != '-',
        forall|j: int| 0 <= j < i ==> is_digit(s[j]),
        is_digit(s[i]),
        acc == digits_val(s.take(i)),
        d == digit_val(s[i]),
        acc * 10 + d > u64::MAX,
    ensures
        parse_micro_spec(s) is None,
{
    if valid_body(s) {
        lemma_dot_pos(s);
        let dp = dot_pos(s);
        if dp <= i {
            assert(dp < s.len());
            assert(s[dp] == '.');
            assert(is_digit(s[dp]));
        }
        assert(dp >= i + 1);
        let ii = s.take(dp);
        assert(s.take(i + 1) =~= s.take(i).push(s[i]));
        lemma_digits_val_snoc(s.take(i), s.take(i + 1), s[i]);
        assert(digits_val(s.take(i + 1)) == acc * 10 + d);
        assert(ii.take(i + 1) =~= s.take(i + 1));
        lemma_digits_val_prefix(ii, i + 1);
        assert(digits_val(ii) > u64::MAX);
        let fr = if dp == s.len() {
            Seq::<char>::empty()
        } else {
            s.skip(dp + 1)
        };
        let fr6 = fr.take(
            if fr.len() <= 6 {
                fr.len() as int
            } else {
                6
            },
        );
        assert(all_digits(fr6)) by {
            if dp < s.len() {
                assert(forall|m: int| 0 <= m < fr6.len() ==> fr6[m] == fr[m]);
            }
        }
        lemma_digits_val_bounds(fr6);
        lemma_pow10_pos(6 - fr6.len());
        assert(digits_val(fr6) * pow10(6 - fr6.len()) >= 0) by (nonlinear_arith)
            requires
                digits_val(fr6) >= 0 && pow10(6 - fr6.len()) >= 1,
        ;
        assert(digits_val(ii) * 1_000_000 >= digits_val(ii)) by (nonlinear_arith)
            requires
                digits_val(ii) >= 0,
        ;
        assert(body_micro_val(s) > u64::MAX);
    }
}

/// Read a stored whole number as a count, exactly as `parse_count_spec`
/// describes.
pub fn parse_count(s: &str) -> (r: Option<u32>)
    ensures
        r == parse_count_spec(s@),
{
    let len = s.unicode_len();
    if len == 0 {
        return None;
    }
    let mut i: usize = 0;
    let mut acc: u32 = 0;
    while i < len
        invariant
            len == s@.len(),
            0 <= i <= len,
            forall|j: int| 0 <= j < i ==> is_digit(s@[j]),
            acc == digits_val(s@.take(i as int)),
        decreases len - i,
    {
        let c = s.get_char(i);
        let u = c as u32;
        if !(48 <= u && u <= 57) {
            assert(!is_digit(s@[i as int]));
            return None;
        }
        assert(is_digit(c));
        let d = u - 48;
        assert(d == digit_val(c));
        if acc > (u32::MAX - d) / 10 {
            proof {
                assert(s@.take(i as int + 1) =~= s@.take(i as int).push(s@[i as int]));
                lemma_digits_val_snoc(s@.take(i as int), s@.take(i as int + 1), s@[i as int]);
                assert(digits_val(s@.take(i as int + 1)) > u32::MAX);
                if all_digits(s@) {
                    assert(s@.take(i as int + 1) =~= s@.take(i as int + 1));
                    lemma_digits_val_prefix(s@, i as int + 1);
                }
            }
            return None;
        }
        proof {
            assert(s@.take(i as int + 1) =~= s@.take(i as int).push(s@[i as int]));
            lemma_digits_val_snoc(s@.take(i as int), s@.take(i as int + 1), s@[i as int]);
        }
        acc = acc * 10 + d;
        i = i + 1;
    }
    proof {
        assert(s@.take(len as int) =~= s@);
    }
    Some(acc)
}

/// The codec round trip: reading back the decimal text of any count of
/// millionths yields that very count, bit for bit.
pub proof fn lemma_micro_round_trip(x: u64)
    ensures
        parse_micro_spec(micro_text(x as int)) == Some(x),
{
    let q = x as int / 1_000_000;
    let f = x as int % 1_000_000;
    lemma_dec_digits_val(q);
    let a = dec_digits(q);
    if f == 0 {
        let t = micro_text(x as int);
        assert(t == a);
        assert(is_digit(t[0]));
        assert(t[0] != '-');
        assert forall|j: int| 0 <= j < t.len() implies t[j] != '.' by {
            assert(is_digit(t[j]));
        }
        lemma_dot_pos_unique(t, t.len() as int);
        assert(valid_body(t)) by {
            assert(t.take(t.len() as int) =~= t);
        }
        assert(body_micro_val(t) == q * 1_000_000) by {
            assert(t.take(dot_pos(t)) =~= t);
            lemma_pow10_pos(6);
        }
        assert(q * 1_000_000 == x);
    } else {
        lemma_strip10(f);
        lemma_strip_small(f);
        let g = strip10(f);
        let k = 6 - tzeros(f);
        assert(g < pow10(k)) by {
            lemma_pow10_add(k, 6 - k);
            lemma_pow10_pos(6 - k);
            assert(pow10(6) == 1_000_000) by {
                reveal_with_fuel(pow10, 7);
            }
            assert(g < pow10(k)) by (nonlinear_arith)
                requires
                    pow10(6 - k) >= 1,
                    g * pow10(6 - k) == f,
                    f < pow10(k) * pow10(6 - k),
            ;
        }
        lemma_digits_fixed_val(g, k);
        let bdigits = digits_fixed(g, k);
        let t = micro_text(x as int);
        assert(t == a + seq!['.'] + bdigits);
        assert(t.len() == a.len() + 1 + k);
        assert(t[0] == a[0]);
        assert(is_digit(t[0]));
        assert(t[0] != '-');
        assert forall|j: int| 0 <= j < a.len() implies t[j] != '.' by {
            assert(t[j] == a[j]);
            assert(is_digit(a[j]));
        }
        assert(t[a.len() as int] == '.');
        lemma_dot_pos_unique(t, a.len() as int);
        let dp = a.len() as int;
        assert(t.take(dp) =~= a);
        let fr = t.skip(dp + 1);
        assert(fr =~= bdigits);
        assert(fr.len() == k);
        assert(valid_body(t));
        let fr6 = fr.take(
            if fr.len() <= 6 {
                fr.len() as int
            } else {
                6
            },
        );
        assert(fr6 =~= bdigits);
        assert(body_micro_val(t) == q * 1_000_000 + g * pow10(6 - k));
        assert(g * pow10(6 - k) == f);
        assert(q * 1_000_000 + f == x);
    }
}

} // verus!
