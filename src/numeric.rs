//! Decimal text to fixed-point integers in millionths.
use vstd::prelude::*;
use vstd::string::*;

verus! {

/// Number of fixed-point units in one whole unit.
pub const UNITS_PER_WHOLE: i64 = 1_000_000;

/// Largest integer part whose value in millionths can still fit an `i64`.
const MAX_WHOLE: u64 = 9_223_372_036_854;

pub open spec fn is_digit(c: char) -> bool {
    '0' <= c && c <= '9'
}

pub open spec fn digit_value(c: char) -> int {
    (c as int) - ('0' as int)
}

pub open spec fn all_digits(s: Seq<char>) -> bool {
    forall|i: int| 0 <= i < s.len() ==> is_digit(#[trigger] s[i])
}

/// The value of a string of decimal digits.
pub open spec fn digits_value(s: Seq<char>) -> int
    decreases s.len(),
{
    if s.len() == 0 {
        0
    } else {
        digits_value(s.drop_last()) * 10 + digit_value(s.last())
    }
}

/// The first `places` digits after a decimal point, as an integer of `places`
/// digits (missing digits count as zero, further digits are cut off).
pub open spec fn fraction_value(f: Seq<char>, places: nat) -> int
    decreases places,
{
    if places == 0 {
        0
    } else {
        fraction_value(f, (places - 1) as nat) * 10 + if places - 1 < f.len() {
            digit_value(f[places - 1])
        } else {
            0
        }
    }
}

/// Index of the first `.` in `s`, or its length if there is none.
pub open spec fn first_dot(s: Seq<char>) -> int
    decreases s.len(),
{
    if s.len() == 0 {
        0
    } else if s[0] == '.' {
        0
    } else {
        1 + first_dot(s.drop_first())
    }
}

/// An unsigned decimal `digits[.digits]` (at least one digit in all) in millionths.
pub open spec fn unsigned_micros(body: Seq<char>) -> Option<int> {
    let p = first_dot(body);
    let ip = body.take(p);
    let fp = if p < body.len() {
        body.skip(p + 1)
    } else {
        Seq::<char>::empty()
    };
    if all_digits(ip) && all_digits(fp) && ip.len() + fp.len() > 0 {
        Some(digits_value(ip) * 1_000_000 + fraction_value(fp, 6))
    } else {
        None
    }
}

/// The text after an optional leading sign.
pub open spec fn unsigned_part(t: Seq<char>) -> Seq<char> {
    if t.len() > 0 && (t[0] == '+' || t[0] == '-') {
        t.skip(1)
    } else {
        t
    }
}

/// A decimal `[+|-]digits[.digits]` in millionths, cut off after the sixth
/// fractional digit, when it fits an `i64`.
pub open spec fn decimal_micros(t: Seq<char>) -> Option<int> {
    match unsigned_micros(unsigned_part(t)) {
        Some(m) => {
            let v = if t.len() > 0 && t[0] == '-' {
                -m
            } else {
                m
            };
            if i64::MIN <= v <= i64::MAX {
                Some(v)
            } else {
                None
            }
        },
        None => None,
    }
}

proof fn lemma_first_dot(s: Seq<char>, k: int)
    requires
        0 <= k <= s.len(),
        forall|j: int| 0 <= j < k ==> s[j] != '.',
    ensures
        k <= first_dot(s) <= s.len(),
        k < s.len() && s[k] == '.' ==> first_dot(s) == k,
        first_dot(s) < s.len() ==> s[first_dot(s)] == '.',
    decreases s.len(),
{
    if s.len() > 0 && s[0] != '.' {
        let t = s.drop_first();
        assert forall|j: int| 0 <= j < (if k > 0 { k - 1 } else { 0 }) implies t[j] != '.' by {
            assert(t[j] == s[j + 1]);
        }
        lemma_first_dot(t, if k > 0 { k - 1 } else { 0 });
    }
}

proof fn lemma_digits_prefix(s: Seq<char>, k: int)
    requires
        all_digits(s),
        0 <= k <= s.len(),
    ensures
        0 <= digits_value(s.take(k)) <= digits_value(s),
    decreases s.len(),
{
    if s.len() > 0 {
        assert(all_digits(s.drop_last()));
        if k == s.len() {
            assert(s.take(k) =~= s);
            lemma_digits_prefix(s.drop_last(), k - 1);
        } else {
            assert(s.drop_last().take(k) =~= s.take(k));
            lemma_digits_prefix(s.drop_last(), k);
        }
        assert(s.take(k) =~= s.take(k));
    }
}

proof fn lemma_fraction_bound(f: Seq<char>, places: nat)
    requires
        all_digits(f),
    ensures
        0 <= fraction_value(f, places) < pow10(places),
    decreases places,
{
    if places > 0 {
        lemma_fraction_bound(f, (places - 1) as nat);
        let a = fraction_value(f, (places - 1) as nat);
        let b = pow10((places - 1) as nat);
        let d = if places - 1 < f.len() {
            digit_value(f[places - 1])
        } else {
            0
        };
        assert(0 <= d <= 9);
        assert(a * 10 + d < b * 10) by (nonlinear_arith)
            requires
                a < b,
                d <= 9,
        ;
    }
}

pub open spec fn pow10(n: nat) -> int
    decreases n,
{
    if n == 0 {
        1
    } else {
        10 * pow10((n - 1) as nat)
    }
}

/// Reads a decimal number in millionths: an optional sign, digits, and at
/// most one `.`, with at least one digit. Fractional digits after the sixth
/// are cut off. `None` when the text is not of that form or the value does not
/// fit an `i64`.
pub fn parse_decimal(t: &str) -> (r: Option<i64>)
    ensures
        match r {
            Some(v) => decimal_micros(t@) == Some(v as int),
            None => decimal_micros(t@) is None,
        },
{
    let n = t.unicode_len();
    let mut start: usize = 0;
    let mut negative = false;
    if n > 0 {
        let c = t.get_char(0);
        if c == '+' || c == '-' {
            start = 1;
            negative = c == '-';
        }
    }
    let ghost body = if start == 1 {
        t@.skip(1)
    } else {
        t@
    };
    assert(body =~= t@.subrange(start as int, n as int));
    assert(body == unsigned_part(t@));
    assert(negative == (t@.len() > 0 && t@[0] == '-'));
    // Integer part.
    let mut i: usize = start;
    let mut whole: u64 = 0;
    while i < n && t.get_char(i) != '.'
        invariant
            start <= i <= n,
            n == t@.len(),
            body =~= t@.subrange(start as int, n as int),
            body == unsigned_part(t@),
            negative == (t@.len() > 0 && t@[0] == '-'),
            forall|j: int| start <= j < i ==> t@[j] != '.' && is_digit(#[trigger] t@[j]),
            whole as int == digits_value(t@.subrange(start as int, i as int)),
            whole <= MAX_WHOLE,
        decreases n - i,
    {
        let c = t.get_char(i);
        proof {
            assert forall|j: int| 0 <= j < (i - start) implies body[j] != '.' by {
                assert(body[j] == t@[start + j]);
            }
            assert(body[i - start] == c);
            lemma_first_dot(body, i - start + 1);
        }
        if !('0' <= c && c <= '9') {
            proof {
                let ip = body.take(first_dot(body));
                assert(ip[i - start] == c);
            }
            return None;
        }
        let ghost prev = t@.subrange(start as int, i as int);
        whole = whole * 10 + (c as u64 - '0' as u64);
        i = i + 1;
        assert(t@.subrange(start as int, i as int).drop_last() =~= prev);
        if whole > MAX_WHOLE {
            proof {
                let p = first_dot(body);
                let ip = body.take(p);
                assert(t@.subrange(start as int, i as int) =~= ip.take(i - start));
                let fp0 = if p < body.len() {
                    body.skip(p + 1)
                } else {
                    Seq::<char>::empty()
                };
                if all_digits(ip) && all_digits(fp0) {
                    lemma_digits_prefix(ip, i - start);
                    lemma_fraction_bound(fp0, 6);
                    let w = digits_value(ip);
                    assert(w * 1_000_000 >= 9_223_372_036_855_000_000) by (nonlinear_arith)
                        requires
                            w >= 9_223_372_036_855,
                    ;
                }
            }
            return None;
        }
    }
    proof {
        assert forall|j: int| 0 <= j < (i - start) implies body[j] != '.' by {
            assert(body[j] == t@[start + j]);
        }
        lemma_first_dot(body, i - start);
        assert(first_dot(body) == i - start);
        assert(body.take(i - start) =~= t@.subrange(start as int, i as int));
    }
    // Fractional part: every character after the point must be a digit.
    let mut fraction_start: usize = n;
    if i < n {
        fraction_start = i + 1;
    }
    let ghost fp = t@.subrange(fraction_start as int, n as int);
    proof {
        if i < n {
            assert(fp =~= body.skip(i - start + 1));
        } else {
            assert(fp =~= Seq::<char>::empty());
        }
    }
    let mut k: usize = fraction_start;
    while k < n
        invariant
            fraction_start <= k <= n,
            n == t@.len(),
            fp == t@.subrange(fraction_start as int, n as int),
            body == unsigned_part(t@),
            negative == (t@.len() > 0 && t@[0] == '-'),
            first_dot(body) == i - start,
            fp == (if first_dot(body) < body.len() { body.skip(first_dot(body) + 1) } else { Seq::<char>::empty() }),
            forall|j: int| fraction_start <= j < k ==> is_digit(#[trigger] t@[j]),
        decreases n - k,
    {
        let c = t.get_char(k);
        if !('0' <= c && c <= '9') {
            assert(fp[k - fraction_start] == c);
            return None;
        }
        k = k + 1;
    }
    assert(all_digits(fp)) by {
        assert forall|j: int| 0 <= j < fp.len() implies is_digit(#[trigger] fp[j]) by {
            assert(fp[j] == t@[fraction_start + j]);
        }
    }
    if i - start + (n - fraction_start) == 0 {
        return None;
    }
    let mut fraction: u64 = 0;
    let mut places: usize = 0;
    while places < 6
        invariant
            places <= 6,
            fraction_start <= n,
            n == t@.len(),
            fp == t@.subrange(fraction_start as int, n as int),
            body == unsigned_part(t@),
            negative == (t@.len() > 0 && t@[0] == '-'),
            first_dot(body) == i - start,
            fp == (if first_dot(body) < body.len() { body.skip(first_dot(body) + 1) } else { Seq::<char>::empty() }),
            all_digits(fp),
            fraction as int == fraction_value(fp, places as nat),
        decreases 6 - places,
    {
        proof {
            lemma_fraction_bound(fp, places as nat);
            lemma_pow10_small(places as nat);
        }
        let mut d: u64 = 0;
        if places < n - fraction_start {
            let c = t.get_char(fraction_start + places);
            assert(c == fp[places as int]);
            d = c as u64 - '0' as u64;
        }
        fraction = fraction * 10 + d;
        places = places + 1;
    }
    proof {
        lemma_fraction_bound(fp, 6);
        lemma_pow10_small(6);
    }
    let magnitude: i128 = whole as i128 * 1_000_000 + fraction as i128;
    let value: i128 = if negative {
        -magnitude
    } else {
        magnitude
    };
    if value < i64::MIN as i128 || value > i64::MAX as i128 {
        return None;
    }
    Some(value as i64)
}

proof fn lemma_pow10_small(n: nat)
    requires
        n <= 6,
    ensures
        pow10(n) <= 1_000_000,
{
    reveal_with_fuel(pow10, 7);
}

} // verus!
