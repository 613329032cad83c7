//! Fixed-point nutrient amounts and the decimal notation they are read from.
//!
//! An amount is a whole number of millionths of its unit: `30.0` is held as
//! `30_000_000`. Text is read as an optional sign, digits with an optional
//! point, and an optional exponent (`1.5e3`, `2E-4`). The number it denotes
//! is cut to whole millionths (toward zero) and held to at most
//! 999,999,999.999999 units either way. Anything else (codes such as `Tr` or
//! `N`, empty cells, stray characters) is not an amount.

use vstd::prelude::*;

use vstd::arithmetic::div_mod::lemma_fundamental_div_mod_converse;

verus! {

/// Millionths per unit.
pub const SCALE: i128 = 1_000_000;

/// Digits of a unit that an amount keeps after the point.
pub const SCALE_DIGITS: i128 = 6;

/// Every amount read from text is strictly smaller than this in magnitude.
pub const AMOUNT_LIMIT: i128 = 1_000_000_000_000_000;

/// The largest magnitude an amount read from text takes.
pub const MAX_AMOUNT: i128 = 999_999_999_999_999;

/// Exponents are held to this magnitude; any beyond it give the same amount.
const EXPONENT_CAP: i128 = 1_000_000_000_000_000_000_000_000_000_000;

pub open spec fn is_digit(c: char) -> bool {
    '0' <= c && c <= '9'
}

pub open spec fn digit_value(c: char) -> int {
    c as int - '0' as int
}

pub open spec fn all_digits(s: Seq<char>) -> bool {
    forall|i: int| 0 <= i < s.len() ==> is_digit(#[trigger] s[i])
}

/// The number that a run of decimal digits denotes.
pub open spec fn digits_value(s: Seq<char>) -> int
    decreases s.len(),
{
    if s.len() == 0 {
        0
    } else {
        digits_value(s.drop_last()) * 10 + digit_value(s.last())
    }
}

pub open spec fn pow10(n: nat) -> int
    decreases n,
{
    if n == 0 {
        1
    } else {
        10 * pow10((n - 1) as nat)
    }
}

/// How many digits the text starts with.
pub open spec fn lead_digits(s: Seq<char>) -> nat
    decreases s.len(),
{
    if s.len() > 0 && is_digit(s[0]) {
        1 + lead_digits(s.drop_first())
    } else {
        0
    }
}

/// `v`, held to at most `cap`.
pub open spec fn capped(v: int, cap: int) -> int {
    if v > cap {
        cap
    } else {
        v
    }
}

/// `n` times ten to the power `e`, rounded down.
pub open spec fn shifted(n: int, e: int) -> int {
    if e >= 0 {
        n * pow10(e as nat)
    } else {
        n / pow10((-e) as nat)
    }
}

/// The exponent that ends a number: none written is zero; else `e` or `E`,
/// an optional sign and at least one digit, up to the end.
pub open spec fn exponent_of(r: Seq<char>) -> Option<int> {
    if r.len() == 0 {
        Some(0)
    } else if r[0] == 'e' || r[0] == 'E' {
        let t = r.drop_first();
        let signed = t.len() > 0 && (t[0] == '-' || t[0] == '+');
        let x = if signed {
            t.drop_first()
        } else {
            t
        };
        if x.len() > 0 && all_digits(x) {
            Some(
                if signed && t[0] == '-' {
                    -digits_value(x)
                } else {
                    digits_value(x)
                },
            )
        } else {
            None
        }
    } else {
        None
    }
}

/// The magnitude, in millionths, that unsigned text denotes, if any.
pub open spec fn unsigned_amount(body: Seq<char>) -> Option<int> {
    let p = lead_digits(body) as int;
    let r1 = body.skip(p);
    let dotted = r1.len() > 0 && r1[0] == '.';
    let after = if dotted {
        r1.drop_first()
    } else {
        r1
    };
    let q = if dotted {
        lead_digits(after) as int
    } else {
        0
    };
    match exponent_of(after.skip(q)) {
        None => None,
        Some(e) => if p + q == 0 {
            None
        } else {
            Some(
                capped(
                    shifted(digits_value(body.take(p) + after.take(q)), e + SCALE_DIGITS - q),
                    MAX_AMOUNT as int,
                ),
            )
        },
    }
}

/// The amount, in millionths, that a piece of text denotes, if any.
pub open spec fn amount_of(s: Seq<char>) -> Option<int> {
    let signed = s.len() > 0 && (s[0] == '-' || s[0] == '+');
    let body = if signed {
        s.drop_first()
    } else {
        s
    };
    match unsigned_amount(body) {
        None => None,
        Some(m) => Some(
            if signed && s[0] == '-' {
                -m
            } else {
                m
            },
        ),
    }
}

proof fn lemma_lead_digits(s: Seq<char>, k: int)
    requires
        0 <= k <= s.len(),
        forall|j: int| 0 <= j < k ==> is_digit(#[trigger] s[j]),
    ensures
        lead_digits(s) >= k,
        k == s.len() || !is_digit(s[k]) ==> lead_digits(s) == k,
    decreases k,
{
    if k > 0 {
        assert forall|j: int| 0 <= j < k - 1 implies is_digit(#[trigger] s.drop_first()[j]) by {
            assert(s.drop_first()[j] == s[j + 1]);
        }
        lemma_lead_digits(s.drop_first(), k - 1);
    }
}

proof fn lemma_pow10_known()
    ensures
        pow10(6) == 1_000_000,
        pow10(16) == 10_000_000_000_000_000,
{
    reveal_with_fuel(pow10, 17);
}

proof fn lemma_pow10_mono(a: nat, b: nat)
    requires
        a <= b,
    ensures
        1 <= pow10(a) <= pow10(b),
    decreases b,
{
    if b > a {
        lemma_pow10_mono(a, (b - 1) as nat);
    } else if a > 0 {
        lemma_pow10_mono((a - 1) as nat, (a - 1) as nat);
    }
}

proof fn lemma_digits_concat(a: Seq<char>, b: Seq<char>)
    ensures
        digits_value(a + b) == digits_value(a) * pow10(b.len()) + digits_value(b),
    decreases b.len(),
{
    if b.len() == 0 {
        assert(a + b =~= a);
    } else {
        assert((a + b).drop_last() =~= a + b.drop_last());
        assert((a + b).last() == b.last());
        lemma_digits_concat(a, b.drop_last());
        assert(pow10(b.len()) == 10 * pow10((b.len() - 1) as nat));
        assert(digits_value(a) * pow10(b.len()) == (digits_value(a) * pow10(
            (b.len() - 1) as nat,
        )) * 10) by (nonlinear_arith)
            requires
                pow10(b.len()) == 10 * pow10((b.len() - 1) as nat),
        ;
    }
}

proof fn lemma_digits_bound(s: Seq<char>)
    requires
        all_digits(s),
    ensures
        0 <= digits_value(s) < pow10(s.len()),
    decreases s.len(),
{
    if s.len() > 0 {
        assert(all_digits(s.drop_last())) by {
            assert forall|i: int| 0 <= i < s.drop_last().len() implies is_digit(
                #[trigger] s.drop_last()[i],
            ) by {
                assert(s.drop_last()[i] == s[i]);
            }
        }
        lemma_digits_bound(s.drop_last());
        assert(is_digit(s[s.len() - 1]));
    }
}

/// Dropping the last `k` digits divides by ten to the `k`, rounding down.
proof fn lemma_digits_div(g: Seq<char>, k: nat)
    requires
        all_digits(g),
    ensures
        k <= g.len() ==> digits_value(g) / pow10(k) == digits_value(g.take(g.len() - k)),
        k > g.len() ==> digits_value(g) / pow10(k) == 0,
{
    lemma_pow10_mono(0, k);
    if k <= g.len() {
        let l = g.len() - k;
        assert(g =~= g.take(l) + g.skip(l));
        lemma_digits_concat(g.take(l), g.skip(l));
        assert(all_digits(g.skip(l))) by {
            assert forall|i: int| 0 <= i < g.skip(l).len() implies is_digit(#[trigger] g.skip(l)[i]) by {
                assert(g.skip(l)[i] == g[l + i]);
            }
        }
        lemma_digits_bound(g.skip(l));
        lemma_fundamental_div_mod_converse(
            digits_value(g),
            pow10(k),
            digits_value(g.take(l)),
            digits_value(g.skip(l)),
        );
    } else {
        lemma_digits_bound(g);
        lemma_pow10_mono(g.len(), k);
        lemma_fundamental_div_mod_converse(digits_value(g), pow10(k), 0, digits_value(g));
    }
}

proof fn lemma_capped_step(acc: int, w: int, d: int, cap: int)
    requires
        acc == capped(w, cap),
        w >= 0,
        0 <= d <= 9,
        cap >= 0,
    ensures
        capped(acc * 10 + d, cap) == capped(w * 10 + d, cap),
{
}

/// Past sixteen places, any positive number is beyond every amount.
proof fn lemma_shift_up_saturates(n: int, e1: nat, e2: nat)
    requires
        n >= 0,
        e1 >= 16,
        e2 >= 16,
    ensures
        capped(n * pow10(e1), MAX_AMOUNT as int) == capped(n * pow10(e2), MAX_AMOUNT as int),
{
    lemma_pow10_known();
    lemma_pow10_mono(16, e1);
    lemma_pow10_mono(16, e2);
    if n >= 1 {
        assert(n * pow10(e1) >= pow10(e1) && n * pow10(e2) >= pow10(e2)) by (nonlinear_arith)
            requires
                n >= 1,
                pow10(e1) >= 1,
                pow10(e2) >= 1,
        ;
    } else {
        assert(n * pow10(e1) == 0 && n * pow10(e2) == 0) by (nonlinear_arith)
            requires
                n == 0,
        ;
    }
}

fn is_digit_char(c: char) -> (r: bool)
    ensures
        r == is_digit(c),
{
    '0' <= c && c <= '9'
}

/// Scans the run of digits that starts at `from`; returns where it ends,
/// the value of its first `keep` digits and how many digits that was.
fn scan_digits(s: &str, from: usize, keep: usize) -> (r: (usize, i128, usize))
    requires
        from <= s@.len(),
        keep <= 10,
    ensures
        from <= r.0 <= s@.len(),
        forall|j: int| from <= j < r.0 ==> is_digit(#[trigger] s@[j]),
        r.0 == s@.len() || !is_digit(s@[r.0 as int]),
        r.2 == if r.0 - from < keep { (r.0 - from) as usize } else { keep },
        r.1 == digits_value(s@.subrange(from as int, from + r.2)),
        0 <= r.1 < pow10(r.2 as nat),
{
    let n = s.unicode_len();
    let mut i = from;
    let mut value: i128 = 0;
    let mut kept: usize = 0;
    proof {
        lemma_pow10_mono(0, 10);
        reveal_with_fuel(pow10, 11);
    }
    while i < n && is_digit_char(s.get_char(i))
        invariant
            n == s@.len(),
            from <= i <= n,
            keep <= 10,
            pow10(10) == 10_000_000_000,
            forall|j: int| from <= j < i ==> is_digit(#[trigger] s@[j]),
            kept == if i - from < keep { (i - from) as usize } else { keep },
            value == digits_value(s@.subrange(from as int, from + kept)),
            0 <= value < pow10(kept as nat),
        decreases n - i,
    {
        if kept < keep {
            let d = s.get_char(i);
            proof {
                assert(s@.subrange(from as int, i + 1).drop_last() =~= s@.subrange(
                    from as int,
                    i as int,
                ));
                lemma_pow10_mono((kept + 1) as nat, 10);
                assert(pow10((kept + 1) as nat) == 10 * pow10(kept as nat));
            }
            value = value * 10 + (d as i128 - '0' as i128);
            kept = kept + 1;
        }
        i = i + 1;
    }
    (i, value, kept)
}

/// Reads digits `from..to` into `acc`, which holds `v` held to `cap`.
fn accumulate(s: &str, from: usize, to: usize, acc: i128, cap: i128, Ghost(v): Ghost<int>) -> (r:
    i128)
    requires
        from <= to <= s@.len(),
        forall|j: int| from <= j < to ==> is_digit(#[trigger] s@[j]),
        v >= 0,
        0 <= cap <= EXPONENT_CAP,
        acc == capped(v, cap as int),
    ensures
        r == capped(
            v * pow10((to - from) as nat) + digits_value(s@.subrange(from as int, to as int)),
            cap as int,
        ),
        0 <= r <= cap,
{
    let mut r = acc;
    let mut i = from;
    assert(s@.subrange(from as int, from as int) =~= Seq::<char>::empty());
    while i < to
        invariant
            from <= i <= to <= s@.len(),
            forall|j: int| from <= j < to ==> is_digit(#[trigger] s@[j]),
            v >= 0,
            0 <= cap <= EXPONENT_CAP,
            r == capped(
                v * pow10((i - from) as nat) + digits_value(s@.subrange(from as int, i as int)),
                cap as int,
            ),
            0 <= r <= cap,
            v * pow10((i - from) as nat) >= 0,
            digits_value(s@.subrange(from as int, i as int)) >= 0,
        decreases to - i,
    {
        let c = s.get_char(i);
        assert(is_digit(s@[i as int]));
        let d = c as i128 - '0' as i128;
        let ghost w = v * pow10((i - from) as nat) + digits_value(s@.subrange(from as int, i as int));
        proof {
            assert(s@.subrange(from as int, i + 1).drop_last() =~= s@.subrange(from as int, i as int));
            assert(pow10((i + 1 - from) as nat) == 10 * pow10((i - from) as nat));
            assert(v * pow10((i + 1 - from) as nat) == (v * pow10((i - from) as nat)) * 10)
                by (nonlinear_arith)
                requires
                    pow10((i + 1 - from) as nat) == 10 * pow10((i - from) as nat),
            ;
            lemma_capped_step(r as int, w, d as int, cap as int);
        }
        let t = r * 10 + d;
        r = if t > cap {
            cap
        } else {
            t
        };
        i = i + 1;
    }
    r
}

/// The first `l` digits of the digits at `a..a + p` followed by those at
/// `f..f + q`, held to the largest amount.
fn prefix_value(s: &str, a: usize, p: usize, f: usize, q: usize, l: usize) -> (r: i128)
    requires
        a + p <= s@.len(),
        f + q <= s@.len(),
        forall|j: int| a <= j < a + p ==> is_digit(#[trigger] s@[j]),
        forall|j: int| f <= j < f + q ==> is_digit(#[trigger] s@[j]),
        l <= p + q,
    ensures
        r == capped(
            digits_value(
                (s@.subrange(a as int, a + p) + s@.subrange(f as int, f + q)).take(l as int),
            ),
            MAX_AMOUNT as int,
        ),
        0 <= r <= MAX_AMOUNT,
{
    let ghost g = s@.subrange(a as int, a + p) + s@.subrange(f as int, f + q);
    let _n = s.unicode_len();
    if l <= p {
        assert(g.take(l as int) =~= s@.subrange(a as int, a + l));
        accumulate(s, a, a + l, 0, MAX_AMOUNT, Ghost(0))
    } else {
        let x = accumulate(s, a, a + p, 0, MAX_AMOUNT, Ghost(0));
        let ghost dv = digits_value(s@.subrange(a as int, a + p));
        proof {
            lemma_digits_bound_range(s@, a as int, a + p);
        }
        let y = accumulate(s, f, f + (l - p), x, MAX_AMOUNT, Ghost(dv));
        proof {
            assert(g.take(l as int) =~= s@.subrange(a as int, a + p) + s@.subrange(
                f as int,
                f + (l - p),
            ));
            lemma_digits_concat(s@.subrange(a as int, a + p), s@.subrange(f as int, f + (l - p)));
        }
        y
    }
}

proof fn lemma_digits_bound_range(t: Seq<char>, a: int, b: int)
    requires
        0 <= a <= b <= t.len(),
        forall|j: int| a <= j < b ==> is_digit(#[trigger] t[j]),
    ensures
        0 <= digits_value(t.subrange(a, b)),
{
    assert(all_digits(t.subrange(a, b))) by {
        assert forall|i: int| 0 <= i < b - a implies is_digit(#[trigger] t.subrange(a, b)[i]) by {
            assert(t.subrange(a, b)[i] == t[a + i]);
        }
    }
    lemma_digits_bound(t.subrange(a, b));
}

/// `n`, which holds `big` held to the largest amount, times ten to `e`.
fn scale_up(n: i128, e: i128, Ghost(big): Ghost<int>) -> (r: i128)
    requires
        n == capped(big, MAX_AMOUNT as int),
        big >= 0,
        e >= 0,
    ensures
        r == capped(big * pow10(e as nat), MAX_AMOUNT as int),
        0 <= r <= MAX_AMOUNT,
{
    if n == 0 {
        assert(big * pow10(e as nat) == 0) by (nonlinear_arith)
            requires
                big == 0,
        ;
        return 0;
    }
    let mut r = n;
    let mut i: i128 = 0;
    while i < e && r < MAX_AMOUNT
        invariant
            0 <= i <= e,
            big >= 1,
            r == capped(big * pow10(i as nat), MAX_AMOUNT as int),
            1 <= r <= MAX_AMOUNT,
        decreases e - i,
    {
        proof {
            assert(pow10((i + 1) as nat) == 10 * pow10(i as nat));
            assert(big * pow10((i + 1) as nat) == (big * pow10(i as nat)) * 10) by (nonlinear_arith)
                requires
                    pow10((i + 1) as nat) == 10 * pow10(i as nat),
            ;
            lemma_pow10_mono(0, i as nat);
            assert(big * pow10(i as nat) >= 0) by (nonlinear_arith)
                requires
                    big >= 1,
                    pow10(i as nat) >= 1,
            ;
            lemma_capped_step(r as int, big * pow10(i as nat), 0, MAX_AMOUNT as int);
        }
        let t = r * 10;
        r = if t > MAX_AMOUNT {
            MAX_AMOUNT
        } else {
            t
        };
        i = i + 1;
    }
    if i < e {
        proof {
            lemma_pow10_mono(i as nat, e as nat);
            assert(big * pow10(i as nat) <= big * pow10(e as nat)) by (nonlinear_arith)
                requires
                    big >= 1,
                    pow10(i as nat) <= pow10(e as nat),
            ;
        }
    }
    r
}

/// Reads the exponent that starts at `from`, held to the exponent cap.
fn read_exponent(s: &str, from: usize) -> (r: Option<i128>)
    requires
        from <= s@.len(),
    ensures
        match r {
            None => exponent_of(s@.skip(from as int)) is None,
            Some(e) => exponent_of(s@.skip(from as int)) matches Some(x) && e == (if x
                > EXPONENT_CAP {
                EXPONENT_CAP as int
            } else if x < -EXPONENT_CAP {
                -EXPONENT_CAP as int
            } else {
                x
            }),
        },
{
    let n = s.unicode_len();
    let ghost r0 = s@.skip(from as int);
    if from == n {
        return Some(0);
    }
    let c = s.get_char(from);
    assert(r0[0] == c);
    if c != 'e' && c != 'E' {
        return None;
    }
    let ghost t = r0.drop_first();
    assert(t =~= s@.subrange(from + 1, n as int));
    let mut x0 = from + 1;
    let mut negative = false;
    if x0 < n {
        let c2 = s.get_char(x0);
        assert(t[0] == c2);
        if c2 == '-' || c2 == '+' {
            negative = c2 == '-';
            x0 = x0 + 1;
        }
    }
    let ghost x = s@.subrange(x0 as int, n as int);
    assert(x =~= (if x0 == from + 2 {
        t.drop_first()
    } else {
        t
    }));
    let (x1, _, _) = scan_digits(s, x0, 0);
    if x1 != n || x1 == x0 {
        if x1 != n {
            assert(x[x1 - x0] == s@[x1 as int]);
        }
        return None;
    }
    assert(all_digits(x));
    let v = accumulate(s, x0, n, 0, EXPONENT_CAP, Ghost(0));
    proof {
        lemma_digits_bound(x);
    }
    if negative {
        Some(-v)
    } else {
        Some(v)
    }
}

/// The magnitude, in millionths, of the digits at `a..a + p` and `f..f + q`
/// (the latter after the point) under the exponent `x`, held to `e`.
fn magnitude(s: &str, start: usize, p: usize, f: usize, q: usize, e: i128, Ghost(x): Ghost<int>) -> (m:
    i128)
    requires
        start + p <= f,
        f + q <= s@.len(),
        p + q > 0,
        forall|j: int| start <= j < start + p ==> is_digit(#[trigger] s@[j]),
        forall|j: int| f <= j < f + q ==> is_digit(#[trigger] s@[j]),
        e == (if x > EXPONENT_CAP {
            EXPONENT_CAP as int
        } else if x < -EXPONENT_CAP {
            -EXPONENT_CAP as int
        } else {
            x
        }),
    ensures
        m == capped(
            shifted(
                digits_value(s@.subrange(start as int, start + p) + s@.subrange(f as int, f + q)),
                x + SCALE_DIGITS - q,
            ),
            MAX_AMOUNT as int,
        ),
        0 <= m <= MAX_AMOUNT,
{
    let ghost t = s@;
    let _n = s.unicode_len();
    let ghost digits = t.subrange(start as int, start + p) + t.subrange(f as int, f + q);
    let ghost big = digits_value(digits);
    proof {
        assert(all_digits(digits)) by {
            assert forall|j: int| 0 <= j < digits.len() implies is_digit(#[trigger] digits[j]) by {
                if j < p {
                    assert(digits[j] == t[start + j]);
                } else {
                    assert(digits[j] == t[f + j - p]);
                }
            }
        }
        lemma_digits_bound(digits);
        assert(digits.take(digits.len() as int) =~= digits);
    }
    let len = p + q;
    let shift = e + SCALE_DIGITS - q as i128;
    if shift >= 0 {
        let nv = prefix_value(s, start, p, f, q, len);
        let m = scale_up(nv, shift, Ghost(big));
        proof {
            if x > EXPONENT_CAP {
                lemma_shift_up_saturates(big, shift as nat, (x + SCALE_DIGITS - q) as nat);
            }
        }
        m
    } else {
        let k = -shift;
        proof {
            lemma_digits_div(digits, k as nat);
            if x < -EXPONENT_CAP {
                lemma_digits_div(digits, (-(x + SCALE_DIGITS - q)) as nat);
            }
        }
        if k >= len as i128 {
            0
        } else {
            prefix_value(s, start, p, f, q, (len as i128 - k) as usize)
        }
    }
}

/// Reads the magnitude, in millionths, of the unsigned text from `start`.
fn parse_unsigned(s: &str, start: usize) -> (r: Option<i128>)
    requires
        start <= s@.len(),
    ensures
        match r {
            Some(m) => unsigned_amount(s@.skip(start as int)) == Some(m as int) && 0 <= m
                <= MAX_AMOUNT,
            None => unsigned_amount(s@.skip(start as int)) is None,
        },
{
    let n = s.unicode_len();
    let ghost t = s@;
    let ghost body = t.skip(start as int);
    let (i, _, _) = scan_digits(s, start, 0);
    let p = i - start;
    proof {
        assert forall|j: int| 0 <= j < p implies is_digit(#[trigger] body[j]) by {
            assert(body[j] == t[start + j]);
        }
        lemma_lead_digits(body, p as int);
    }
    let ghost r1 = body.skip(p as int);
    assert(r1 =~= t.subrange(i as int, n as int));
    let dotted = i < n && s.get_char(i) == '.';
    let f = if dotted {
        i + 1
    } else {
        i
    };
    let ghost after = if dotted {
        r1.drop_first()
    } else {
        r1
    };
    assert(after =~= t.subrange(f as int, n as int));
    let q = if dotted {
        let (e_end, _, _) = scan_digits(s, f, 0);
        proof {
            assert forall|j: int| 0 <= j < e_end - f implies is_digit(#[trigger] after[j]) by {
                assert(after[j] == t[f + j]);
            }
            lemma_lead_digits(after, (e_end - f) as int);
        }
        e_end - f
    } else {
        0
    };
    let e_end = f + q;
    assert(after.skip(q as int) =~= t.skip(e_end as int));
    let e = match read_exponent(s, e_end) {
        None => {
            return None;
        },
        Some(e) => e,
    };
    if p + q == 0 {
        return None;
    }
    assert(t.subrange(start as int, start + p) + t.subrange(f as int, f + q) =~= body.take(
        p as int,
    ) + after.take(q as int));
    let m = magnitude(s, start, p, f, q, e, Ghost(exponent_of(t.skip(e_end as int))->0));
    Some(m)
}

/// Reads an amount, in millionths, from text.
pub fn parse_amount(s: &str) -> (r: Option<i128>)
    ensures
        match r {
            Some(v) => amount_of(s@) == Some(v as int) && -AMOUNT_LIMIT < v < AMOUNT_LIMIT,
            None => amount_of(s@) is None,
        },
{
    let n = s.unicode_len();
    let mut start: usize = 0;
    let mut negative = false;
    if n > 0 {
        let c = s.get_char(0);
        if c == '-' || c == '+' {
            negative = c == '-';
            start = 1;
        }
    }
    assert(s@.skip(start as int) =~= (if start == 1 {
        s@.drop_first()
    } else {
        s@
    }));
    match parse_unsigned(s, start) {
        None => None,
        Some(m) => if negative {
            Some(-m)
        } else {
            Some(m)
        },
    }
}

} // verus!
