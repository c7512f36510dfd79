//! Decimal rendering of integers and fixed-point scores.
use vstd::prelude::*;
use vstd::string::StringSliceAdditionalSpecFns;
use crate::score::SCALE;

verus! {

/// The character of a decimal digit.
pub open spec fn digit_char(d: int) -> char {
    if d == 0 {
        '0'
    } else if d == 1 {
        '1'
    } else if d == 2 {
        '2'
    } else if d == 3 {
        '3'
    } else if d == 4 {
        '4'
    } else if d == 5 {
        '5'
    } else if d == 6 {
        '6'
    } else if d == 7 {
        '7'
    } else if d == 8 {
        '8'
    } else {
        '9'
    }
}

/// The decimal digits of `n`, most significant first, without leading zeros.
pub open spec fn decimal_text(n: nat) -> Seq<char>
    decreases n,
{
    if n < 10 {
        seq![digit_char(n as int)]
    } else {
        decimal_text(n / 10).push(digit_char((n % 10) as int))
    }
}

/// `n` in decimal, with a leading minus sign when negative.
pub open spec fn signed_decimal_text(n: int) -> Seq<char> {
    if n < 0 {
        seq!['-'] + decimal_text((-n) as nat)
    } else {
        decimal_text(n as nat)
    }
}

/// A score in hundredths of one, rounded half up.
pub open spec fn score_hundredths(score: u64) -> nat {
    (score / 10_000 + if score % 10_000 >= 5_000 { 1int } else { 0int }) as nat
}

/// A score as a decimal fraction of one with two places, e.g. `0.25`.
pub open spec fn score_text(score: u64) -> Seq<char> {
    let h = score_hundredths(score);
    decimal_text(h / 100) + seq!['.', digit_char(((h % 100) / 10) as int), digit_char((h % 10) as int)]
}

/// The one-character string of a decimal digit.
fn digit_string(d: u64) -> (r: String)
    requires
        d < 10,
    ensures
        r@ == seq![digit_char(d as int)],
{
    proof {
        reveal_strlit("0");
        reveal_strlit("1");
        reveal_strlit("2");
        reveal_strlit("3");
        reveal_strlit("4");
        reveal_strlit("5");
        reveal_strlit("6");
        reveal_strlit("7");
        reveal_strlit("8");
        reveal_strlit("9");
    }
    let r = if d == 0 {
        String::from_str("0")
    } else if d == 1 {
        String::from_str("1")
    } else if d == 2 {
        String::from_str("2")
    } else if d == 3 {
        String::from_str("3")
    } else if d == 4 {
        String::from_str("4")
    } else if d == 5 {
        String::from_str("5")
    } else if d == 6 {
        String::from_str("6")
    } else if d == 7 {
        String::from_str("7")
    } else if d == 8 {
        String::from_str("8")
    } else {
        String::from_str("9")
    };
    assert(r@ =~= seq![digit_char(d as int)]);
    r
}

/// `n` in decimal.
pub fn decimal_string(n: u64) -> (r: String)
    ensures
        r@ == decimal_text(n as nat),
    decreases n,
{
    if n < 10 {
        digit_string(n)
    } else {
        let mut r = decimal_string(n / 10);
        let d = digit_string(n % 10);
        r.append(d.as_str());
        assert(r@ =~= decimal_text(n as nat));
        r
    }
}

/// `n` in decimal, signed.
pub fn signed_decimal_string(n: i64) -> (r: String)
    ensures
        r@ == signed_decimal_text(n as int),
{
    if n < 0 {
        let magnitude: u64 = ((-(n as i128)) as u64);
        let mut r = String::from_str("-");
        let digits = decimal_string(magnitude);
        r.append(digits.as_str());
        proof {
            reveal_strlit("-");
        }
        assert(r@ =~= signed_decimal_text(n as int));
        r
    } else {
        decimal_string(n as u64)
    }
}

/// A score with two decimal places.
pub fn score_string(score: u64) -> (r: String)
    ensures
        r@ == score_text(score),
{
    let h: u64 = score / 10_000 + if score % 10_000 >= 5_000 { 1 } else { 0 };
    let mut r = decimal_string(h / 100);
    r.append(".");
    let tens = digit_string((h % 100) / 10);
    let ones = digit_string(h % 10);
    r.append(tens.as_str());
    r.append(ones.as_str());
    proof {
        reveal_strlit(".");
    }
    assert(r@ =~= score_text(score));
    r
}

/// Whole seconds (rounded down) of a time in milliseconds.
pub open spec fn seconds_of(millis: i64) -> int {
    (millis as int) / 1000
}

/// Whole seconds (rounded down) of a time in milliseconds.
pub fn seconds_from_millis(millis: i64) -> (r: i64)
    ensures
        r as int == seconds_of(millis),
{
    let m = millis as i128;
    let s: i128 = if m >= 0 { m / 1000 } else { -((-m + 999) / 1000) };
    proof {
        if m < 0 {
            assert(s == (m as int) / 1000) by (nonlinear_arith)
                requires m < 0, s == -((-m + 999) / 1000);
        }
    }
    s as i64
}

/// Whether a byte is an ASCII decimal digit.
pub open spec fn is_digit_byte(b: u8) -> bool {
    48 <= b <= 57
}

/// Every byte is a decimal digit.
pub open spec fn all_digit_bytes(s: Seq<u8>) -> bool {
    forall|i: int| 0 <= i < s.len() ==> is_digit_byte(#[trigger] s[i])
}

/// The number that a run of digit bytes spells.
pub open spec fn digits_value(s: Seq<u8>) -> nat
    decreases s.len(),
{
    if s.len() == 0 {
        0
    } else {
        digits_value(s.drop_last()) * 10 + (s.last() - 48) as nat
    }
}

/// Ten to the power `n`.
pub open spec fn pow10(n: nat) -> nat
    decreases n,
{
    if n == 0 {
        1
    } else {
        10 * pow10((n - 1) as nat)
    }
}

/// Up to six fraction digits, in millionths; further digits are dropped.
pub open spec fn fraction_millionths(f: Seq<u8>) -> nat {
    let kept = if f.len() <= 6 { f } else { f.take(6) };
    digits_value(kept) * pow10((6 - kept.len()) as nat)
}

/// `s` splits at `p` into digits, a dot and digits.
pub open spec fn splits_at(s: Seq<u8>, p: int) -> bool {
    &&& 0 < p < s.len()
    &&& s[p] == 46
    &&& all_digit_bytes(s.take(p))
    &&& all_digit_bytes(s.skip(p + 1))
}

/// The value, in millionths, of a decimal written `W` or `W.F` (`W` one or more
/// digits, `F` digits); none for any other text.
pub open spec fn fixed_point_value(s: Seq<u8>) -> Option<nat> {
    if s.len() > 0 && all_digit_bytes(s) {
        Some(digits_value(s) * (SCALE as nat))
    } else if exists|p: int| splits_at(s, p) {
        let p = choose|p: int| splits_at(s, p);
        Some(digits_value(s.take(p)) * (SCALE as nat) + fraction_millionths(s.skip(p + 1)))
    } else {
        None
    }
}

/// The value if it fits in a `u64`.
pub open spec fn fitting(v: Option<nat>) -> Option<u64> {
    match v {
        Some(n) => if n <= u64::MAX {
            Some(n as u64)
        } else {
            None
        },
        None => None,
    }
}

/// A digit run extended by one more digit.
proof fn lemma_digits_step(s: Seq<u8>, i: int)
    requires
        0 <= i < s.len(),
    ensures
        digits_value(s.take(i + 1)) == digits_value(s.take(i)) * 10 + (s[i] - 48) as nat,
{
    assert(s.take(i + 1).drop_last() =~= s.take(i));
}

/// A longer run of digits spells a number at least as large.
proof fn lemma_digits_monotone(s: Seq<u8>, k: int)
    requires
        0 <= k <= s.len(),
        all_digit_bytes(s),
    ensures
        digits_value(s) >= digits_value(s.take(k)),
    decreases s.len() - k,
{
    if k < s.len() {
        lemma_digits_step(s, k);
        assert(is_digit_byte(s[k]));
        lemma_digits_monotone(s, k + 1);
    } else {
        assert(s.take(k) =~= s);
    }
}

/// Ten to a power up to six.
fn pow10_small(n: u64) -> (r: u64)
    requires
        n <= 6,
    ensures
        r == pow10(n as nat),
        r <= 1_000_000,
{
    proof {
        reveal_with_fuel(pow10, 7);
    }
    if n == 0 {
        1
    } else if n == 1 {
        10
    } else if n == 2 {
        100
    } else if n == 3 {
        1_000
    } else if n == 4 {
        10_000
    } else if n == 5 {
        100_000
    } else {
        1_000_000
    }
}

/// Ten to `k` times ten to `6 - k` is a million.
proof fn lemma_pow10_split(k: nat)
    requires
        k <= 6,
    ensures
        pow10(k) * pow10((6 - k) as nat) == 1_000_000,
{
    reveal_with_fuel(pow10, 7);
    assert(pow10(0) == 1);
    assert(pow10(1) == 10);
    assert(pow10(2) == 100);
    assert(pow10(3) == 1_000);
    assert(pow10(4) == 10_000);
    assert(pow10(5) == 100_000);
    assert(pow10(6) == 1_000_000);
    let rest = (6 - k) as nat;
    if k == 0 {
        assert(rest == 6);
    } else if k == 1 {
        assert(rest == 5);
    } else if k == 2 {
        assert(rest == 4);
    } else if k == 3 {
        assert(rest == 3);
    } else if k == 4 {
        assert(rest == 2);
    } else if k == 5 {
        assert(rest == 1);
    } else {
        assert(k == 6 && rest == 0);
    }
}

/// A text splits at one position at most.
proof fn lemma_split_unique(s: Seq<u8>, p: int, q: int)
    requires
        splits_at(s, p),
        splits_at(s, q),
    ensures
        p == q,
{
    if p < q {
        assert(s.take(q)[p] == s[p]);
        assert(is_digit_byte(s.take(q)[p]));
    } else if q < p {
        assert(s.take(p)[q] == s[q]);
        assert(is_digit_byte(s.take(p)[q]));
    }
}

/// A text is not a decimal when position `i` holds neither a digit nor, after
/// a run of digits, the dot.
proof fn lemma_not_decimal_at(s: Seq<u8>, i: int)
    requires
        0 <= i < s.len(),
        all_digit_bytes(s.take(i)),
        !is_digit_byte(s[i]),
        s[i] != 46 || i == 0,
    ensures
        fixed_point_value(s) is None,
{
    if all_digit_bytes(s) {
        assert(is_digit_byte(s[i]));
    }
    if exists|p: int| splits_at(s, p) {
        let p = choose|p: int| splits_at(s, p);
        if p < i {
            assert(s.take(i)[p] == s[p]);
            assert(is_digit_byte(s.take(i)[p]));
        } else if p > i {
            assert(s.take(p)[i] == s[i]);
            assert(is_digit_byte(s.take(p)[i]));
        }
    }
}

/// A text whose leading digits already exceed `u64::MAX` has no value that fits.
proof fn lemma_prefix_too_large(s: Seq<u8>, k: int)
    requires
        0 < k <= s.len(),
        all_digit_bytes(s.take(k)),
        digits_value(s.take(k)) > u64::MAX,
    ensures
        fitting(fixed_point_value(s)) is None,
{
    let scale = SCALE as nat;
    if s.len() > 0 && all_digit_bytes(s) {
        lemma_digits_monotone(s, k);
        assert(digits_value(s) * scale >= digits_value(s)) by (nonlinear_arith)
            requires scale >= 1;
    } else if exists|p: int| splits_at(s, p) {
        let p = choose|p: int| splits_at(s, p);
        if p < k {
            assert(s.take(k)[p] == s[p]);
            assert(is_digit_byte(s.take(k)[p]));
        }
        let w = s.take(p);
        assert(w.take(k) =~= s.take(k));
        lemma_digits_monotone(w, k);
        assert(digits_value(w) * scale >= digits_value(w)) by (nonlinear_arith)
            requires scale >= 1;
    }
}

/// Reads a decimal `W` or `W.F` as millionths (fraction digits past the sixth
/// are dropped); none when the text is anything else or the value does not fit.
pub fn parse_fixed_point(s: &str) -> (r: Option<u64>)
    ensures
        r == fitting(fixed_point_value(s.spec_bytes())),
{
    let b = s.as_bytes();
    let ghost bs = b@;
    let n = b.len();
    let mut whole: u64 = 0;
    let mut i: usize = 0;
    while i < n && 48 <= b[i] && b[i] <= 57
        invariant
            bs == b@,
            bs == s.spec_bytes(),
            n == bs.len(),
            i <= n,
            all_digit_bytes(bs.take(i as int)),
            whole == digits_value(bs.take(i as int)),
        decreases n - i,
    {
        let d = (b[i] - 48) as u64;
        proof {
            lemma_digits_step(bs, i as int);
            assert(all_digit_bytes(bs.take(i + 1))) by {
                assert forall|x: int| 0 <= x < i + 1 implies is_digit_byte(#[trigger] bs.take(i + 1)[x]) by {
                    if x < i {
                        assert(bs.take(i + 1)[x] == bs.take(i as int)[x]);
                    }
                }
            }
        }
        if whole > (u64::MAX - d) / 10 {
            proof {
                assert(whole * 10 + d > u64::MAX) by (nonlinear_arith)
                    requires whole > (u64::MAX - d) / 10, d <= 9;
                lemma_prefix_too_large(bs, i + 1);
            }
            return None;
        }
        whole = whole * 10 + d;
        i = i + 1;
    }
    if i == 0 {
        proof {
            if n > 0 {
                assert(!is_digit_byte(bs[0]));
                assert(bs.take(0) =~= Seq::<u8>::empty());
                lemma_not_decimal_at(bs, 0);
            } else {
                assert(!exists|p: int| splits_at(bs, p));
            }
        }
        return None;
    }
    if i == n {
        proof {
            assert(bs.take(n as int) =~= bs);
        }
        if whole > u64::MAX / SCALE {
            proof {
                assert((whole as nat) * (SCALE as nat) > u64::MAX) by (nonlinear_arith)
                    requires whole > u64::MAX / SCALE, SCALE > 0;
            }
            return None;
        }
        return Some(whole * SCALE);
    }
    if b[i] != 46 {
        proof {
            lemma_not_decimal_at(bs, i as int);
        }
        return None;
    }
    let ghost fs = bs.skip(i + 1);
    let mut frac: u64 = 0;
    let mut kept: u64 = 0;
    let mut j: usize = i + 1;
    while j < n
        invariant
            bs == b@,
            bs == s.spec_bytes(),
            n == bs.len(),
            0 < i < n,
            bs[i as int] == 46,
            all_digit_bytes(bs.take(i as int)),
            whole == digits_value(bs.take(i as int)),
            fs == bs.skip(i + 1),
            i + 1 <= j <= n,
            all_digit_bytes(fs.take(j - (i + 1))),
            kept <= 6,
            kept as int == if j - (i + 1) <= 6 { j - (i + 1) } else { 6 },
            frac == digits_value(fs.take(kept as int)),
            frac < pow10(kept as nat),
        decreases n - j,
    {
        if b[j] < 48 || b[j] > 57 {
            proof {
                assert(!all_digit_bytes(fs)) by {
                    assert(fs[j - (i + 1)] == bs[j as int]);
                }
                if all_digit_bytes(bs) {
                    assert(is_digit_byte(bs[i as int]));
                }
                if exists|p: int| splits_at(bs, p) {
                    let p = choose|p: int| splits_at(bs, p);
                    assert(splits_at(bs, i as int) || true);
                    if p != i {
                        if p < i {
                            assert(bs.take(i as int)[p] == bs[p]);
                            assert(is_digit_byte(bs.take(i as int)[p]));
                        } else {
                            assert(bs.take(p)[i as int] == bs[i as int]);
                            assert(is_digit_byte(bs.take(p)[i as int]));
                        }
                    }
                }
            }
            return None;
        }
        let d = (b[j] - 48) as u64;
        proof {
            let k = j - (i + 1);
            assert(fs[k] == bs[j as int]);
            assert(all_digit_bytes(fs.take(k + 1))) by {
                assert forall|x: int| 0 <= x < k + 1 implies is_digit_byte(#[trigger] fs.take(k + 1)[x]) by {
                    if x < k {
                        assert(fs.take(k + 1)[x] == fs.take(k)[x]);
                    }
                }
            }
        }
        if kept < 6 {
            proof {
                lemma_digits_step(fs, kept as int);
                reveal_with_fuel(pow10, 7);
                assert(frac * 10 + d < pow10((kept + 1) as nat)) by (nonlinear_arith)
                    requires frac < pow10(kept as nat), d <= 9, pow10((kept + 1) as nat) == 10 * pow10(kept as nat);
                assert(pow10((kept + 1) as nat) <= 1_000_000) by {
                    reveal_with_fuel(pow10, 7);
                }
            }
            frac = frac * 10 + d;
            kept = kept + 1;
        }
        j = j + 1;
    }
    let scale_rest = pow10_small(6 - kept);
    proof {
        let k = n - (i + 1);
        assert(fs.len() == k);
        assert(fs.take(k) =~= fs);
        assert(all_digit_bytes(fs));
        assert(bs.take(i as int) =~= bs.take(i as int));
        assert(splits_at(bs, i as int));
        let p = choose|p: int| splits_at(bs, p);
        lemma_split_unique(bs, p, i as int);
        if fs.len() <= 6 {
            assert(fs.take(kept as int) =~= fs);
        }
        if all_digit_bytes(bs) {
            assert(is_digit_byte(bs[i as int]));
        }
        lemma_pow10_split(kept as nat);
        assert((frac as int) * (scale_rest as int) < 1_000_000) by (nonlinear_arith)
            requires frac < pow10(kept as nat), scale_rest == pow10((6 - kept) as nat),
                pow10(kept as nat) * pow10((6 - kept) as nat) == 1_000_000;
    }
    let total: u128 = (whole as u128) * (SCALE as u128) + (frac as u128) * (scale_rest as u128);
    if total > u64::MAX as u128 {
        None
    } else {
        Some(total as u64)
    }
}

} // verus!
