//! Decimal numbers in fixed point: a count of millionths.
//!
//! Prices, tier bounds and percentages are all read from text. A number is
//! written as an optional sign, digits, and an optional point followed by more
//! digits; at least one digit must be there. Its value is kept to six
//! fractional digits: further digits are read and dropped, so the value is
//! cut toward zero, never rounded. A number too large for 64 bits of
//! millionths is held as the largest number that fits.
//!
//! Whether a number is below zero, and whether one number is at least
//! another, is a question about the numbers as they are written, with all
//! their digits: it is answered before any digit is dropped.

use crate::text::{chars_of, find, index_of, lemma_index_of};
use vstd::prelude::*;
use vstd::slice::slice_subrange;

verus! {

/// How many millionths make one.
pub const MICROS_PER_UNIT: u64 = 1_000_000;

/// A non-negative decimal number, held as a count of millionths.
#[derive(Clone, Copy, Debug, PartialEq, Eq, Structural)]
pub struct Decimal {
    pub micros: u64,
}

impl View for Decimal {
    type V = nat;

    /// The number in millionths.
    open spec fn view(&self) -> nat {
        self.micros as nat
    }
}

impl DeepView for Decimal {
    type V = nat;

    open spec fn deep_view(&self) -> nat {
        self@
    }
}

/// A number as it was read: a magnitude and the sign written before it.
#[derive(Clone, Copy, Debug, PartialEq, Eq, Structural)]
pub struct Number {
    pub negative: bool,
    pub magnitude: Decimal,
}

impl Number {
    /// The signed value in millionths.
    pub open spec fn value(self) -> int {
        if self.negative {
            -(self.magnitude@ as int)
        } else {
            self.magnitude@ as int
        }
    }
}

/// Whether `c` is one of the ten digits `0` to `9`.
pub open spec fn is_digit(c: char) -> bool {
    48 <= c as u32 <= 57
}

/// The value of a decimal digit; zero for any other character.
pub open spec fn digit_value(c: char) -> nat {
    if is_digit(c) {
        (c as u32 - 48) as nat
    } else {
        0
    }
}

/// Whether `s` holds digits only; the empty string does.
pub open spec fn all_digits(s: Seq<char>) -> bool {
    forall|i: int| 0 <= i < s.len() ==> is_digit(#[trigger] s[i])
}

/// The value of a string of digits, most significant first.
pub open spec fn digits_value(s: Seq<char>) -> nat
    decreases s.len(),
{
    if s.len() == 0 {
        0
    } else {
        digits_value(s.drop_last()) * 10 + digit_value(s.last())
    }
}

/// The first `k` characters of `digits`, with `'0'` where `digits` has ended.
pub open spec fn padded(digits: Seq<char>, k: nat) -> Seq<char> {
    Seq::new(
        k,
        |i: int|
            if i < digits.len() {
                digits[i]
            } else {
                '0'
            },
    )
}

/// What the digits after the point are worth, in millionths: the first six count.
pub open spec fn fraction_micros(frac: Seq<char>) -> nat {
    digits_value(padded(frac, 6))
}

/// Whether `token` begins with `+` or `-`.
pub open spec fn has_sign(token: Seq<char>) -> bool {
    token.len() > 0 && (token[0] == '+' || token[0] == '-')
}

/// Whether `token` begins with `-`.
pub open spec fn has_minus(token: Seq<char>) -> bool {
    token.len() > 0 && token[0] == '-'
}

/// The token without its sign.
pub open spec fn unsigned_part(token: Seq<char>) -> Seq<char> {
    if has_sign(token) {
        token.skip(1)
    } else {
        token
    }
}

/// What stands before the point, or all of `body` where it has no point.
pub open spec fn whole_digits(body: Seq<char>) -> Seq<char> {
    body.take(index_of(body, '.'))
}

/// What stands after the first point; empty where `body` has no point.
pub open spec fn fraction_digits(body: Seq<char>) -> Seq<char> {
    let dot = index_of(body, '.');
    if 0 <= dot < body.len() {
        body.skip(dot + 1)
    } else {
        Seq::empty()
    }
}

/// Whether `token` is written as a number: an optional sign, digits, and
/// optionally a point and more digits, with a digit on at least one side.
pub open spec fn is_number(token: Seq<char>) -> bool {
    let body = unsigned_part(token);
    &&& all_digits(whole_digits(body))
    &&& all_digits(fraction_digits(body))
    &&& whole_digits(body).len() + fraction_digits(body).len() > 0
}

/// The magnitude of the number that `token` writes, in millionths, cut to
/// six fractional digits.
pub open spec fn magnitude_micros(token: Seq<char>) -> nat {
    let body = unsigned_part(token);
    digits_value(whole_digits(body)) * 1_000_000 + fraction_micros(fraction_digits(body))
}

/// The signed value of the number that `token` writes, in millionths.
pub open spec fn number_micros(token: Seq<char>) -> int {
    if has_minus(token) {
        -(magnitude_micros(token) as int)
    } else {
        magnitude_micros(token) as int
    }
}

/// The magnitude of the number that `token` writes as a `Decimal` holds
/// it: in millionths, and the largest `Decimal` where the number is larger.
pub open spec fn held_micros(token: Seq<char>) -> nat {
    if magnitude_micros(token) <= u64::MAX {
        magnitude_micros(token)
    } else {
        u64::MAX as nat
    }
}

/// The signed number that `token` writes, as it is held.
pub open spec fn held_number(token: Seq<char>) -> int {
    if has_minus(token) {
        -(held_micros(token) as int)
    } else {
        held_micros(token) as int
    }
}

/// `digits` read as a string of `n` digits: zeros stand before it.
pub open spec fn led(digits: Seq<char>, n: nat) -> Seq<char> {
    Seq::new(
        n,
        |i: int|
            if i < n - digits.len() {
                '0'
            } else {
                digits[i - (n - digits.len())]
            },
    )
}

/// The digits that `token` writes after its point.
pub open spec fn written_fraction(token: Seq<char>) -> Seq<char> {
    fraction_digits(unsigned_part(token))
}

/// A count of fractional digits that loses nothing of the number that
/// `token` writes: as many as it writes, and six at least.
pub open spec fn exact_scale(token: Seq<char>) -> nat {
    if written_fraction(token).len() > 6 {
        written_fraction(token).len()
    } else {
        6
    }
}

/// A count of fractional digits that loses nothing of either number.
pub open spec fn common_scale(a: Seq<char>, b: Seq<char>) -> nat {
    if exact_scale(a) >= exact_scale(b) {
        exact_scale(a)
    } else {
        exact_scale(b)
    }
}

/// The magnitude of the number that `token` writes, counted in units of
/// ten to the minus `k`. With `k` at least `exact_scale(token)` this is the
/// number as written, with all its digits.
pub open spec fn magnitude_at(token: Seq<char>, k: nat) -> nat {
    digits_value(whole_digits(unsigned_part(token))) * pow10(k) + digits_value(
        padded(written_fraction(token), k),
    )
}

/// The signed number that `token` writes, counted in units of ten to the
/// minus `k`.
pub open spec fn number_at(token: Seq<char>, k: nat) -> int {
    if has_minus(token) {
        -(magnitude_at(token, k) as int)
    } else {
        magnitude_at(token, k) as int
    }
}

/// Whether the number that `a` writes is at least the number that `b`
/// writes, both taken as they are written.
pub open spec fn written_ge(a: Seq<char>, b: Seq<char>) -> bool {
    number_at(a, common_scale(a, b)) >= number_at(b, common_scale(a, b))
}

/// Whether the number that `token` writes is below zero: a minus sign
/// stands before a digit other than `0`, wherever in the number it is.
pub open spec fn written_negative(token: Seq<char>) -> bool {
    number_at(token, exact_scale(token)) < 0
}

/// Ten to the power `n`.
pub open spec fn pow10(n: nat) -> nat
    decreases n,
{
    if n == 0 {
        1
    } else {
        10 * pow10((n - 1) as nat)
    }
}

/// A string of `n` digits is worth less than ten to the `n`.
pub proof fn lemma_digits_value_bound(s: Seq<char>)
    ensures
        digits_value(s) < pow10(s.len()),
    decreases s.len(),
{
    if s.len() > 0 {
        lemma_digits_value_bound(s.drop_last());
    }
}

/// Ten to a sum is the product of the powers.
pub proof fn lemma_pow10_add(a: nat, b: nat)
    ensures
        pow10(a + b) == pow10(a) * pow10(b),
        pow10(a) > 0,
    decreases a,
{
    if a > 0 {
        lemma_pow10_add((a - 1) as nat, b);
        assert(pow10(a + b) == 10 * pow10((a - 1 + b) as nat));
        assert(10 * (pow10((a - 1) as nat) * pow10(b)) == (10 * pow10((a - 1) as nat)) * pow10(b))
            by (nonlinear_arith);
    } else {
        assert(pow10(0) * pow10(b) == pow10(b)) by (nonlinear_arith)
            requires
                pow10(0) == 1,
        ;
    }
}

/// The value of two strings of digits written one after the other.
pub proof fn lemma_digits_value_concat(x: Seq<char>, y: Seq<char>)
    ensures
        digits_value(x + y) == digits_value(x) * pow10(y.len()) + digits_value(y),
    decreases y.len(),
{
    if y.len() == 0 {
        assert(x + y =~= x);
        assert(digits_value(x) * pow10(0) == digits_value(x)) by (nonlinear_arith)
            requires
                pow10(0) == 1,
        ;
    } else {
        let front = y.drop_last();
        lemma_digits_value_concat(x, front);
        assert((x + y).drop_last() =~= x + front);
        assert((x + y).last() == y.last());
        let a = digits_value(x);
        let p = pow10(front.len());
        let f = digits_value(front);
        let d = digit_value(y.last());
        assert(pow10(y.len()) == 10 * p);
        assert((a * p + f) * 10 + d == a * (10 * p) + (f * 10 + d)) by (nonlinear_arith);
    }
}

/// Two strings of one length whose digits agree place by place are worth
/// the same.
pub proof fn lemma_digits_value_agree(x: Seq<char>, y: Seq<char>)
    requires
        x.len() == y.len(),
        forall|i: int| 0 <= i < x.len() ==> digit_value(x[i]) == digit_value(y[i]),
    ensures
        digits_value(x) == digits_value(y),
    decreases x.len(),
{
    if x.len() > 0 {
        lemma_digits_value_agree(x.drop_last(), y.drop_last());
    }
}

/// Of two strings of digits of one length, the one with the larger digit
/// at the first place where they differ is worth more.
pub proof fn lemma_digits_value_order(x: Seq<char>, y: Seq<char>, j: int)
    requires
        x.len() == y.len(),
        0 <= j < x.len(),
        forall|i: int| 0 <= i < j ==> digit_value(x[i]) == digit_value(y[i]),
        digit_value(x[j]) > digit_value(y[j]),
    ensures
        digits_value(x) > digits_value(y),
{
    lemma_digits_value_agree(x.take(j), y.take(j));
    let xh = x.take(j + 1);
    let yh = y.take(j + 1);
    let xt = x.skip(j + 1);
    let yt = y.skip(j + 1);
    assert(x =~= xh + xt);
    assert(y =~= yh + yt);
    lemma_digits_value_concat(xh, xt);
    lemma_digits_value_concat(yh, yt);
    lemma_digits_value_bound(yt);
    assert(xh.drop_last() =~= x.take(j));
    assert(yh.drop_last() =~= y.take(j));
    assert(xh.last() == x[j]);
    assert(yh.last() == y[j]);
    let c = digits_value(x.take(j));
    let p = pow10(xt.len());
    assert(digits_value(xh) == c * 10 + digit_value(x[j]));
    assert(digits_value(yh) == c * 10 + digit_value(y[j]));
    assert(digits_value(xh) * p >= digits_value(yh) * p + p) by (nonlinear_arith)
        requires
            digits_value(xh) >= digits_value(yh) + 1,
            p >= 0,
    ;
}

/// A number as written is its six-digit value and what its further digits
/// add, which is less than one millionth.
pub proof fn lemma_magnitude_split(token: Seq<char>, k: nat)
    requires
        k >= 6,
    ensures
        magnitude_at(token, k) == magnitude_micros(token) * pow10((k - 6) as nat) + digits_value(
            padded(written_fraction(token), k).skip(6),
        ),
        digits_value(padded(written_fraction(token), k).skip(6)) < pow10((k - 6) as nat),
        pow10((k - 6) as nat) > 0,
{
    let frac = written_fraction(token);
    let whole = digits_value(whole_digits(unsigned_part(token)));
    let head = padded(frac, 6);
    let tail = padded(frac, k).skip(6);
    let p = pow10((k - 6) as nat);
    assert(padded(frac, k) =~= head + tail);
    lemma_digits_value_concat(head, tail);
    lemma_digits_value_bound(tail);
    lemma_pow10_add(6, (k - 6) as nat);
    lemma_pow10_add((k - 6) as nat, 0);
    assert(pow10(6) == 1_000_000) by {
        reveal_with_fuel(pow10, 7);
    }
    assert(pow10(k) == 1_000_000 * p);
    assert(whole * (1_000_000 * p) + (digits_value(head) * p + digits_value(tail)) == (whole
        * 1_000_000 + digits_value(head)) * p + digits_value(tail)) by (nonlinear_arith);
}

/// Counted finer, with a value that is less than one unit left over, two
/// numbers compare as their counts do, and as what is left over where the
/// counts agree.
proof fn lemma_compare_split(ma: nat, ta: nat, mb: nat, tb: nat, p: nat)
    requires
        ta < p,
        tb < p,
    ensures
        (ma * p + ta >= mb * p + tb) <==> (ma > mb || (ma == mb && ta >= tb)),
        (ma * p + ta == 0) <==> (ma == 0 && ta == 0),
{
    if ma > mb {
        assert(ma * p >= mb * p + p) by (nonlinear_arith)
            requires
                ma >= mb + 1,
                p >= 0,
        ;
    } else if ma < mb {
        assert(mb * p >= ma * p + p) by (nonlinear_arith)
            requires
                mb >= ma + 1,
                p >= 0,
        ;
    }
    assert(ma * p >= 0) by (nonlinear_arith)
        requires
            ma >= 0,
            p >= 0,
    ;
    if ma > 0 {
        assert(ma * p >= p) by (nonlinear_arith)
            requires
                ma >= 1,
                p >= 0,
        ;
    } else {
        assert(ma * p == 0) by (nonlinear_arith)
            requires
                ma == 0,
        ;
    }
}

/// Dropping digits keeps the order: where one number as written is at
/// least another, so is its six-digit value.
pub proof fn lemma_written_ge_cut(a: Seq<char>, b: Seq<char>)
    requires
        written_ge(a, b),
    ensures
        number_micros(a) >= number_micros(b),
{
    let k = common_scale(a, b);
    lemma_magnitude_split(a, k);
    lemma_magnitude_split(b, k);
    let p = pow10((k - 6) as nat);
    let ta = digits_value(padded(written_fraction(a), k).skip(6));
    let tb = digits_value(padded(written_fraction(b), k).skip(6));
    lemma_compare_split(magnitude_micros(a), ta, magnitude_micros(b), tb, p);
    lemma_compare_split(magnitude_micros(b), tb, magnitude_micros(a), ta, p);
}

/// A number that is not below zero as written has a six-digit value that
/// is not below zero either.
pub proof fn lemma_not_negative_cut(token: Seq<char>)
    requires
        !written_negative(token),
    ensures
        number_micros(token) >= 0,
{
    let k = exact_scale(token);
    lemma_magnitude_split(token, k);
    let t = digits_value(padded(written_fraction(token), k).skip(6));
    lemma_compare_split(magnitude_micros(token), t, 0, 0, pow10((k - 6) as nat));
}

/// Holding a number keeps the order: where one number as written is at
/// least another, so is what is held of it.
pub proof fn lemma_written_ge_held(a: Seq<char>, b: Seq<char>)
    requires
        written_ge(a, b),
    ensures
        held_number(a) >= held_number(b),
{
    lemma_written_ge_cut(a, b);
}

/// A number that is not below zero as written is held as its magnitude.
pub proof fn lemma_not_negative_held(token: Seq<char>)
    requires
        !written_negative(token),
    ensures
        held_number(token) == held_micros(token),
{
    lemma_not_negative_cut(token);
}

/// Zeros are worth nothing.
pub proof fn lemma_zeros_value(s: Seq<char>)
    requires
        forall|i: int| 0 <= i < s.len() ==> digit_value(s[i]) == 0,
    ensures
        digits_value(s) == 0,
    decreases s.len(),
{
    if s.len() > 0 {
        lemma_zeros_value(s.drop_last());
    }
}

/// Zeros before a string of digits add nothing to it.
pub proof fn lemma_led_value(digits: Seq<char>, n: nat)
    requires
        n >= digits.len(),
    ensures
        digits_value(led(digits, n)) == digits_value(digits),
{
    let zeros = led(digits, n).take(n - digits.len());
    assert(led(digits, n) =~= zeros + digits);
    lemma_zeros_value(zeros);
    lemma_digits_value_concat(zeros, digits);
    assert(0 * pow10(digits.len()) == 0) by (nonlinear_arith);
}

fn is_digit_char(c: char) -> (b: bool)
    ensures
        b == is_digit(c),
{
    let u: u32 = c as u32;
    48 <= u && u <= 57
}

fn digit_of(c: char) -> (d: u64)
    requires
        is_digit(c),
    ensures
        d == digit_value(c),
        d <= 9,
{
    (c as u32 - 48) as u64
}

/// Reads a string of digits. The first part of the result says whether
/// all of them are digits, the second is their value where it is at most
/// `limit`.
fn read_digits(s: &[char], limit: u64) -> (r: (bool, Option<u64>))
    requires
        limit <= 1_000_000_000_000_000_000,
    ensures
        r.0 == all_digits(s@),
        r.1 is Some <==> all_digits(s@) && digits_value(s@) <= limit,
        r.1 matches Some(v) ==> v == digits_value(s@),
{
    let mut acc: u64 = 0;
    let mut over = false;
    let mut i: usize = 0;
    while i < s.len()
        invariant
            i <= s.len(),
            limit <= 1_000_000_000_000_000_000,
            all_digits(s@.take(i as int)),
            !over ==> acc == digits_value(s@.take(i as int)) && acc <= limit,
            over ==> digits_value(s@.take(i as int)) > limit,
        decreases s.len() - i,
    {
        let c = s[i];
        if !is_digit_char(c) {
            assert(!is_digit(s@[i as int]));
            return (false, None);
        }
        proof {
            assert(s@.take(i + 1).drop_last() =~= s@.take(i as int));
            assert(s@.take(i + 1).last() == c);
        }
        if !over {
            let next: u64 = acc * 10 + digit_of(c);
            if next > limit {
                over = true;
            } else {
                acc = next;
            }
        }
        i += 1;
    }
    assert(s@.take(i as int) =~= s@);
    if over {
        (true, None)
    } else {
        (true, Some(acc))
    }
}

/// Reads the digits after the point: all of them must be digits, and the
/// first six count.
fn read_fraction(frac: &[char]) -> (r: Option<u64>)
    ensures
        r is Some <==> all_digits(frac@),
        r matches Some(v) ==> v == fraction_micros(frac@) && v < 1_000_000,
{
    let mut i: usize = 0;
    while i < frac.len()
        invariant
            i <= frac.len(),
            all_digits(frac@.take(i as int)),
        decreases frac.len() - i,
    {
        if !is_digit_char(frac[i]) {
            assert(!is_digit(frac@[i as int]));
            return None;
        }
        assert(frac@.take(i + 1).drop_last() =~= frac@.take(i as int));
        i += 1;
    }
    assert(frac@.take(i as int) =~= frac@);
    let ghost six = padded(frac@, 6);
    let mut acc: u64 = 0;
    let mut k: usize = 0;
    while k < 6
        invariant
            k <= 6,
            six == padded(frac@, 6),
            all_digits(frac@),
            acc == digits_value(six.take(k as int)),
            acc < pow10(k as nat),
        decreases 6 - k,
    {
        let d: u64 = if k < frac.len() {
            digit_of(frac[k])
        } else {
            0
        };
        proof {
            reveal_with_fuel(pow10, 7);
            assert(six.take(k + 1).drop_last() =~= six.take(k as int));
            assert(six.take(k + 1).last() == six[k as int]);
            assert(d == digit_value(six[k as int]));
        }
        acc = acc * 10 + d;
        k += 1;
    }
    proof {
        reveal_with_fuel(pow10, 7);
        assert(six.take(6) =~= six);
    }
    Some(acc)
}

/// Takes a token apart: whether a minus sign stands first, the digits
/// before the point and the digits after it.
fn pieces<'a>(token: &'a [char]) -> (p: (bool, &'a [char], &'a [char]))
    ensures
        p.0 == has_minus(token@),
        p.1@ == whole_digits(unsigned_part(token@)),
        p.2@ == written_fraction(token@),
{
    let negative = token.len() > 0 && token[0] == '-';
    let signed = token.len() > 0 && (token[0] == '+' || token[0] == '-');
    let body = if signed {
        slice_subrange(token, 1, token.len())
    } else {
        token
    };
    assert(body@ =~= unsigned_part(token@));
    let dot = find(body, '.');
    let whole = slice_subrange(body, 0, dot);
    let frac = if dot < body.len() {
        slice_subrange(body, dot + 1, body.len())
    } else {
        slice_subrange(body, dot, dot)
    };
    proof {
        lemma_index_of(body@, '.');
        assert(whole@ =~= whole_digits(body@));
        assert(frac@ =~= fraction_digits(body@));
    }
    (negative, whole, frac)
}

fn larger(a: usize, b: usize) -> (m: usize)
    ensures
        m == if a >= b {
            a
        } else {
            b
        },
{
    if a >= b {
        a
    } else {
        b
    }
}

/// Compares two numbers given by their digits before and after the point,
/// both read to `k` fractional digits. The digits are gone through from
/// the most significant on, and the first place where they differ decides.
fn digits_ge(wa: &[char], fa: &[char], wb: &[char], fb: &[char], k: usize) -> (r: bool)
    requires
        all_digits(wa@),
        all_digits(fa@),
        all_digits(wb@),
        all_digits(fb@),
        fa@.len() <= k,
        fb@.len() <= k,
    ensures
        r == (digits_value(wa@) * pow10(k as nat) + digits_value(padded(fa@, k as nat))
            >= digits_value(wb@) * pow10(k as nat) + digits_value(padded(fb@, k as nat))),
{
    let n = larger(wa.len(), wb.len());
    let lead_a = n - wa.len();
    let lead_b = n - wb.len();
    let ghost xa = led(wa@, n as nat) + padded(fa@, k as nat);
    let ghost xb = led(wb@, n as nat) + padded(fb@, k as nat);
    proof {
        lemma_digits_value_concat(led(wa@, n as nat), padded(fa@, k as nat));
        lemma_digits_value_concat(led(wb@, n as nat), padded(fb@, k as nat));
        lemma_led_value(wa@, n as nat);
        lemma_led_value(wb@, n as nat);
    }
    let mut i: usize = 0;
    while i < n
        invariant
            i <= n,
            wa@.len() <= n,
            wb@.len() <= n,
            lead_a == n - wa@.len(),
            lead_b == n - wb@.len(),
            all_digits(wa@),
            all_digits(wb@),
            xa == led(wa@, n as nat) + padded(fa@, k as nat),
            xb == led(wb@, n as nat) + padded(fb@, k as nat),
            digits_value(xa) == digits_value(wa@) * pow10(k as nat) + digits_value(
                padded(fa@, k as nat),
            ),
            digits_value(xb) == digits_value(wb@) * pow10(k as nat) + digits_value(
                padded(fb@, k as nat),
            ),
            forall|j: int| 0 <= j < i ==> digit_value(xa[j]) == digit_value(xb[j]),
        decreases n - i,
    {
        let da: u64 = if i < lead_a {
            0
        } else {
            digit_of(wa[i - lead_a])
        };
        let db: u64 = if i < lead_b {
            0
        } else {
            digit_of(wb[i - lead_b])
        };
        proof {
            assert(xa[i as int] == led(wa@, n as nat)[i as int]);
            assert(xb[i as int] == led(wb@, n as nat)[i as int]);
            assert(digit_value(xa[i as int]) == da);
            assert(digit_value(xb[i as int]) == db);
        }
        if da != db {
            proof {
                if da > db {
                    lemma_digits_value_order(xa, xb, i as int);
                } else {
                    lemma_digits_value_order(xb, xa, i as int);
                }
            }
            return da > db;
        }
        i += 1;
    }
    let mut j: usize = 0;
    while j < k
        invariant
            j <= k,
            fa@.len() <= k,
            fb@.len() <= k,
            all_digits(fa@),
            all_digits(fb@),
            xa == led(wa@, n as nat) + padded(fa@, k as nat),
            xb == led(wb@, n as nat) + padded(fb@, k as nat),
            digits_value(xa) == digits_value(wa@) * pow10(k as nat) + digits_value(
                padded(fa@, k as nat),
            ),
            digits_value(xb) == digits_value(wb@) * pow10(k as nat) + digits_value(
                padded(fb@, k as nat),
            ),
            forall|t: int| 0 <= t < n + j ==> digit_value(xa[t]) == digit_value(xb[t]),
        decreases k - j,
    {
        let da: u64 = if j < fa.len() {
            digit_of(fa[j])
        } else {
            0
        };
        let db: u64 = if j < fb.len() {
            digit_of(fb[j])
        } else {
            0
        };
        proof {
            assert(xa[n + j] == padded(fa@, k as nat)[j as int]);
            assert(xb[n + j] == padded(fb@, k as nat)[j as int]);
            assert(digit_value(xa[n + j]) == da);
            assert(digit_value(xb[n + j]) == db);
        }
        if da != db {
            proof {
                if da > db {
                    lemma_digits_value_order(xa, xb, n + j);
                } else {
                    lemma_digits_value_order(xb, xa, n + j);
                }
            }
            return da > db;
        }
        j += 1;
    }
    proof {
        lemma_digits_value_agree(xa, xb);
    }
    true
}

/// Tells whether the number that `a` writes is at least the number that
/// `b` writes, both as written.
pub(crate) fn written_at_least(a: &[char], b: &[char]) -> (r: bool)
    requires
        is_number(a@),
        is_number(b@),
    ensures
        r == written_ge(a@, b@),
{
    let (minus_a, wa, fa) = pieces(a);
    let (minus_b, wb, fb) = pieces(b);
    let k = larger(6, larger(fa.len(), fb.len()));
    assert(k == common_scale(a@, b@));
    if !minus_a && !minus_b {
        digits_ge(wa, fa, wb, fb, k)
    } else if !minus_a {
        true
    } else if !minus_b {
        let none = slice_subrange(fa, 0, 0);
        proof {
            lemma_zeros_value(padded(none@, k as nat));
            assert(digits_value(none@) * pow10(k as nat) == 0) by (nonlinear_arith)
                requires
                    digits_value(none@) == 0,
            ;
        }
        digits_ge(none, none, wa, fa, k) && digits_ge(none, none, wb, fb, k)
    } else {
        digits_ge(wb, fb, wa, fa, k)
    }
}

/// Tells whether the number that `token` writes is below zero as written.
pub(crate) fn is_written_negative(token: &[char]) -> (r: bool)
    requires
        is_number(token@),
    ensures
        r == written_negative(token@),
{
    let (minus, whole, frac) = pieces(token);
    if !minus {
        return false;
    }
    let k = larger(6, frac.len());
    let none = slice_subrange(frac, 0, 0);
    proof {
        lemma_zeros_value(padded(none@, k as nat));
        assert(digits_value(none@) * pow10(k as nat) == 0) by (nonlinear_arith)
            requires
                digits_value(none@) == 0,
        ;
    }
    !digits_ge(none, none, whole, frac, k)
}

/// Reads a number. The result is `None` where `token` is not written as a
/// number. A number too large for a `Decimal` is held as the largest.
pub fn parse_number(token: &[char]) -> (r: Option<Number>)
    ensures
        r is Some <==> is_number(token@),
        r matches Some(n) ==> n.magnitude@ == held_micros(token@) && n.negative == has_minus(
            token@,
        ) && n.value() == held_number(token@),
{
    let (negative, whole, frac) = pieces(token);
    if whole.len() == 0 && frac.len() == 0 {
        return None;
    }
    let limit: u64 = u64::MAX / MICROS_PER_UNIT;
    let (whole_is_digits, whole_value) = read_digits(whole, limit);
    if !whole_is_digits {
        return None;
    }
    let f = match read_fraction(frac) {
        Some(f) => f,
        None => {
            return None;
        },
    };
    let micros: u64 = match whole_value {
        Some(w) => {
            let total: u128 = w as u128 * 1_000_000 + f as u128;
            if total > u64::MAX as u128 {
                u64::MAX
            } else {
                total as u64
            }
        },
        None => {
            proof {
                assert(digits_value(whole@) * 1_000_000 >= (limit + 1) * 1_000_000)
                    by (nonlinear_arith)
                    requires
                        digits_value(whole@) >= limit + 1,
                ;
            }
            u64::MAX
        },
    };
    Some(Number { negative, magnitude: Decimal { micros } })
}

impl Decimal {
    /// The number of `micros` millionths.
    pub fn from_micros(micros: u64) -> (d: Decimal)
        ensures
            d@ == micros,
    {
        Decimal { micros }
    }

    /// Zero.
    pub fn zero() -> (d: Decimal)
        ensures
            d@ == 0,
    {
        Decimal { micros: 0 }
    }

    /// The number in millionths.
    pub fn micros(&self) -> (m: u64)
        ensures
            m == self@,
    {
        self.micros
    }

    /// Whether `text` writes a number that a `Decimal` can stand for: one
    /// that is not below zero as written.
    pub open spec fn holds(text: Seq<char>) -> bool {
        is_number(text) && !written_negative(text)
    }

    /// Reads a decimal number from `text`, which must hold the number and
    /// nothing else. A number below zero as written is refused, however
    /// small. The others are held to six fractional digits, and as the
    /// largest `Decimal` where they are larger.
    pub fn parse(text: &str) -> (r: Option<Decimal>)
        ensures
            r is Some <==> Decimal::holds(text@),
            r matches Some(d) ==> d@ == held_micros(text@),
    {
        let chars = chars_of(text);
        match parse_number(chars.as_slice()) {
            Some(n) => if is_written_negative(chars.as_slice()) {
                None
            } else {
                Some(n.magnitude)
            },
            None => None,
        }
    }

    /// Reads a decimal number from `text`; a text that `parse` refuses counts as zero.
    pub fn parse_or_zero(text: &str) -> (d: Decimal)
        ensures
            d@ == if Decimal::holds(text@) {
                held_micros(text@)
            } else {
                0
            },
    {
        match Decimal::parse(text) {
            Some(d) => d,
            None => Decimal::zero(),
        }
    }
}

} // verus!
