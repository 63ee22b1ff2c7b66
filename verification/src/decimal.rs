//! Exact decimal numbers: the numbers that a predicate writes with a point,
//! compared by their value.

use vstd::prelude::*;

use crate::order::{int_order, reversed, Order};
use crate::text::{
    chars_of, digit_char, digit_to_char, digits_of, is_ascii_digit, is_digit_char,
    int_text, lemma_nat_digits_are_digits, nat_digits, nat_text, push_char, push_nat,
};

verus! {

/// Ten to the power `n`.
pub open spec fn pow10(n: nat) -> nat
    decreases n,
{
    if n == 0 {
        1
    } else {
        10 * pow10((n - 1) as nat)
    }
}

/// The number that the decimal digits `ds` write, most significant first.
pub open spec fn digits_value(ds: Seq<u8>) -> nat
    decreases ds.len(),
{
    if ds.len() == 0 {
        0
    } else {
        digits_value(ds.drop_last()) * 10 + ds.last() as nat
    }
}

/// Every element of `ds` is a decimal digit.
pub open spec fn all_digits(ds: Seq<u8>) -> bool {
    forall|i: int| 0 <= i < ds.len() ==> #[trigger] ds[i] < 10
}

/// A sequence of `n` zero digits.
pub open spec fn zeros(n: nat) -> Seq<u8> {
    Seq::new(n, |i: int| 0u8)
}

/// The mathematical content of a [`Decimal`]: a sign, the digits, and how
/// many of the digits stand after the point.
pub struct DecimalView {
    pub negative: bool,
    pub digits: Seq<u8>,
    pub scale: nat,
}

/// A decimal number written with a sign, digits and a point, held exactly:
/// never rounded to a binary float, however many digits it has.
///
/// Its value is `±digits / 10^scale`. Two decimals are `==` when their
/// values are, so `1.0 == 1.00` and `-0.0 == 0.0`; in order a negative zero
/// comes before a positive one.
#[derive(Debug)]
pub struct Decimal {
    negative: bool,
    digits: Vec<u8>,
    scale: usize,
}

impl View for Decimal {
    type V = DecimalView;

    closed spec fn view(&self) -> DecimalView {
        DecimalView { negative: self.negative, digits: self.digits@, scale: self.scale as nat }
    }
}

/// A decimal is well formed when every digit is below ten and at least one
/// digit stands before the point.
pub open spec fn decimal_well_formed(d: DecimalView) -> bool {
    &&& all_digits(d.digits)
    &&& d.scale < d.digits.len()
}

/// The value of `d` times `10^d.scale`.
pub open spec fn scaled_value(d: DecimalView) -> int {
    if d.negative {
        -(digits_value(d.digits) as int)
    } else {
        digits_value(d.digits) as int
    }
}

/// How `a` stands to `b`: by value, the two brought to one scale and their
/// integers compared; between two zeros, a negative zero comes first, as
/// `f64::total_cmp` orders them.
pub open spec fn decimal_order(a: DecimalView, b: DecimalView) -> Order {
    if digits_value(a.digits) == 0 && digits_value(b.digits) == 0 {
        int_order(zero_rank(a), zero_rank(b))
    } else {
        int_order(scaled_value(a) * pow10(b.scale), scaled_value(b) * pow10(a.scale))
    }
}

/// Where a zero stands among zeros: a negative zero before a positive one,
/// as `f64::total_cmp` orders them.
pub open spec fn zero_rank(d: DecimalView) -> int {
    if d.negative {
        0
    } else {
        1
    }
}

/// The decimal that has the value of the integer `i`.
pub open spec fn integer_decimal(i: int) -> DecimalView {
    DecimalView {
        negative: i < 0,
        digits: nat_digits(if i < 0 { (-i) as nat } else { i as nat }),
        scale: 0,
    }
}

/// The value of the digit character `c`.
pub open spec fn digit_value(c: char) -> u8 {
    ((c as u32) - 48) as u8
}

/// The values of the digit characters `s`.
pub open spec fn digit_values(s: Seq<char>) -> Seq<u8> {
    s.map_values(|c: char| digit_value(c))
}

/// A non-empty run of ASCII digits.
pub open spec fn is_digit_run(s: Seq<char>) -> bool {
    s.len() >= 1 && forall|i: int| 0 <= i < s.len() ==> #[trigger] is_digit_char(s[i])
}

/// `body` is digits, a point at `p`, and digits.
pub open spec fn point_at(body: Seq<char>, p: int) -> bool {
    &&& 0 < p < body.len()
    &&& body[p] == '.'
    &&& is_digit_run(body.take(p))
    &&& is_digit_run(body.skip(p + 1))
}

/// Whether the text starts with a minus sign.
pub open spec fn starts_negative(s: Seq<char>) -> bool {
    s.len() > 0 && s[0] == '-'
}

/// The text after its minus sign, if it has one.
pub open spec fn unsigned_part(s: Seq<char>) -> Seq<char> {
    if starts_negative(s) {
        s.drop_first()
    } else {
        s
    }
}

/// `body` is digits, a point, and digits.
pub open spec fn has_point(body: Seq<char>) -> bool {
    exists|p: int| point_at(body, p)
}

/// Where the point of `body` stands, when `body` is digits, a point and
/// digits.
pub open spec fn point_of(body: Seq<char>) -> int {
    choose|p: int| point_at(body, p)
}

/// The decimal that the text `s` writes: an optional `-`, digits, and
/// optionally a point followed by digits. `None` for any other text.
pub open spec fn decimal_syntax(s: Seq<char>) -> Option<DecimalView> {
    let negative = starts_negative(s);
    let body = unsigned_part(s);
    if is_digit_run(body) {
        Some(
            DecimalView {
                negative,
                digits: digit_values(body),
                scale: 0,
            },
        )
    } else if has_point(body) {
        let p = point_of(body);
        Some(
            DecimalView {
                negative,
                digits: digit_values(body.take(p) + body.skip(p + 1)),
                scale: (body.len() - p - 1) as nat,
            },
        )
    } else {
        None
    }
}

/// `s` with its leading zeros removed, keeping the last digit.
pub open spec fn strip_leading_zeros(s: Seq<u8>) -> Seq<u8>
    decreases s.len(),
{
    if s.len() > 1 && s[0] == 0 {
        strip_leading_zeros(s.drop_first())
    } else {
        s
    }
}

/// `s` with its trailing zeros removed.
pub open spec fn strip_trailing_zeros(s: Seq<u8>) -> Seq<u8>
    decreases s.len(),
{
    if s.len() > 0 && s.last() == 0 {
        strip_trailing_zeros(s.drop_last())
    } else {
        s
    }
}

/// The characters that write the digits `ds`.
pub open spec fn digit_chars(ds: Seq<u8>) -> Seq<char> {
    ds.map_values(|d: u8| digit_char(d))
}

/// The digits of `d` before the point, without leading zeros.
pub open spec fn whole_part(d: DecimalView) -> Seq<u8> {
    strip_leading_zeros(d.digits.take(d.digits.len() - d.scale))
}

/// The digits of `d` after the point, without trailing zeros.
pub open spec fn fraction_part(d: DecimalView) -> Seq<u8> {
    strip_trailing_zeros(d.digits.skip(d.digits.len() - d.scale))
}

/// The shortest text of `d`'s value: a `-` for a negative sign, the whole
/// part, and the fraction after a point when there is one.
pub open spec fn decimal_text(d: DecimalView) -> Seq<char> {
    let sign = if d.negative {
        seq!['-']
    } else {
        Seq::<char>::empty()
    };
    let fraction = if fraction_part(d).len() == 0 {
        Seq::<char>::empty()
    } else {
        seq!['.'] + digit_chars(fraction_part(d))
    };
    sign + digit_chars(whole_part(d)) + fraction
}

/// How many zeros `ds` begins with.
pub open spec fn leading_zero_count(ds: Seq<u8>) -> nat
    decreases ds.len(),
{
    if ds.len() > 0 && ds[0] == 0 {
        1 + leading_zero_count(ds.drop_first())
    } else {
        0
    }
}

/// The power of ten of the first digit of `d` that is not zero.
pub open spec fn exponent_of(d: DecimalView) -> int {
    d.digits.len() - d.scale - 1 - leading_zero_count(d.digits)
}

/// The digits of `d` from the first that is not zero to the last.
pub open spec fn significand(d: DecimalView) -> Seq<u8> {
    strip_trailing_zeros(d.digits.skip(leading_zero_count(d.digits) as int))
}

/// Whether `d` is written with an exponent: it is not zero, and it is at
/// least `1e16` or below `1e-4` in size.
pub open spec fn scientific(d: DecimalView) -> bool {
    &&& leading_zero_count(d.digits) < d.digits.len()
    &&& (exponent_of(d) >= 16 || exponent_of(d) < -4)
}

/// The sign of `d` as it is written: `-` or nothing.
pub open spec fn sign_text(d: DecimalView) -> Seq<char> {
    if d.negative {
        seq!['-']
    } else {
        Seq::<char>::empty()
    }
}

/// `d` with an exponent: its first significant digit, the others after a
/// point when there are any, `e` and the exponent.
pub open spec fn exponent_text(d: DecimalView) -> Seq<char> {
    let m = significand(d);
    let rest = if m.len() > 1 {
        seq!['.'] + digit_chars(m.drop_first())
    } else {
        Seq::<char>::empty()
    };
    sign_text(d) + seq![digit_char(m[0])] + rest + seq!['e'] + int_text(exponent_of(d))
}

/// How a token writes a decimal: as [`decimal_text`], but a whole number
/// keeps a `.0`, which says that it is a decimal; and a number of `1e16` or
/// more, or below `1e-4`, is written with an exponent, as `{:?}` writes a
/// float.
pub open spec fn decimal_debug_text(d: DecimalView) -> Seq<char> {
    if scientific(d) {
        exponent_text(d)
    } else {
        plain_debug_text(d)
    }
}

/// [`decimal_text`], but a whole number keeps a `.0`.
pub open spec fn plain_debug_text(d: DecimalView) -> Seq<char> {
    let fraction = if fraction_part(d).len() == 0 {
        seq!['.', '0']
    } else {
        seq!['.'] + digit_chars(fraction_part(d))
    };
    sign_text(d) + digit_chars(whole_part(d)) + fraction
}

// ---------------------------------------------------------------------------
// Arithmetic facts about digits.

proof fn lemma_pow10_positive(n: nat)
    ensures
        pow10(n) >= 1,
    decreases n,
{
    if n > 0 {
        lemma_pow10_positive((n - 1) as nat);
    }
}

proof fn lemma_pow10_monotone(a: nat, b: nat)
    requires
        a <= b,
    ensures
        pow10(a) <= pow10(b),
    decreases b,
{
    if a < b {
        lemma_pow10_monotone(a, (b - 1) as nat);
        lemma_pow10_positive((b - 1) as nat);
    }
}

/// Appending digits shifts the number left by their count.
proof fn lemma_value_append(x: Seq<u8>, y: Seq<u8>)
    ensures
        digits_value(x + y) == digits_value(x) * pow10(y.len()) + digits_value(y),
    decreases y.len(),
{
    if y.len() == 0 {
        assert(x + y =~= x);
        assert(digits_value(y) == 0);
        assert(pow10(y.len()) == 1);
        assert(digits_value(x) * 1 == digits_value(x));
    } else {
        let y2 = y.drop_last();
        assert((x + y).drop_last() =~= x + y2);
        assert((x + y).last() == y.last());
        lemma_value_append(x, y2);
        let vx = digits_value(x) as int;
        let p = pow10(y2.len()) as int;
        let vy2 = digits_value(y2) as int;
        let l = y.last() as int;
        assert(pow10(y.len()) == 10 * pow10(y2.len()));
        assert(digits_value(y) == digits_value(y2) * 10 + y.last());
        assert(digits_value(x + y) == digits_value(x + y2) * 10 + y.last());
        assert((vx * p + vy2) * 10 + l == vx * (10 * p) + (vy2 * 10 + l)) by (nonlinear_arith);
    }
}

proof fn lemma_value_bound(x: Seq<u8>)
    requires
        all_digits(x),
    ensures
        digits_value(x) < pow10(x.len()),
    decreases x.len(),
{
    if x.len() > 0 {
        let x2 = x.drop_last();
        assert(all_digits(x2)) by {
            assert forall|i: int| 0 <= i < x2.len() implies #[trigger] x2[i] < 10 by {
                assert(x2[i] == x[i]);
            }
        }
        lemma_value_bound(x2);
        assert(x.last() == x[x.len() - 1]);
        let v = digits_value(x2) as int;
        let p = pow10(x2.len()) as int;
        let l = x.last() as int;
        assert(v * 10 + l < 10 * p) by (nonlinear_arith)
            requires
                v < p,
                0 <= l < 10,
        ;
    }
}

proof fn lemma_value_single(d: u8)
    ensures
        digits_value(seq![d]) == d,
{
    assert(seq![d].drop_last() =~= Seq::<u8>::empty());
    assert(seq![d].last() == d);
    assert(digits_value(Seq::<u8>::empty()) == 0);
}

/// A number whose first digit is not zero is at least `10^(len-1)`.
proof fn lemma_value_lower(x: Seq<u8>)
    requires
        x.len() >= 1,
        x[0] >= 1,
    ensures
        digits_value(x) >= pow10((x.len() - 1) as nat),
{
    let rest = x.skip(1);
    assert(seq![x[0]] + rest =~= x);
    lemma_value_append(seq![x[0]], rest);
    lemma_value_single(x[0]);
    let d = x[0] as int;
    let p = pow10(rest.len()) as int;
    assert(d * p >= p) by (nonlinear_arith)
        requires
            d >= 1,
            p >= 0,
    ;
}

proof fn lemma_zeros_value(n: nat)
    ensures
        digits_value(zeros(n)) == 0,
    decreases n,
{
    if n > 0 {
        assert(zeros(n).drop_last() =~= zeros((n - 1) as nat));
        lemma_zeros_value((n - 1) as nat);
    }
}

/// Leading zeros do not change a number.
proof fn lemma_leading_zeros(x: Seq<u8>, k: int)
    requires
        0 <= k <= x.len(),
        forall|i: int| 0 <= i < k ==> #[trigger] x[i] == 0,
    ensures
        digits_value(x) == digits_value(x.skip(k)),
{
    assert(x.take(k) =~= zeros(k as nat));
    assert(x.take(k) + x.skip(k) =~= x);
    lemma_value_append(x.take(k), x.skip(k));
    lemma_zeros_value(k as nat);
}

/// A number is zero exactly when all its digits are.
proof fn lemma_value_zero(x: Seq<u8>)
    ensures
        digits_value(x) == 0 <==> forall|i: int| 0 <= i < x.len() ==> #[trigger] x[i] == 0,
    decreases x.len(),
{
    if x.len() > 0 {
        let x2 = x.drop_last();
        lemma_value_zero(x2);
        assert(x.last() == x[x.len() - 1]);
        if forall|i: int| 0 <= i < x.len() ==> #[trigger] x[i] == 0 {
            assert forall|i: int| 0 <= i < x2.len() implies #[trigger] x2[i] == 0 by {
                assert(x2[i] == x[i]);
            }
        }
        if digits_value(x) == 0 {
            assert forall|i: int| 0 <= i < x.len() implies #[trigger] x[i] == 0 by {
                if i < x.len() - 1 {
                    assert(x2[i] == x[i]);
                }
            }
        }
    }
}

/// Two digit strings of one length order as numbers the way they order
/// digit by digit.
proof fn lemma_first_difference(x: Seq<u8>, y: Seq<u8>, i: int)
    requires
        x.len() == y.len(),
        all_digits(x),
        all_digits(y),
        0 <= i < x.len(),
        x.take(i) == y.take(i),
        x[i] < y[i],
    ensures
        digits_value(x) < digits_value(y),
{
    let n = x.len();
    assert(x.take(i + 1) + x.skip(i + 1) =~= x);
    assert(y.take(i + 1) + y.skip(i + 1) =~= y);
    lemma_value_append(x.take(i + 1), x.skip(i + 1));
    lemma_value_append(y.take(i + 1), y.skip(i + 1));
    assert(x.take(i + 1).drop_last() =~= x.take(i));
    assert(y.take(i + 1).drop_last() =~= y.take(i));
    assert(x.take(i + 1).last() == x[i]);
    assert(y.take(i + 1).last() == y[i]);
    let rest = x.skip(i + 1);
    assert(all_digits(rest)) by {
        assert forall|j: int| 0 <= j < rest.len() implies #[trigger] rest[j] < 10 by {
            assert(rest[j] == x[i + 1 + j]);
        }
    }
    lemma_value_bound(rest);
    let v = digits_value(x.take(i)) as int;
    let p = pow10((n - i - 1) as nat) as int;
    let a = x[i] as int;
    let b = y[i] as int;
    let rx = digits_value(rest) as int;
    let ry = digits_value(y.skip(i + 1)) as int;
    assert((v * 10 + a) * p + rx < (v * 10 + b) * p + ry) by (nonlinear_arith)
        requires
            a + 1 <= b,
            0 <= rx < p,
            0 <= ry,
            0 <= v,
    ;
}

proof fn lemma_digits_value_nat_digits(n: nat)
    ensures
        digits_value(nat_digits(n)) == n,
    decreases n,
{
    if n >= 10 {
        lemma_digits_value_nat_digits(n / 10);
        let d = nat_digits(n);
        assert(d.drop_last() =~= nat_digits(n / 10));
    } else {
        lemma_value_single(n as u8);
    }
}

// ---------------------------------------------------------------------------
// Executable parts.

/// How the number written by `x` stands to the number written by `y`.
fn compare_digit_strings(x: &Vec<u8>, y: &Vec<u8>) -> (r: Order)
    requires
        all_digits(x@),
        all_digits(y@),
    ensures
        r == int_order(digits_value(x@) as int, digits_value(y@) as int),
{
    let mut ix: usize = 0;
    while ix < x.len() && x[ix] == 0
        invariant
            0 <= ix <= x.len(),
            forall|i: int| 0 <= i < ix ==> #[trigger] x@[i] == 0,
        decreases x.len() - ix,
    {
        ix = ix + 1;
    }
    let mut iy: usize = 0;
    while iy < y.len() && y[iy] == 0
        invariant
            0 <= iy <= y.len(),
            forall|i: int| 0 <= i < iy ==> #[trigger] y@[i] == 0,
        decreases y.len() - iy,
    {
        iy = iy + 1;
    }
    let ghost xs = x@.skip(ix as int);
    let ghost ys = y@.skip(iy as int);
    proof {
        lemma_leading_zeros(x@, ix as int);
        lemma_leading_zeros(y@, iy as int);
        assert(all_digits(xs)) by {
            assert forall|j: int| 0 <= j < xs.len() implies #[trigger] xs[j] < 10 by {
                assert(xs[j] == x@[ix + j]);
            }
        }
        assert(all_digits(ys)) by {
            assert forall|j: int| 0 <= j < ys.len() implies #[trigger] ys[j] < 10 by {
                assert(ys[j] == y@[iy + j]);
            }
        }
        lemma_value_bound(xs);
        lemma_value_bound(ys);
    }
    let lx = x.len() - ix;
    let ly = y.len() - iy;
    if lx < ly {
        proof {
            assert(ys[0] == y@[iy as int]);
            lemma_value_lower(ys);
            lemma_pow10_monotone(lx as nat, (ly - 1) as nat);
        }
        return Order::Less;
    }
    if lx > ly {
        proof {
            assert(xs[0] == x@[ix as int]);
            lemma_value_lower(xs);
            lemma_pow10_monotone(ly as nat, (lx - 1) as nat);
        }
        return Order::Greater;
    }
    let mut k: usize = 0;
    while k < lx
        invariant
            0 <= k <= lx,
            lx == ly,
            lx == x.len() - ix,
            ly == y.len() - iy,
            xs == x@.skip(ix as int),
            ys == y@.skip(iy as int),
            all_digits(xs),
            all_digits(ys),
            all_digits(x@),
            all_digits(y@),
            xs.take(k as int) == ys.take(k as int),
            digits_value(x@) == digits_value(xs),
            digits_value(y@) == digits_value(ys),
        decreases lx - k,
    {
        let a = x[ix + k];
        let b = y[iy + k];
        proof {
            assert(xs[k as int] == a);
            assert(ys[k as int] == b);
        }
        if a < b {
            proof {
                lemma_first_difference(xs, ys, k as int);
            }
            return Order::Less;
        }
        if a > b {
            proof {
                lemma_first_difference(ys, xs, k as int);
            }
            return Order::Greater;
        }
        proof {
            assert(xs.take(k + 1) =~= xs.take(k as int).push(a));
            assert(ys.take(k + 1) =~= ys.take(k as int).push(b));
        }
        k = k + 1;
    }
    proof {
        assert(xs =~= xs.take(lx as int));
        assert(ys =~= ys.take(ly as int));
    }
    Order::Equal
}

/// `ds` followed by `n` zeros.
fn padded(ds: &Vec<u8>, n: usize) -> (r: Vec<u8>)
    ensures
        r@ == ds@ + zeros(n as nat),
{
    let mut r: Vec<u8> = Vec::new();
    let mut i: usize = 0;
    while i < ds.len()
        invariant
            0 <= i <= ds.len(),
            r@ == ds@.take(i as int),
        decreases ds.len() - i,
    {
        r.push(ds[i]);
        proof {
            assert(ds@.take(i + 1) =~= ds@.take(i as int).push(ds@[i as int]));
        }
        i = i + 1;
    }
    let mut j: usize = 0;
    while j < n
        invariant
            0 <= j <= n,
            r@ == ds@ + zeros(j as nat),
        decreases n - j,
    {
        r.push(0);
        proof {
            assert(zeros((j + 1) as nat) =~= zeros(j as nat).push(0u8));
            assert(ds@ + zeros((j + 1) as nat) =~= (ds@ + zeros(j as nat)).push(0u8));
        }
        j = j + 1;
    }
    proof {
        assert(ds@.take(ds.len() as int) =~= ds@);
    }
    r
}

proof fn lemma_padded_digits(ds: Seq<u8>, n: nat)
    requires
        all_digits(ds),
    ensures
        all_digits(ds + zeros(n)),
        digits_value(ds + zeros(n)) == digits_value(ds) * pow10(n),
{
    lemma_value_append(ds, zeros(n));
    lemma_zeros_value(n);
    assert forall|i: int| 0 <= i < (ds + zeros(n)).len() implies #[trigger] (ds + zeros(n))[i]
        < 10 by {
        if i < ds.len() {
            assert((ds + zeros(n))[i] == ds[i]);
        }
    }
}

impl Clone for Decimal {
    fn clone(&self) -> (r: Decimal)
        ensures
            r@ == self@,
    {
        proof {
            use_type_invariant(self);
        }
        let mut digits: Vec<u8> = Vec::new();
        let mut i: usize = 0;
        while i < self.digits.len()
            invariant
                0 <= i <= self.digits.len(),
                digits@ == self.digits@.take(i as int),
            decreases self.digits.len() - i,
        {
            digits.push(self.digits[i]);
            proof {
                assert(self.digits@.take(i + 1) =~= self.digits@.take(i as int).push(
                    self.digits@[i as int],
                ));
            }
            i = i + 1;
        }
        proof {
            assert(self.digits@.take(self.digits.len() as int) =~= self.digits@);
        }
        Decimal { negative: self.negative, digits, scale: self.scale }
    }
}

impl Decimal {
    #[verifier::type_invariant]
    spec fn is_well_formed(self) -> bool {
        decimal_well_formed(self@)
    }

    /// The decimal that the text `s` writes: an optional `-`, digits, and
    /// optionally a point followed by digits, such as `-12.5`. `None` for
    /// any other text.
    pub fn from_text(s: &str) -> (r: Option<Decimal>)
        ensures
            r matches Some(d) ==> decimal_syntax(s@) == Some(d@),
            r is None ==> decimal_syntax(s@) is None,
    {
        let cs = chars_of(s);
        Self::from_chars(&cs)
    }

    /// As [`Decimal::from_text`], on characters.
    pub fn from_chars(cs: &Vec<char>) -> (r: Option<Decimal>)
        ensures
            r matches Some(d) ==> decimal_syntax(cs@) == Some(d@),
            r is None ==> decimal_syntax(cs@) is None,
    {
        let ghost s = cs@;
        let negative = cs.len() > 0 && cs[0] == '-';
        let start: usize = if negative {
            1
        } else {
            0
        };
        let ghost body = if negative {
            s.drop_first()
        } else {
            s
        };
        proof {
            assert(body =~= s.skip(start as int));
        }
        let mut digits: Vec<u8> = Vec::new();
        let mut point: usize = 0;
        let mut seen_point = false;
        let mut j: usize = start;
        while j < cs.len()
            invariant
                start <= j <= cs.len(),
                body == s.skip(start as int),
                negative == (s.len() > 0 && s[0] == '-'),
                start == (if negative { 1usize } else { 0usize }),
                body == (if negative { s.drop_first() } else { s }),
                s == cs@,
                !seen_point ==> forall|i: int| start <= i < j ==> #[trigger] is_digit_char(s[i]),
                !seen_point ==> digits@ == digit_values(s.subrange(start as int, j as int)),
                seen_point ==> start < point < j,
                seen_point ==> s[point as int] == '.',
                seen_point ==> forall|i: int|
                    start <= i < j && i != point ==> #[trigger] is_digit_char(s[i]),
                seen_point ==> digits@ == digit_values(
                    s.subrange(start as int, point as int) + s.subrange(point + 1, j as int),
                ),
                all_digits(digits@),
            decreases cs.len() - j,
        {
            let c = cs[j];
            if is_ascii_digit(c) {
                let d: u8 = ((c as u32) - 48) as u8;
                digits.push(d);
                proof {
                    if seen_point {
                        assert((s.subrange(start as int, point as int) + s.subrange(
                            point + 1,
                            j + 1,
                        )) =~= (s.subrange(start as int, point as int) + s.subrange(
                            point + 1,
                            j as int,
                        )).push(c));
                    } else {
                        assert(s.subrange(start as int, j + 1) =~= s.subrange(
                            start as int,
                            j as int,
                        ).push(c));
                    }
                }
            } else if c == '.' && !seen_point && j > start {
                seen_point = true;
                point = j;
                proof {
                    assert(s.subrange(start as int, point as int) + s.subrange(
                        point + 1,
                        j + 1,
                    ) =~= s.subrange(start as int, j as int));
                }
            } else {
                proof {
                    let q = j - start;
                    assert(body[q] == c);
                    assert(!is_digit_char(body[q]));
                    assert(!is_digit_run(body));
                    assert forall|p: int| !point_at(body, p) by {
                        if point_at(body, p) {
                            if p < q {
                                assert(body.skip(p + 1)[q - p - 1] == c);
                                assert(!is_digit_char(body.skip(p + 1)[q - p - 1]));
                            } else if p > q {
                                assert(body.take(p)[q] == c);
                                assert(!is_digit_char(body.take(p)[q]));
                            } else {
                                // the point at `q` is the second, or the text starts with it
                                if seen_point {
                                    assert(body.take(p)[point - start] == s[point as int]);
                                    assert(!is_digit_char(body.take(p)[point - start]));
                                }
                            }
                        }
                    }
                    assert(!has_point(body));
                }
                return None;
            }
            j = j + 1;
        }
        if !seen_point {
            if j == start {
                proof {
                    assert(body.len() == 0);
                    assert forall|p: int| !point_at(body, p) by {}
                    assert(!is_digit_run(body));
                    assert(!has_point(body));
                }
                return None;
            }
            proof {
                assert(is_digit_run(body)) by {
                    assert forall|i: int| 0 <= i < body.len() implies #[trigger] is_digit_char(
                        body[i],
                    ) by {
                        assert(body[i] == s[start + i]);
                    }
                }
                assert(s.subrange(start as int, j as int) =~= body);
                assert(digit_values(body) =~= digits@);
            }
            let r = Decimal { negative, digits, scale: 0 };
            return Some(r);
        }
        if point + 1 == cs.len() {
            proof {
                assert(!is_digit_run(body)) by {
                    assert(body[point - start] == '.');
                    assert(!is_digit_char(body[point - start]));
                }
                assert forall|p: int| !point_at(body, p) by {
                    if point_at(body, p) {
                        let q = point - start;
                        if p < q {
                            assert(body.skip(p + 1)[q - p - 1] == '.');
                            assert(!is_digit_char(body.skip(p + 1)[q - p - 1]));
                        } else if p > q {
                            assert(body.take(p)[q] == '.');
                            assert(!is_digit_char(body.take(p)[q]));
                        } else {
                            assert(body.skip(p + 1).len() == 0);
                        }
                    }
                }
            }
            return None;
        }
        let scale = cs.len() - point - 1;
        proof {
            let q = point - start;
            assert(point_at(body, q as int)) by {
                assert(body[q as int] == s[point as int]);
                assert forall|i: int| 0 <= i < body.take(q as int).len() implies #[trigger] is_digit_char(
                    body.take(q as int)[i],
                ) by {
                    assert(body.take(q as int)[i] == s[start + i]);
                }
                assert forall|i: int| 0 <= i < body.skip(q + 1).len() implies #[trigger] is_digit_char(
                    body.skip(q + 1)[i],
                ) by {
                    assert(body.skip(q + 1)[i] == s[point + 1 + i]);
                }
            }
            assert(!is_digit_run(body)) by {
                assert(body[q as int] == '.');
                assert(!is_digit_char(body[q as int]));
            }
            let p = point_of(body);
            assert(p == q) by {
                if p < q {
                    assert(body.take(q as int)[p] == '.');
                    assert(!is_digit_char(body.take(q as int)[p]));
                } else if p > q {
                    assert(body.take(p)[q as int] == '.');
                    assert(!is_digit_char(body.take(p)[q as int]));
                }
            }
            assert(body.take(q as int) =~= s.subrange(start as int, point as int));
            assert(body.skip(q + 1) =~= s.subrange(point + 1, j as int));
            assert(digits@.len() == cs.len() - start - 1);
            assert(digit_values(body.take(p) + body.skip(p + 1)) =~= digits@);
            assert(body.len() - p - 1 == scale);
            assert(has_point(body));
        }
        let r = Decimal { negative, digits, scale };
        Some(r)
    }

    /// The decimal that has the value of `i`.
    pub fn from_integer(i: i64) -> (r: Decimal)
        ensures
            r@ == integer_decimal(i as int),
            scaled_value(r@) == i,
    {
        let magnitude: u128 = if i < 0 {
            (0i128 - (i as i128)) as u128
        } else {
            i as u128
        };
        let digits = digits_of(magnitude);
        proof {
            lemma_nat_digits_are_digits(magnitude as nat);
            lemma_digits_value_nat_digits(magnitude as nat);
        }
        Decimal { negative: i < 0, digits, scale: 0 }
    }

    /// Whether the value of this decimal is zero.
    fn is_zero(&self) -> (r: bool)
        ensures
            r == (digits_value(self@.digits) == 0),
    {
        let mut i: usize = 0;
        while i < self.digits.len()
            invariant
                0 <= i <= self.digits.len(),
                forall|j: int| 0 <= j < i ==> #[trigger] self.digits@[j] == 0,
            decreases self.digits.len() - i,
        {
            if self.digits[i] != 0 {
                proof {
                    lemma_value_zero(self.digits@);
                }
                return false;
            }
            i = i + 1;
        }
        proof {
            lemma_value_zero(self.digits@);
        }
        true
    }

    /// How `self` stands to `other`, as [`decimal_order`] says.
    pub fn compare(&self, other: &Decimal) -> (r: Order)
        ensures
            r == decimal_order(self@, other@),
    {
        proof {
            use_type_invariant(self);
            use_type_invariant(other);
        }
        let a_zero = self.is_zero();
        let b_zero = other.is_zero();
        if a_zero && b_zero {
            return if self.negative == other.negative {
                Order::Equal
            } else if self.negative {
                Order::Less
            } else {
                Order::Greater
            };
        }
        let a_negative = self.negative && !a_zero;
        let b_negative = other.negative && !b_zero;
        let ghost va = digits_value(self@.digits) as int;
        let ghost vb = digits_value(other@.digits) as int;
        let ghost pa = pow10(self@.scale) as int;
        let ghost pb = pow10(other@.scale) as int;
        proof {
            lemma_pow10_positive(self@.scale);
            lemma_pow10_positive(other@.scale);
            assert(va * pb >= 0 && vb * pa >= 0) by (nonlinear_arith)
                requires
                    va >= 0,
                    vb >= 0,
                    pa >= 1,
                    pb >= 1,
            ;
        }
        if a_negative && !b_negative {
            proof {
                assert(va * pb > 0) by (nonlinear_arith)
                    requires
                        va > 0,
                        pb >= 1,
                ;
                assert((-va) * pb == -(va * pb)) by (nonlinear_arith);
                assert(scaled_value(other@) == vb);
            }
            return Order::Less;
        }
        if b_negative && !a_negative {
            proof {
                assert(vb * pa > 0) by (nonlinear_arith)
                    requires
                        vb > 0,
                        pa >= 1,
                ;
                assert((-vb) * pa == -(vb * pa)) by (nonlinear_arith);
                assert(scaled_value(self@) == va);
            }
            return Order::Greater;
        }
        let x = padded(&self.digits, other.scale);
        let y = padded(&other.digits, self.scale);
        proof {
            lemma_padded_digits(self@.digits, other@.scale);
            lemma_padded_digits(other@.digits, self@.scale);
        }
        let m = compare_digit_strings(&x, &y);
        if a_negative {
            proof {
                assert((-va) * pb == -(va * pb)) by (nonlinear_arith);
                assert((-vb) * pa == -(vb * pa)) by (nonlinear_arith);
            }
            match m {
                Order::Less => Order::Greater,
                Order::Equal => Order::Equal,
                Order::Greater => Order::Less,
            }
        } else {
            m
        }
    }

    /// Where the whole part starts once its leading zeros are dropped.
    fn whole_start(&self) -> (first: usize)
        ensures
            first < self@.digits.len() - self@.scale,
            whole_part(self@) == self@.digits.subrange(
                first as int,
                self@.digits.len() - self@.scale,
            ),
    {
        proof {
            use_type_invariant(self);
        }
        let ghost d = self@;
        let whole_len = self.digits.len() - self.scale;
        let ghost whole = d.digits.take(whole_len as int);
        let mut first: usize = 0;
        proof {
            assert(whole.skip(0) =~= whole);
        }
        while first + 1 < whole_len && self.digits[first] == 0
            invariant
                0 <= first < whole_len,
                whole_len <= self.digits.len(),
                whole == d.digits.take(whole_len as int),
                d == self@,
                strip_leading_zeros(whole) == strip_leading_zeros(whole.skip(first as int)),
            decreases whole_len - first,
        {
            proof {
                assert(whole.skip(first as int)[0] == self.digits@[first as int]);
                assert(whole.skip(first as int).drop_first() =~= whole.skip(first + 1));
            }
            first = first + 1;
        }
        proof {
            let w = whole.skip(first as int);
            if w.len() > 1 {
                assert(w[0] == self.digits@[first as int]);
            }
            assert(strip_leading_zeros(w) == w);
            assert(w =~= d.digits.subrange(first as int, whole_len as int));
        }
        first
    }

    /// Where the fraction ends once its trailing zeros are dropped.
    fn fraction_end(&self) -> (end: usize)
        ensures
            self@.digits.len() - self@.scale <= end <= self@.digits.len(),
            fraction_part(self@) == self@.digits.subrange(
                self@.digits.len() - self@.scale,
                end as int,
            ),
    {
        proof {
            use_type_invariant(self);
        }
        let ghost d = self@;
        let len = self.digits.len();
        let whole_len = len - self.scale;
        let ghost fraction = d.digits.skip(whole_len as int);
        let mut end: usize = len;
        proof {
            assert(fraction.take(fraction.len() as int) =~= fraction);
        }
        while end > whole_len && self.digits[end - 1] == 0
            invariant
                whole_len <= end <= len,
                len == self.digits.len(),
                fraction == d.digits.skip(whole_len as int),
                d == self@,
                strip_trailing_zeros(fraction) == strip_trailing_zeros(
                    fraction.take(end - whole_len),
                ),
            decreases end,
        {
            proof {
                let f = fraction.take(end - whole_len);
                assert(f.last() == self.digits@[end - 1]);
                assert(f.drop_last() =~= fraction.take(end - 1 - whole_len));
            }
            end = end - 1;
        }
        proof {
            let f = fraction.take(end - whole_len);
            if f.len() > 0 {
                assert(f.last() == self.digits@[end - 1]);
            }
            assert(strip_trailing_zeros(f) == f);
            assert(f =~= d.digits.subrange(whole_len as int, end as int));
        }
        end
    }

    /// Where the first digit that is not zero stands, or the number of
    /// digits when all are zero.
    fn first_nonzero(&self) -> (first: usize)
        ensures
            first == leading_zero_count(self@.digits),
            first <= self@.digits.len(),
            first < self@.digits.len() ==> self@.digits[first as int] != 0,
    {
        let ghost ds = self@.digits;
        let mut first: usize = 0;
        proof {
            assert(ds.skip(0) =~= ds);
        }
        while first < self.digits.len() && self.digits[first] == 0
            invariant
                first <= self.digits.len(),
                ds == self@.digits,
                first + leading_zero_count(ds.skip(first as int)) == leading_zero_count(ds),
            decreases self.digits.len() - first,
        {
            proof {
                assert(ds.skip(first as int)[0] == ds[first as int]);
                assert(ds.skip(first as int).drop_first() =~= ds.skip(first + 1));
            }
            first = first + 1;
        }
        proof {
            let rest = ds.skip(first as int);
            if rest.len() > 0 {
                assert(rest[0] == ds[first as int]);
            }
        }
        first
    }

    /// Where the significant digits from `first`, a digit that is not zero,
    /// end once trailing zeros are dropped.
    fn significant_end(&self, first: usize) -> (end: usize)
        requires
            first < self@.digits.len(),
            self@.digits[first as int] != 0,
        ensures
            first < end <= self@.digits.len(),
            strip_trailing_zeros(self@.digits.skip(first as int)) == self@.digits.subrange(
                first as int,
                end as int,
            ),
    {
        let ghost ds = self@.digits;
        let ghost tail = ds.skip(first as int);
        let len = self.digits.len();
        let mut end: usize = len;
        proof {
            assert(tail.take(tail.len() as int) =~= tail);
        }
        while end > first + 1 && self.digits[end - 1] == 0
            invariant
                first < end <= len,
                len == self.digits.len(),
                ds == self@.digits,
                tail == ds.skip(first as int),
                strip_trailing_zeros(tail) == strip_trailing_zeros(tail.take(end - first)),
            decreases end,
        {
            proof {
                let f = tail.take(end - first);
                assert(f.last() == ds[end - 1]);
                assert(f.drop_last() =~= tail.take(end - 1 - first));
            }
            end = end - 1;
        }
        proof {
            let f = tail.take(end - first);
            assert(f.last() == ds[end - 1]);
            assert(strip_trailing_zeros(f) == f);
            assert(f =~= ds.subrange(first as int, end as int));
        }
        end
    }

    /// Appends to `s` the characters that write `self.digits[from..to]`.
    fn push_digit_range(&self, s: &mut String, from: usize, to: usize)
        requires
            from <= to <= self@.digits.len(),
        ensures
            final(s)@ == old(s)@ + digit_chars(self@.digits.subrange(from as int, to as int)),
    {
        proof {
            use_type_invariant(self);
        }
        let mut i: usize = from;
        while i < to
            invariant
                from <= i <= to,
                to <= self.digits.len(),
                all_digits(self.digits@),
                s@ == old(s)@ + digit_chars(self.digits@.subrange(from as int, i as int)),
            decreases to - i,
        {
            let c = digit_to_char(self.digits[i]);
            push_char(s, c);
            proof {
                assert(digit_chars(self.digits@.subrange(from as int, i + 1)) =~= digit_chars(
                    self.digits@.subrange(from as int, i as int),
                ).push(c));
            }
            i = i + 1;
        }
    }

    /// Appends to `s` this decimal written with an exponent, as
    /// [`exponent_text`] says.
    #[verifier::spinoff_prover]
    #[verifier::rlimit(40)]
    fn write_scientific(&self, s: &mut String, first: usize)
        requires
            first == leading_zero_count(self@.digits),
            first < self@.digits.len(),
            self@.digits[first as int] != 0,
        ensures
            final(s)@ == old(s)@ + exponent_text(self@),
    {
        proof {
            use_type_invariant(self);
        }
        let ghost d = self@;
        let whole_len = self.digits.len() - self.scale;
        proof {
            assert(d.digits.skip(first as int)[0] == d.digits[first as int]);
        }
        let end = self.significant_end(first);
        let ghost m = d.digits.subrange(first as int, end as int);
        if self.negative {
            push_char(s, '-');
        }
        let ghost signed = s@;
        push_char(s, digit_to_char(self.digits[first]));
        let ghost led = s@;
        let ghost rest = if m.len() > 1 {
            seq!['.'] + digit_chars(m.drop_first())
        } else {
            Seq::<char>::empty()
        };
        if end - first > 1 {
            push_char(s, '.');
            self.push_digit_range(s, first + 1, end);
            proof {
                assert(m.drop_first() =~= d.digits.subrange(first + 1, end as int));
            }
        }
        proof {
            assert(s@ =~= led + rest);
        }
        push_char(s, 'e');
        let ghost before_exponent = s@;
        let ghost x = exponent_of(d);
        proof {
            assert(whole_len == d.digits.len() - d.scale);
            assert(x == whole_len - 1 - first);
        }
        if first < whole_len {
            let n = (whole_len - 1 - first) as u128;
            push_nat(s, n);
            proof {
                assert(n as nat == x);
                assert(int_text(x) == nat_text(n as nat));
            }
        } else {
            push_char(s, '-');
            let ghost after_minus = s@;
            let n = (first + 1 - whole_len) as u128;
            push_nat(s, n);
            proof {
                assert(n as nat == -x);
                assert(int_text(x) == seq!['-'] + nat_text(n as nat));
                assert(s@ =~= before_exponent + int_text(x));
            }
        }
        proof {
            assert(s@ =~= before_exponent + int_text(x));
            assert(m[0] == d.digits[first as int]);
            assert(significand(d) == m);
            assert(s@ =~= old(s)@ + exponent_text(d));
        }
    }

    /// Appends to `s` the shortest text of this decimal's value, as
    /// [`decimal_text`] says; with `debug`, as a token writes it, as
    /// [`decimal_debug_text`] says.
    pub fn write_to(&self, s: &mut String, debug: bool)
        ensures
            !debug ==> final(s)@ == old(s)@ + decimal_text(self@),
            debug ==> final(s)@ == old(s)@ + decimal_debug_text(self@),
    {
        proof {
            use_type_invariant(self);
        }
        let whole_len = self.digits.len() - self.scale;
        let significant = self.first_nonzero();
        let large = whole_len >= 17 && significant <= whole_len - 17;
        let small = significant > whole_len && significant - whole_len > 3;
        if debug && significant < self.digits.len() && (large || small) {
            self.write_scientific(s, significant);
        } else {
            self.write_plain(s, debug);
        }
    }

    /// Appends to `s` the shortest text of this decimal's value, as
    /// [`decimal_text`] says; with `debug`, a whole number keeps its `.0`,
    /// as [`plain_debug_text`] says.
    fn write_plain(&self, s: &mut String, debug: bool)
        ensures
            !debug ==> final(s)@ == old(s)@ + decimal_text(self@),
            debug ==> final(s)@ == old(s)@ + plain_debug_text(self@),
    {
        proof {
            use_type_invariant(self);
        }
        let ghost d = self@;
        let whole_len = self.digits.len() - self.scale;
        let first = self.whole_start();
        let end = self.fraction_end();
        let ghost before = s@;
        if self.negative {
            push_char(s, '-');
        }
        let ghost sign = if d.negative {
            seq!['-']
        } else {
            Seq::<char>::empty()
        };
        proof {
            assert(s@ =~= before + sign);
        }
        self.push_digit_range(s, first, whole_len);
        let ghost middle = s@;
        if end > whole_len {
            push_char(s, '.');
            self.push_digit_range(s, whole_len, end);
            proof {
                assert(s@ =~= old(s)@ + decimal_text(d));
                assert(s@ =~= old(s)@ + plain_debug_text(d));
            }
        } else if debug {
            push_char(s, '.');
            push_char(s, '0');
            proof {
                assert(s@ =~= old(s)@ + plain_debug_text(d));
            }
        } else {
            proof {
                assert(s@ =~= old(s)@ + decimal_text(d));
            }
        }
    }
}

/// Whether `a` and `b` have the same value, whatever the sign of a zero.
pub open spec fn same_value(a: DecimalView, b: DecimalView) -> bool {
    scaled_value(a) * pow10(b.scale) == scaled_value(b) * pow10(a.scale)
}

/// Two decimals are equal when their values are: `1.0 == 1.00`, and
/// `-0.0 == 0.0`.
impl PartialEq for Decimal {
    fn eq(&self, other: &Decimal) -> (r: bool) {
        let ghost a = self@;
        let ghost b = other@;
        proof {
            if digits_value(a.digits) == 0 {
                assert(scaled_value(a) == 0);
                assert(scaled_value(a) * pow10(b.scale) == 0);
            }
            if digits_value(b.digits) == 0 {
                assert(scaled_value(b) == 0);
                assert(scaled_value(b) * pow10(a.scale) == 0);
            }
        }
        match self.compare(other) {
            Order::Equal => true,
            _ => self.is_zero() && other.is_zero(),
        }
    }
}

impl vstd::std_specs::cmp::PartialEqSpecImpl for Decimal {
    open spec fn obeys_eq_spec() -> bool {
        true
    }

    open spec fn eq_spec(&self, other: &Decimal) -> bool {
        same_value(self@, other@)
    }
}

/// Exchanging the sides of a comparison of decimals reverses it.
pub proof fn lemma_decimal_order_reverses(a: DecimalView, b: DecimalView)
    ensures
        decimal_order(b, a) == reversed(decimal_order(a, b)),
{
}

/// An integer written as a decimal keeps its value.
pub proof fn lemma_integer_decimal_value(i: int)
    ensures
        scaled_value(integer_decimal(i)) == i,
        integer_decimal(i).scale == 0,
{
    lemma_digits_value_nat_digits(if i < 0 { (-i) as nat } else { i as nat });
}

} // verus!
