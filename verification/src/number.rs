//! The interpreter's integer. Kanso's ints are unbounded, but nearly every one
//! a program makes fits a machine word, so a value that fits is kept as an
//! `i64`, and only one that overflows takes the wide form, shared behind an
//! `Rc` so that copying the value never copies the digits.
//!
//! The two forms are kept canonical: `Big` never holds a number that fits
//! `Small`. Equality relies on that, since two equal numbers are then always
//! the same variant. Arithmetic on wide numbers is `num_bigint`'s.

use vstd::prelude::*;
use num_bigint::{BigInt, Sign};
use std::rc::Rc;
use crate::text::{decimal, push_i64, string_from_chars};

verus! {

/// One base-2^32 digit position.
pub open spec fn base() -> nat {
    0x1_0000_0000
}

/// `base()` to the `k`.
pub open spec fn base_pow(k: nat) -> nat
    decreases k,
{
    if k == 0 {
        1
    } else {
        base() * base_pow((k - 1) as nat)
    }
}

/// The number that base-2^32 digits spell, least significant first.
pub open spec fn magnitude(d: Seq<u32>) -> nat
    decreases d.len(),
{
    if d.len() == 0 {
        0
    } else {
        d[0] as nat + base() * magnitude(d.drop_first())
    }
}

/// A wide integer as plain values: a sign and base-2^32 digits, least
/// significant first.
#[derive(Clone, Debug, PartialEq, Eq, Hash)]
pub struct Big {
    pub negative: bool,
    pub digits: Vec<u32>,
}

impl View for Big {
    type V = int;

    open spec fn view(&self) -> int {
        if self.negative {
            -(magnitude(self.digits@) as int)
        } else {
            magnitude(self.digits@) as int
        }
    }
}

impl Big {
    /// No high zero digit, and zero is never negative: one number, one
    /// spelling.
    pub open spec fn canonical(&self) -> bool {
        &&& self.digits@.len() > 0 ==> self.digits@.last() != 0
        &&& self.negative ==> self.digits@.len() > 0
    }
}

pub open spec fn fits_i64(v: int) -> bool {
    i64::MIN <= v <= i64::MAX
}

/// Division that rounds toward zero, as a machine's does.
pub open spec fn trunc_div(a: int, b: int) -> int {
    let q = (if a < 0 { -a } else { a }) / (if b < 0 { -b } else { b });
    if (a < 0) != (b < 0) {
        -q
    } else {
        q
    }
}

/// What truncating division leaves over; it takes the sign of the dividend.
pub open spec fn trunc_rem(a: int, b: int) -> int {
    a - b * trunc_div(a, b)
}

#[derive(Clone, Debug, Hash)]
pub enum Int {
    Small(i64),
    Big(Rc<Big>),
}

impl View for Int {
    type V = int;

    open spec fn view(&self) -> int {
        match self {
            Int::Small(n) => *n as int,
            Int::Big(b) => b@,
        }
    }
}

impl Int {
    /// The canonical form: a wide number is canonical and never fits a word.
    pub open spec fn wf(&self) -> bool {
        match self {
            Int::Small(_) => true,
            Int::Big(b) => b.canonical() && !fits_i64(b@),
        }
    }

    /// Structural sameness, which is what `==` on two ints computes.
    pub open spec fn same(&self, other: &Int) -> bool {
        match *self {
            Int::Small(a) => other matches Int::Small(b) && a == b,
            Int::Big(x) => other matches Int::Big(y) && x.negative == y.negative
                && x.digits@ == y.digits@,
        }
    }
}

// ---------------------------------------------------------------------------
// Facts about digit sequences.

proof fn lemma_base_pow_pos(k: nat)
    ensures
        base_pow(k) >= 1,
    decreases k,
{
    if k > 0 {
        lemma_base_pow_pos((k - 1) as nat);
    }
}

/// A sequence of `len` digits spells less than `base()^len`.
proof fn lemma_magnitude_below(d: Seq<u32>)
    ensures
        magnitude(d) < base_pow(d.len()),
    decreases d.len(),
{
    if d.len() > 0 {
        lemma_magnitude_below(d.drop_first());
        let r = magnitude(d.drop_first());
        let p = base_pow((d.len() - 1) as nat);
        assert(r + 1 <= p);
        assert(base() * (r + 1) <= base() * p) by (nonlinear_arith)
            requires r + 1 <= p;
    }
}

/// With a nonzero top digit, `len` digits spell at least `base()^(len-1)`.
proof fn lemma_magnitude_at_least(d: Seq<u32>)
    requires
        d.len() > 0,
        d.last() != 0,
    ensures
        magnitude(d) >= base_pow((d.len() - 1) as nat),
    decreases d.len(),
{
    if d.len() == 1 {
        assert(d.drop_first().len() == 0);
    } else {
        let rest = d.drop_first();
        assert(rest.last() == d.last());
        lemma_magnitude_at_least(rest);
        let r = magnitude(rest);
        let p = base_pow((rest.len() - 1) as nat);
        assert(base() * r >= base() * p) by (nonlinear_arith)
            requires r >= p;
    }
}

proof fn lemma_magnitude_zero(d: Seq<u32>)
    requires
        d.len() > 0 ==> d.last() != 0,
    ensures
        magnitude(d) == 0 <==> d.len() == 0,
{
    if d.len() > 0 {
        lemma_magnitude_at_least(d);
        lemma_base_pow_pos((d.len() - 1) as nat);
    }
}

proof fn lemma_magnitude_two(lo: u32, hi: u32)
    ensures
        magnitude(seq![lo, hi]) == lo + base() * hi,
        magnitude(seq![lo]) == lo,
{
    let s = seq![lo, hi];
    let e = Seq::<u32>::empty();
    assert(s.drop_first() =~= seq![hi]);
    assert(seq![hi].drop_first() =~= e);
    assert(seq![lo].drop_first() =~= e);
    assert(magnitude(e) == 0);
    assert(magnitude(seq![hi]) == hi as nat + base() * magnitude(seq![hi].drop_first()));
    assert(magnitude(seq![lo]) == lo as nat + base() * magnitude(seq![lo].drop_first()));
    assert(magnitude(s) == lo as nat + base() * magnitude(s.drop_first()));
}

/// Two canonical wide numbers of equal value have the same sign and digits.
proof fn lemma_magnitude_injective(a: Seq<u32>, b: Seq<u32>)
    requires
        a.len() > 0 ==> a.last() != 0,
        b.len() > 0 ==> b.last() != 0,
        magnitude(a) == magnitude(b),
    ensures
        a == b,
    decreases a.len(),
{
    lemma_magnitude_zero(a);
    lemma_magnitude_zero(b);
    if a.len() == 0 {
        assert(b.len() == 0);
        assert(a =~= b);
    } else {
        let ra = a.drop_first();
        let rb = b.drop_first();
        let ma = magnitude(ra);
        let mb = magnitude(rb);
        let x = a[0] as nat;
        let y = b[0] as nat;
        assert(x + base() * ma == y + base() * mb);
        assert(x == y && ma == mb) by (nonlinear_arith)
            requires
                x + base() * ma == y + base() * mb,
                x < base(),
                y < base(),
                base() == 0x1_0000_0000nat,
        {
            if ma < mb {
                assert(base() * ma + base() <= base() * mb);
            } else if mb < ma {
                assert(base() * mb + base() <= base() * ma);
            }
        }
        if ra.len() > 0 {
            assert(ra.last() == a.last());
        }
        if rb.len() > 0 {
            assert(rb.last() == b.last());
        }
        lemma_magnitude_injective(ra, rb);
        assert(a =~= seq![a[0]] + ra);
        assert(b =~= seq![b[0]] + rb);
    }
}

/// Canonical ints are equal exactly when their values are: the law the
/// canonical form exists for.
pub proof fn lemma_same_iff_equal_value(a: Int, b: Int)
    requires
        a.wf(),
        b.wf(),
    ensures
        a.same(&b) <==> a@ == b@,
{
    match (a, b) {
        (Int::Big(x), Int::Big(y)) => {
            if x@ == y@ {
                lemma_magnitude_zero(x.digits@);
                lemma_magnitude_zero(y.digits@);
                assert(x.negative == y.negative);
                lemma_magnitude_injective(x.digits@, y.digits@);
            }
        },
        _ => {},
    }
}

// ---------------------------------------------------------------------------
// The outside arithmetic, each call behind one trusted wrapper.

/// `BigInt`'s `+`, on the number the two operands spell. The contract claims
/// the sum, with digits as `BigInt::to_u32_digits` gives them: no high zero,
/// and zero unsigned.
#[verifier::external_body]
fn big_add(a: &Big, b: &Big) -> (r: Big)
    ensures
        r.canonical(),
        r@ == a@ + b@,
{
    let x = BigInt::from_slice(if a.negative { Sign::Minus } else { Sign::Plus }, &a.digits);
    let y = BigInt::from_slice(if b.negative { Sign::Minus } else { Sign::Plus }, &b.digits);
    let (sign, digits) = (x + y).to_u32_digits();
    Big { negative: sign == Sign::Minus, digits }
}

/// `BigInt`'s `-`: the difference, canonically spelled.
#[verifier::external_body]
fn big_sub(a: &Big, b: &Big) -> (r: Big)
    ensures
        r.canonical(),
        r@ == a@ - b@,
{
    let x = BigInt::from_slice(if a.negative { Sign::Minus } else { Sign::Plus }, &a.digits);
    let y = BigInt::from_slice(if b.negative { Sign::Minus } else { Sign::Plus }, &b.digits);
    let (sign, digits) = (x - y).to_u32_digits();
    Big { negative: sign == Sign::Minus, digits }
}

/// `BigInt`'s `*`: the product, canonically spelled.
#[verifier::external_body]
fn big_mul(a: &Big, b: &Big) -> (r: Big)
    ensures
        r.canonical(),
        r@ == a@ * b@,
{
    let x = BigInt::from_slice(if a.negative { Sign::Minus } else { Sign::Plus }, &a.digits);
    let y = BigInt::from_slice(if b.negative { Sign::Minus } else { Sign::Plus }, &b.digits);
    let (sign, digits) = (x * y).to_u32_digits();
    Big { negative: sign == Sign::Minus, digits }
}

/// `BigInt`'s `/`, which truncates toward zero. It panics on a zero divisor,
/// which the contract excludes.
#[verifier::external_body]
fn big_div(a: &Big, b: &Big) -> (r: Big)
    requires
        b@ != 0,
    ensures
        r.canonical(),
        r@ == trunc_div(a@, b@),
{
    let x = BigInt::from_slice(if a.negative { Sign::Minus } else { Sign::Plus }, &a.digits);
    let y = BigInt::from_slice(if b.negative { Sign::Minus } else { Sign::Plus }, &b.digits);
    let (sign, digits) = (x / y).to_u32_digits();
    Big { negative: sign == Sign::Minus, digits }
}

/// `BigInt`'s `%`: the remainder of truncating division, which takes the
/// dividend's sign. It panics on a zero divisor, which the contract excludes.
#[verifier::external_body]
fn big_rem(a: &Big, b: &Big) -> (r: Big)
    requires
        b@ != 0,
    ensures
        r.canonical(),
        r@ == trunc_rem(a@, b@),
{
    let x = BigInt::from_slice(if a.negative { Sign::Minus } else { Sign::Plus }, &a.digits);
    let y = BigInt::from_slice(if b.negative { Sign::Minus } else { Sign::Plus }, &b.digits);
    let (sign, digits) = (x % y).to_u32_digits();
    Big { negative: sign == Sign::Minus, digits }
}

/// `BigInt`'s ordering, reported as -1, 0 or 1 for less, equal, greater.
#[verifier::external_body]
fn big_order(a: &Big, b: &Big) -> (r: i8)
    ensures
        r == (if a@ < b@ {
            -1i8
        } else if a@ == b@ {
            0i8
        } else {
            1i8
        }),
{
    let x = BigInt::from_slice(if a.negative { Sign::Minus } else { Sign::Plus }, &a.digits);
    let y = BigInt::from_slice(if b.negative { Sign::Minus } else { Sign::Plus }, &b.digits);
    match x.cmp(&y) {
        std::cmp::Ordering::Less => -1,
        std::cmp::Ordering::Equal => 0,
        std::cmp::Ordering::Greater => 1,
    }
}

/// `BigInt`'s `Display`: the number in decimal, with a leading `-` when it is
/// negative.
#[verifier::external_body]
fn big_render(a: &Big) -> (r: String)
    ensures
        r@ == decimal(a@),
{
    let x = BigInt::from_slice(if a.negative { Sign::Minus } else { Sign::Plus }, &a.digits);
    x.to_string()
}

/// The decimal digits of a character string.
pub open spec fn decimal_value(s: Seq<char>) -> nat
    decreases s.len(),
{
    if s.len() == 0 {
        0
    } else {
        (10 * decimal_value(s.drop_last()) + (s.last() as int - 48)) as nat
    }
}

pub open spec fn all_digits(s: Seq<char>) -> bool {
    forall|i: int| 0 <= i < s.len() ==> '0' <= #[trigger] s[i] <= '9'
}

/// `BigInt`'s `FromStr`, on a nonempty run of ASCII digits, which it always
/// accepts; the contract claims the number the digits spell.
#[verifier::external_body]
pub(crate) fn big_from_digits(text: &str) -> (r: Big)
    requires
        text@.len() > 0,
        all_digits(text@),
    ensures
        r.canonical(),
        r@ == decimal_value(text@),
{
    let (sign, digits) = text.parse::<BigInt>().unwrap().to_u32_digits();
    Big { negative: sign == Sign::Minus, digits }
}

// ---------------------------------------------------------------------------
// The library's own conversions between the two forms.

impl Big {
    /// The number with its sign flipped; zero stays unsigned.
    pub fn negated(&self) -> (r: Big)
        requires
            self.canonical(),
        ensures
            r.canonical(),
            r@ == -self@,
    {
        let digits = self.digits.clone();
        assert(digits@ =~= self.digits@);
        Big { negative: !self.negative && digits.len() > 0, digits }
    }

    /// A machine word as digits.
    pub fn from_i64(n: i64) -> (r: Big)
        ensures
            r.canonical(),
            r@ == n as int,
    {
        let negative = n < 0;
        let m: u64 = if negative { (0i128 - n as i128) as u64 } else { n as u64 };
        assert(m as int == if n < 0 { -(n as int) } else { n as int });
        let lo: u32 = (m & 0xffff_ffff) as u32;
        let hi: u32 = (m >> 32) as u32;
        assert(m as int == lo as int + 0x1_0000_0000 * hi as int) by (bit_vector)
            requires
                lo == (m & 0xffff_ffff) as u32,
                hi == (m >> 32) as u32,
        ;
        proof {
            lemma_magnitude_two(lo, hi);
            assert(Seq::<u32>::empty().len() == 0);
        }
        let digits: Vec<u32> = if m == 0 {
            Vec::new()
        } else if hi == 0 {
            vec![lo]
        } else {
            vec![lo, hi]
        };
        proof {
            if m == 0 {
                assert(digits@ =~= Seq::<u32>::empty());
            } else if hi == 0 {
                assert(digits@ =~= seq![lo]);
            } else {
                assert(digits@ =~= seq![lo, hi]);
            }
        }
        Big { negative, digits }
    }

    /// An unsigned machine word as digits.
    pub fn from_u64(m: u64) -> (r: Big)
        ensures
            r.canonical(),
            r@ == m as int,
    {
        let lo: u32 = (m & 0xffff_ffff) as u32;
        let hi: u32 = (m >> 32) as u32;
        assert(m as int == lo as int + 0x1_0000_0000 * hi as int) by (bit_vector)
            requires
                lo == (m & 0xffff_ffff) as u32,
                hi == (m >> 32) as u32,
        ;
        proof {
            lemma_magnitude_two(lo, hi);
            assert(Seq::<u32>::empty().len() == 0);
        }
        let digits: Vec<u32> = if m == 0 {
            Vec::new()
        } else if hi == 0 {
            vec![lo]
        } else {
            vec![lo, hi]
        };
        proof {
            if m == 0 {
                assert(digits@ =~= Seq::<u32>::empty());
            } else if hi == 0 {
                assert(digits@ =~= seq![lo]);
            } else {
                assert(digits@ =~= seq![lo, hi]);
            }
        }
        Big { negative: false, digits }
    }

    /// The word this number is, if it fits one.
    pub fn word(&self) -> (r: Option<i64>)
        requires
            self.canonical(),
        ensures
            r == (if fits_i64(self@) {
                Some(self@ as i64)
            } else {
                None::<i64>
            }),
    {
        let len = self.digits.len();
        if len > 2 {
            proof {
                lemma_magnitude_at_least(self.digits@);
                reveal_with_fuel(base_pow, 3);
                lemma_base_pow_monotone(2, (len - 1) as nat);
            }
            return None;
        }
        let mag: u64 = if len == 0 {
            0
        } else if len == 1 {
            self.digits[0] as u64
        } else {
            let lo = self.digits[0];
            let hi = self.digits[1];
            assert(self.digits@ =~= seq![lo, hi]);
            proof {
                lemma_magnitude_two(lo, hi);
            }
            let m = (lo as u64) | ((hi as u64) << 32);
            assert(m as int == lo as int + 0x1_0000_0000 * hi as int) by (bit_vector)
                requires
                    m == (lo as u64) | ((hi as u64) << 32),
            ;
            m
        };
        proof {
            if len == 0 {
                assert(self.digits@ =~= Seq::<u32>::empty());
            } else if len == 1 {
                assert(self.digits@ =~= seq![self.digits@[0]]);
                lemma_magnitude_two(self.digits@[0], 0);
            }
        }
        assert(mag as int == magnitude(self.digits@));
        if self.negative {
            if mag <= 0x8000_0000_0000_0000 {
                Some((0i128 - mag as i128) as i64)
            } else {
                None
            }
        } else if mag <= 0x7fff_ffff_ffff_ffff {
            Some(mag as i64)
        } else {
            None
        }
    }
}

proof fn lemma_base_pow_monotone(a: nat, b: nat)
    requires
        a <= b,
    ensures
        base_pow(a) <= base_pow(b),
    decreases b,
{
    if a < b {
        lemma_base_pow_monotone(a, (b - 1) as nat);
        lemma_base_pow_pos((b - 1) as nat);
        let p = base_pow((b - 1) as nat);
        assert(p <= base() * p) by (nonlinear_arith)
            requires p >= 1;
    }
}

impl Int {
    pub fn zero() -> (r: Int)
        ensures
            r.wf(),
            r@ == 0,
    {
        Int::Small(0)
    }

    pub fn from_i64(n: i64) -> (r: Int)
        ensures
            r.wf(),
            r@ == n as int,
    {
        Int::Small(n)
    }

    /// An unsigned machine word as a number.
    pub fn from_u64(n: u64) -> (r: Int)
        ensures
            r.wf(),
            r@ == n as int,
    {
        if n <= i64::MAX as u64 {
            Int::Small(n as i64)
        } else {
            Int::from_big(Big::from_u64(n))
        }
    }

    /// A wide result back into canonical form: one that fits a word goes
    /// back into one.
    pub fn from_big(n: Big) -> (r: Int)
        requires
            n.canonical(),
        ensures
            r.wf(),
            r@ == n@,
    {
        match n.word() {
            Some(small) => Int::Small(small),
            None => Int::Big(Rc::new(n)),
        }
    }

    /// The digits as a wide number.
    pub fn big(&self) -> (r: Big)
        requires
            self.wf(),
        ensures
            r.canonical(),
            r@ == self@,
    {
        match self {
            Int::Small(n) => Big::from_i64(*n),
            Int::Big(b) => {
                let digits = b.digits.clone();
                assert(digits@ =~= b.digits@);
                Big { negative: b.negative, digits }
            },
        }
    }

    pub fn to_i64(&self) -> (r: Option<i64>)
        ensures
            r == (match self {
                Int::Small(n) => Some(*n),
                Int::Big(_) => None::<i64>,
            }),
            self.wf() ==> (r is Some <==> fits_i64(self@)),
            r matches Some(n) ==> n as int == self@,
    {
        match self {
            Int::Small(n) => Some(*n),
            Int::Big(_) => None,
        }
    }

    pub fn to_u64(&self) -> (r: Option<u64>)
        ensures
            r == (match self {
                Int::Small(n) => if *n >= 0 {
                    Some(*n as u64)
                } else {
                    None::<u64>
                },
                Int::Big(_) => None::<u64>,
            }),
            r matches Some(n) ==> n as int == self@,
    {
        match self {
            Int::Small(n) => if *n >= 0 {
                Some(*n as u64)
            } else {
                None
            },
            Int::Big(_) => None,
        }
    }

    pub fn is_zero(&self) -> (r: bool)
        ensures
            r == (self matches Int::Small(n) && n == 0),
            self.wf() ==> (r <==> self@ == 0),
    {
        match self {
            Int::Small(n) => *n == 0,
            Int::Big(_) => false,
        }
    }

    pub fn add(&self, other: &Int) -> (r: Int)
        requires
            self.wf(),
            other.wf(),
        ensures
            r.wf(),
            r@ == self@ + other@,
    {
        match (self, other) {
            (Int::Small(a), Int::Small(b)) => match a.checked_add(*b) {
                Some(n) => Int::Small(n),
                None => Int::from_big(big_add(&Big::from_i64(*a), &Big::from_i64(*b))),
            },
            _ => Int::from_big(big_add(&self.big(), &other.big())),
        }
    }

    pub fn sub(&self, other: &Int) -> (r: Int)
        requires
            self.wf(),
            other.wf(),
        ensures
            r.wf(),
            r@ == self@ - other@,
    {
        match (self, other) {
            (Int::Small(a), Int::Small(b)) => match a.checked_sub(*b) {
                Some(n) => Int::Small(n),
                None => Int::from_big(big_sub(&Big::from_i64(*a), &Big::from_i64(*b))),
            },
            _ => Int::from_big(big_sub(&self.big(), &other.big())),
        }
    }

    pub fn mul(&self, other: &Int) -> (r: Int)
        requires
            self.wf(),
            other.wf(),
        ensures
            r.wf(),
            r@ == self@ * other@,
    {
        match (self, other) {
            (Int::Small(a), Int::Small(b)) => match a.checked_mul(*b) {
                Some(n) => Int::Small(n),
                None => Int::from_big(big_mul(&Big::from_i64(*a), &Big::from_i64(*b))),
            },
            _ => Int::from_big(big_mul(&self.big(), &other.big())),
        }
    }

    /// Truncating division. The divisor is not zero.
    pub fn div(&self, other: &Int) -> (r: Int)
        requires
            self.wf(),
            other.wf(),
            other@ != 0,
        ensures
            r.wf(),
            r@ == trunc_div(self@, other@),
    {
        match (self, other) {
            (Int::Small(a), Int::Small(b)) => match a.checked_div(*b) {
                Some(n) => {
                    proof {
                        lemma_machine_div(*a as int, *b as int);
                    }
                    Int::Small(n)
                },
                None => Int::from_big(big_div(&Big::from_i64(*a), &Big::from_i64(*b))),
            },
            _ => Int::from_big(big_div(&self.big(), &other.big())),
        }
    }

    /// The remainder of truncating division. The divisor is not zero.
    pub fn rem(&self, other: &Int) -> (r: Int)
        requires
            self.wf(),
            other.wf(),
            other@ != 0,
        ensures
            r.wf(),
            r@ == trunc_rem(self@, other@),
    {
        match (self, other) {
            (Int::Small(a), Int::Small(b)) => match a.checked_rem(*b) {
                Some(n) => {
                    proof {
                        lemma_machine_rem(*a as int, *b as int);
                    }
                    Int::Small(n)
                },
                None => Int::from_big(big_rem(&Big::from_i64(*a), &Big::from_i64(*b))),
            },
            _ => Int::from_big(big_rem(&self.big(), &other.big())),
        }
    }

    /// The order of two numbers: -1, 0 or 1 for less, equal, greater.
    pub fn order(&self, other: &Int) -> (r: i8)
        requires
            self.wf(),
            other.wf(),
        ensures
            r == (if self@ < other@ {
                -1i8
            } else if self@ == other@ {
                0i8
            } else {
                1i8
            }),
    {
        match (self, other) {
            (Int::Small(a), Int::Small(b)) => if *a < *b {
                -1
            } else if *a == *b {
                0
            } else {
                1
            },
            _ => big_order(&self.big(), &other.big()),
        }
    }

    /// `==`: the same variant holding the same number. On canonical ints
    /// that is equality of value (`lemma_same_iff_equal_value`).
    pub fn equals(&self, other: &Int) -> (r: bool)
        ensures
            r == self.same(other),
    {
        match (self, other) {
            (Int::Small(a), Int::Small(b)) => *a == *b,
            (Int::Big(x), Int::Big(y)) => x.negative == y.negative && digits_equal(&x.digits, &y.digits),
            _ => false,
        }
    }

    /// The number in decimal, as `Display` writes it.
    pub fn render(&self) -> (r: String)
        ensures
            r@ == decimal(self@),
    {
        match self {
            Int::Small(n) => {
                let mut out: Vec<char> = Vec::new();
                push_i64(*n, &mut out);
                assert(out@ =~= decimal(*n as int));
                string_from_chars(out.as_slice())
            },
            Int::Big(b) => big_render(b),
        }
    }
}

fn digits_equal(a: &Vec<u32>, b: &Vec<u32>) -> (r: bool)
    ensures
        r == (a@ == b@),
{
    if a.len() != b.len() {
        return false;
    }
    let mut i: usize = 0;
    while i < a.len()
        invariant
            i <= a@.len(),
            a@.len() == b@.len(),
            forall|j: int| 0 <= j < i ==> a@[j] == b@[j],
        decreases a@.len() - i,
    {
        if a[i] != b[i] {
            assert(a@[i as int] != b@[i as int]);
            return false;
        }
        i += 1;
    }
    assert(a@ =~= b@);
    true
}

proof fn lemma_machine_div(x: int, d: int)
    requires
        d != 0,
    ensures
        trunc_div(x, d) == (if x == 0 {
            0
        } else if x > 0 && d > 0 {
            x / d
        } else if x < 0 && d < 0 {
            ((x * -1) / (d * -1))
        } else if x < 0 {
            ((x * -1) / d) * -1
        } else {
            (x / (d * -1)) * -1
        }),
{
    if x == 0 {
        assert(0int / (if d < 0 { -d } else { d }) == 0) by (nonlinear_arith)
            requires d != 0;
    }
}

proof fn lemma_machine_rem(x: int, d: int)
    requires
        d != 0,
    ensures
        trunc_rem(x, d) == (if x == 0 {
            0
        } else if x > 0 && d > 0 {
            x % d
        } else if x < 0 && d < 0 {
            ((x * -1) % (d * -1)) * -1
        } else if x < 0 {
            ((x * -1) % d) * -1
        } else {
            x % (d * -1)
        }),
{
    let ax = if x < 0 { -x } else { x };
    let ad = if d < 0 { -d } else { d };
    let q = ax / ad;
    assert(ax == ad * q + ax % ad) by (nonlinear_arith)
        requires ad > 0, q == ax / ad;
    if x == 0 {
        assert(0int / ad == 0) by (nonlinear_arith)
            requires ad > 0;
    }
    if x < 0 && d < 0 {
        assert(d * q == -(ad * q)) by (nonlinear_arith)
            requires d == -ad;
    } else if x < 0 {
        assert(d * (-q) == -(ad * q)) by (nonlinear_arith)
            requires d == ad;
    } else if d < 0 {
        assert(d * (-q) == ad * q) by (nonlinear_arith)
            requires d == -ad;
    } else {
        assert(d * q == ad * q);
    }
}

} // verus!
