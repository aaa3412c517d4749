//! Binary64 values written out in the fewest digits that tell them from their neighbours.
use vstd::prelude::*;
use vstd::arithmetic::div_mod::*;
use vstd::arithmetic::power2::*;
use crate::decimal::{
    are_digits, digits_of, leads, lemma_digits_part, lemma_shown_is_numeral, lemma_ten_to_positive,
    lemma_value_push, lemma_value_splits, multiple, show, shown, ten_to, value,
};
use crate::double;
use crate::double::{units, Double, SIGN_BIT};
use crate::rounding;
use crate::rounding::INFINITE;
use crate::text;

verus! {

/// Five to the power `n`.
pub open spec fn five_to(n: nat) -> nat
    decreases n,
{
    if n == 0 {
        1
    } else {
        5 * five_to((n - 1) as nat)
    }
}

/// How many grains, of ten to the power -1075 each, halves of a unit are worth. A half unit is
/// two to the power -1075, so this is a whole number.
pub open spec fn grains(half_units: nat) -> nat {
    half_units * five_to(1075)
}

/// A finite magnitude, in grains.
pub open spec fn exact(magnitude: nat) -> nat {
    grains(2 * units(magnitude))
}

/// Half way to the magnitude before this one, in grains.
pub open spec fn lower_end(magnitude: nat) -> nat {
    grains(units((magnitude - 1) as nat) + units(magnitude))
}

/// Half way to the magnitude after this one, in grains.
pub open spec fn upper_end(magnitude: nat) -> nat {
    grains(units(magnitude) + units(magnitude + 1))
}

/// A number of so many grains is read as this magnitude: it is nearer to it than to any
/// other, and what lies half way is read as the even one.
pub open spec fn reads_as(amount: nat, magnitude: nat) -> bool {
    if magnitude % 2 == 0 {
        lower_end(magnitude) <= amount <= upper_end(magnitude)
    } else {
        lower_end(magnitude) < amount < upper_end(magnitude)
    }
}

/// How far a number of so many grains is from a magnitude.
pub open spec fn gap(amount: nat, magnitude: nat) -> nat {
    if amount <= exact(magnitude) {
        (exact(magnitude) - amount) as nat
    } else {
        (amount - exact(magnitude)) as nat
    }
}

/// A number with `count` decimal digits, followed by `zeros` zeros, in grains.
pub struct Decimal {
    pub digits: nat,
    pub count: nat,
    pub zeros: nat,
}

impl Decimal {
    /// The number, in grains.
    pub open spec fn amount(self) -> nat {
        self.digits * ten_to(self.zeros)
    }

    /// The digits are as many as they are said to be.
    pub open spec fn counted(self) -> bool {
        &&& self.count > 0
        &&& ten_to((self.count - 1) as nat) <= self.digits < ten_to(self.count)
    }

    /// The number is read as this magnitude.
    pub open spec fn shows(self, magnitude: nat) -> bool {
        self.counted() && reads_as(self.amount(), magnitude)
    }

    /// This number shows the magnitude at least as well as the other: in fewer digits, or in
    /// as many but nearer to it, or, as near, from above.
    pub open spec fn serves(self, other: Decimal, magnitude: nat) -> bool {
        ||| self.count < other.count
        ||| {
            &&& self.count == other.count
            &&& gap(self.amount(), magnitude) < gap(other.amount(), magnitude)
        }
        ||| {
            &&& self.count == other.count
            &&& gap(self.amount(), magnitude) == gap(other.amount(), magnitude)
            &&& self.amount() >= other.amount()
        }
    }

    /// Of all numbers that are read as the magnitude, this one shows it best.
    pub open spec fn is_shortest(self, magnitude: nat) -> bool {
        &&& self.shows(magnitude)
        &&& forall|other: Decimal| #[trigger]
            other.shows(magnitude) ==> self.serves(other, magnitude)
    }
}

/// The number that shows a magnitude above zero in the fewest digits.
pub open spec fn shortest(magnitude: nat) -> Decimal {
    choose|number: Decimal| number.is_shortest(magnitude)
}

proof fn lemma_ten_to_adds(a: nat, b: nat)
    ensures
        ten_to(a + b) == ten_to(a) * ten_to(b),
    decreases a,
{
    if a == 0 {
        assert(1 * ten_to(b) == ten_to(b)) by (nonlinear_arith);
    } else {
        let c = (a - 1) as nat;
        lemma_ten_to_adds(c, b);
        assert(ten_to(a + b) == 10 * ten_to(c + b));
        assert(10 * (ten_to(c) * ten_to(b)) == (10 * ten_to(c)) * ten_to(b)) by (nonlinear_arith);
    }
}

proof fn lemma_ten_to_increases(a: nat, b: nat)
    requires
        a <= b,
    ensures
        ten_to(a) <= ten_to(b),
    decreases b,
{
    if a < b {
        lemma_ten_to_increases(a, (b - 1) as nat);
    }
}

proof fn lemma_five_to_positive(n: nat)
    ensures
        five_to(n) > 0,
    decreases n,
{
    if n > 0 {
        lemma_five_to_positive((n - 1) as nat);
    }
}

/// A number lies between the powers of ten that its digits and zeros call for.
proof fn lemma_amount_is_bounded(number: Decimal)
    requires
        number.counted(),
    ensures
        ten_to((number.count - 1 + number.zeros) as nat) <= number.amount() < ten_to(
            number.count + number.zeros,
        ),
{
    let t = ten_to(number.zeros);
    lemma_ten_to_positive(number.zeros);
    lemma_ten_to_adds((number.count - 1) as nat, number.zeros);
    lemma_ten_to_adds(number.count, number.zeros);
    assert(ten_to((number.count - 1) as nat) * t <= number.digits * t < ten_to(number.count) * t)
        by (nonlinear_arith)
        requires
            ten_to((number.count - 1) as nat) <= number.digits < ten_to(number.count),
            t > 0,
    ;
}

/// No two numbers show a magnitude best.
proof fn lemma_shortest_is_unique(a: Decimal, b: Decimal, magnitude: nat)
    requires
        a.is_shortest(magnitude),
        b.is_shortest(magnitude),
    ensures
        a == b,
{
    assert(a.serves(b, magnitude) && b.serves(a, magnitude));
    assert(a.amount() == b.amount());
    lemma_amount_is_bounded(a);
    lemma_amount_is_bounded(b);
    if a.zeros < b.zeros {
        lemma_ten_to_increases(a.count + a.zeros, (b.count - 1 + b.zeros) as nat);
    } else if b.zeros < a.zeros {
        lemma_ten_to_increases(b.count + b.zeros, (a.count - 1 + a.zeros) as nat);
    }
    let t = ten_to(a.zeros);
    lemma_ten_to_positive(a.zeros);
    assert(a.digits == b.digits) by (nonlinear_arith)
        requires
            a.digits * t == b.digits * t,
            t > 0,
    ;
}

/// A magnitude above zero lies between its ends.
proof fn lemma_exact_is_inside(magnitude: nat)
    requires
        magnitude > 0,
    ensures
        lower_end(magnitude) < exact(magnitude) < upper_end(magnitude),
{
    let w = five_to(1075);
    let u = units(magnitude);
    lemma_five_to_positive(1075);
    double::lemma_units_increase((magnitude - 1) as nat, magnitude);
    double::lemma_units_increase(magnitude, magnitude + 1);
    assert((units((magnitude - 1) as nat) + u) * w < (2 * u) * w < (u + units(magnitude + 1)) * w)
        by (nonlinear_arith)
        requires
            units((magnitude - 1) as nat) < u < units(magnitude + 1),
            w > 0,
    ;
}

/// The magnitude cut off after `n` digits is next below it among the numbers with `n` digits
/// that show it, and one more in the last digit is next above it.
proof fn lemma_neighbours(magnitude: nat, n: nat, j: nat, other: Decimal)
    requires
        magnitude > 0,
        n > 0,
        ten_to((n + j - 1) as nat) <= exact(magnitude) < ten_to(n + j),
        other.shows(magnitude),
        other.count == n,
    ensures
        ({
            let t = ten_to(j);
            let f = exact(magnitude) / t;
            let g = other.amount();
            &&& f * t <= exact(magnitude) < (f + 1) * t
            &&& g <= exact(magnitude) ==> g <= f * t && reads_as(f * t, magnitude)
            &&& g > exact(magnitude) ==> (f + 1) * t <= g && reads_as((f + 1) * t, magnitude)
        }),
{
    let t = ten_to(j);
    let v = exact(magnitude);
    let f = v / t;
    let g = other.amount();
    lemma_ten_to_positive(j);
    lemma_exact_is_inside(magnitude);
    lemma_fundamental_div_mod(v as int, t as int);
    assert(f * t <= v < (f + 1) * t) by (nonlinear_arith)
        requires
            v == t * f + v % t,
            0 <= v % t < t,
    ;
    lemma_amount_is_bounded(other);
    // The first power of ten not above the magnitude is one of the cut-off numbers
    let top = ten_to((n - 1) as nat);
    lemma_ten_to_adds((n - 1) as nat, j);
    assert(top <= f) by (nonlinear_arith)
        requires
            top * t <= v,
            v < (f + 1) * t,
            t > 0,
    ;
    assert(top * t <= f * t) by (nonlinear_arith)
        requires
            top <= f,
            t > 0,
    ;
    if g >= top * t {
        if other.zeros < j {
            lemma_ten_to_increases(n + other.zeros, (n - 1 + j) as nat);
        }
        let more = (other.zeros - j) as nat;
        let q = other.digits * ten_to(more);
        lemma_ten_to_adds(more, j);
        assert(g == q * t) by (nonlinear_arith)
            requires
                g == other.digits * (ten_to(more) * t),
                q == other.digits * ten_to(more),
        ;
        if g <= v {
            assert(q <= f) by (nonlinear_arith)
                requires
                    q * t < (f + 1) * t,
                    t > 0,
            ;
            assert(q * t <= f * t) by (nonlinear_arith)
                requires
                    q <= f,
                    t > 0,
            ;
        } else {
            assert(q >= f + 1) by (nonlinear_arith)
                requires
                    q * t > f * t,
                    t > 0,
            ;
            assert(q * t >= (f + 1) * t) by (nonlinear_arith)
                requires
                    q >= f + 1,
                    t > 0,
            ;
        }
    }
}

/// Where no number with fewer digits shows the magnitude, the nearer of the two next to it
/// shows it best.
proof fn lemma_nearer_is_shortest(magnitude: nat, n: nat, j: nat, number: Decimal)
    requires
        magnitude > 0,
        n > 0,
        ten_to((n + j - 1) as nat) <= exact(magnitude) < ten_to(n + j),
        forall|other: Decimal| #[trigger] other.shows(magnitude) ==> other.count >= n,
        number.shows(magnitude),
        number.count == n,
        ({
            let down = (exact(magnitude) / ten_to(j)) * ten_to(j);
            let up = (exact(magnitude) / ten_to(j) + 1) * ten_to(j);
            ||| {
                &&& number.amount() == down
                &&& reads_as(up, magnitude) ==> gap(down, magnitude) < gap(up, magnitude)
            }
            ||| {
                &&& number.amount() == up
                &&& reads_as(down, magnitude) ==> gap(up, magnitude) <= gap(down, magnitude)
            }
        }),
    ensures
        number.is_shortest(magnitude),
{
    assert forall|other: Decimal| #[trigger] other.shows(magnitude) implies number.serves(
        other,
        magnitude,
    ) by {
        if other.count == n {
            lemma_neighbours(magnitude, n, j, other);
            lemma_neighbours(magnitude, n, j, number);
        }
    }
}

/// Digits that lead with one above zero are as many as the number calls for.
proof fn lemma_digits_are_counted(digits: Seq<u8>)
    requires
        are_digits(digits),
        leads(digits),
        digits.len() > 0,
    ensures
        ten_to((digits.len() - 1) as nat) <= value(digits) < ten_to(digits.len()),
    decreases digits.len(),
{
    let rest = digits.drop_last();
    let top = digits.last();
    let t = ten_to(rest.len());
    assert(digits =~= rest.push(top));
    lemma_value_push(rest, top);
    lemma_digits_are_bounded(rest);
    lemma_ten_to_positive(rest.len());
    assert(top < 10) by {
        assert(digits[digits.len() - 1] < 10);
    }
    assert(t <= t * top && t * top + t <= 10 * t) by (nonlinear_arith)
        requires
            1 <= top <= 9,
            t > 0,
    ;
}

proof fn lemma_digits_are_bounded(digits: Seq<u8>)
    requires
        are_digits(digits),
    ensures
        value(digits) < ten_to(digits.len()),
    decreases digits.len(),
{
    if digits.len() > 0 {
        lemma_value_splits(digits);
        lemma_digits_are_bounded(digits.drop_first());
    }
}

/// The digits of the sum of two numbers.
fn added(a: &Vec<u8>, b: &Vec<u8>) -> (r: Vec<u8>)
    requires
        are_digits(a@),
        are_digits(b@),
        leads(a@),
        leads(b@),
    ensures
        value(r@) == value(a@) + value(b@),
        are_digits(r@),
        leads(r@),
{
    let n: usize = if a.len() < b.len() {
        b.len()
    } else {
        a.len()
    };
    let mut r: Vec<u8> = Vec::new();
    let mut carry: u8 = 0;
    let mut i: usize = 0;
    let ghost mut low_a: int = 0;
    let ghost mut low_b: int = 0;
    assert(a@.take(0) =~= Seq::<u8>::empty());
    assert(b@.take(0) =~= Seq::<u8>::empty());
    while i < n
        invariant
            i <= n,
            a@.len() <= n,
            b@.len() <= n,
            n == a@.len() || n == b@.len(),
            are_digits(a@),
            are_digits(b@),
            leads(a@),
            leads(b@),
            r@.len() == i,
            carry <= 1,
            are_digits(r@),
            low_a == value(a@.take(if i < a@.len() { i as int } else { a@.len() as int })),
            low_b == value(b@.take(if i < b@.len() { i as int } else { b@.len() as int })),
            low_a + low_b == value(r@) + ten_to(i as nat) * carry,
            i == n && carry == 0 ==> leads(r@),
        decreases n - i,
    {
        let da: u8 = if i < a.len() {
            a[i]
        } else {
            0
        };
        let db: u8 = if i < b.len() {
            b[i]
        } else {
            0
        };
        assert(da < 10 && db < 10) by {
            if i < a@.len() {
                assert(a@[i as int] < 10);
            }
            if i < b@.len() {
                assert(b@[i as int] < 10);
            }
        }
        let total: u8 = da + db + carry;
        let d: u8 = total % 10;
        let next: u8 = total / 10;
        proof {
            let t = ten_to(i as nat);
            assert(t * 0 == 0) by (nonlinear_arith);
            if i < a@.len() {
                assert(a@.take(i + 1) =~= a@.take(i as int).push(da));
                lemma_value_push(a@.take(i as int), da);
            }
            if i < b@.len() {
                assert(b@.take(i + 1) =~= b@.take(i as int).push(db));
                lemma_value_push(b@.take(i as int), db);
            }
            lemma_value_push(r@, d);
            assert(t * da + t * db + t * carry == t * d + (10 * t) * next) by (nonlinear_arith)
                requires
                    da + db + carry == d + 10 * next,
            ;
            low_a = low_a + t * da;
            low_b = low_b + t * db;
        }
        r.push(d);
        carry = next;
        i = i + 1;
    }
    assert(a@.take(a@.len() as int) =~= a@);
    assert(b@.take(b@.len() as int) =~= b@);
    if carry > 0 {
        proof {
            lemma_value_push(r@, carry);
        }
        r.push(carry);
    } else {
        assert(ten_to(i as nat) * 0 == 0) by (nonlinear_arith);
    }
    r
}

/// Whether a number is at most another.
fn at_most(a: &Vec<u8>, b: &Vec<u8>) -> (r: bool)
    requires
        are_digits(a@),
        are_digits(b@),
    ensures
        r == (value(a@) <= value(b@)),
{
    let n: usize = if a.len() < b.len() {
        b.len()
    } else {
        a.len()
    };
    let mut r: bool = true;
    let mut i: usize = 0;
    let ghost mut low_a: int = 0;
    let ghost mut low_b: int = 0;
    assert(a@.take(0) =~= Seq::<u8>::empty());
    assert(b@.take(0) =~= Seq::<u8>::empty());
    while i < n
        invariant
            i <= n,
            a@.len() <= n,
            b@.len() <= n,
            are_digits(a@),
            are_digits(b@),
            low_a == value(a@.take(if i < a@.len() { i as int } else { a@.len() as int })),
            low_b == value(b@.take(if i < b@.len() { i as int } else { b@.len() as int })),
            low_a < ten_to(i as nat),
            low_b < ten_to(i as nat),
            r == (low_a <= low_b),
        decreases n - i,
    {
        let da: u8 = if i < a.len() {
            a[i]
        } else {
            0
        };
        let db: u8 = if i < b.len() {
            b[i]
        } else {
            0
        };
        proof {
            let t = ten_to(i as nat);
            assert(t * 0 == 0) by (nonlinear_arith);
            if i < a@.len() {
                assert(a@[i as int] < 10);
                assert(a@.take(i + 1) =~= a@.take(i as int).push(da));
                lemma_value_push(a@.take(i as int), da);
            }
            if i < b@.len() {
                assert(b@[i as int] < 10);
                assert(b@.take(i + 1) =~= b@.take(i as int).push(db));
                lemma_value_push(b@.take(i as int), db);
            }
            assert(da < 10 && db < 10);
            assert(t * da + t <= 10 * t && t * db + t <= 10 * t) by (nonlinear_arith)
                requires
                    da <= 9,
                    db <= 9,
            ;
            assert(da < db ==> t * da + t <= t * db) by (nonlinear_arith);
            assert(db < da ==> t * db + t <= t * da) by (nonlinear_arith);
            low_a = low_a + t * da;
            low_b = low_b + t * db;
        }
        if da < db {
            r = true;
        } else if da > db {
            r = false;
        }
        i = i + 1;
    }
    assert(a@.take(a@.len() as int) =~= a@);
    assert(b@.take(b@.len() as int) =~= b@);
    r
}

/// The digits of a number followed by zeros.
fn with_zeros(digits: &Vec<u8>, zeros: usize) -> (r: Vec<u8>)
    requires
        are_digits(digits@),
    ensures
        value(r@) == value(digits@) * ten_to(zeros as nat),
        are_digits(r@),
{
    let mut r: Vec<u8> = Vec::new();
    let mut i: usize = 0;
    while i < zeros
        invariant
            i <= zeros,
            r@.len() == i,
            are_digits(r@),
            value(r@) == 0,
        decreases zeros - i,
    {
        proof {
            lemma_value_push(r@, 0);
            assert(ten_to(i as nat) * 0 == 0) by (nonlinear_arith);
        }
        r.push(0);
        i = i + 1;
    }
    let mut k: usize = 0;
    assert(digits@.take(0) =~= Seq::<u8>::empty());
    assert(0 * ten_to(zeros as nat) == 0) by (nonlinear_arith);
    while k < digits.len()
        invariant
            k <= digits@.len(),
            r@.len() == zeros + k,
            are_digits(digits@),
            are_digits(r@),
            value(r@) == value(digits@.take(k as int)) * ten_to(zeros as nat),
        decreases digits.len() - k,
    {
        proof {
            let d = digits@[k as int];
            let t = ten_to(zeros as nat);
            let w = ten_to(k as nat);
            let low = value(digits@.take(k as int));
            assert(d < 10);
            assert(digits@.take(k + 1) =~= digits@.take(k as int).push(d));
            lemma_value_push(digits@.take(k as int), d);
            lemma_value_push(r@, d);
            lemma_ten_to_adds(zeros as nat, k as nat);
            assert((low + w * d) * t == low * t + (t * w) * d) by (nonlinear_arith);
        }
        r.push(digits[k]);
        k = k + 1;
    }
    assert(digits@.take(k as int) =~= digits@);
    r
}

/// The digits of a magnitude's units, in grains.
fn grain_digits(magnitude: u64) -> (r: Vec<u8>)
    requires
        magnitude <= INFINITE,
    ensures
        value(r@) == grains(units(magnitude as nat)),
        are_digits(r@),
        leads(r@),
{
    let (significand, exponent): (u64, u32) = double::unpack(magnitude);
    let ghost s = significand as nat;
    let ghost u = units(magnitude as nat);
    let mut digits: Vec<u8> = digits_of(significand as u128);
    let mut i: u32 = 0;
    proof {
        lemma2_to64();
        assert(s * 1 == s) by (nonlinear_arith);
    }
    while i < exponent
        invariant
            i <= exponent,
            value(digits@) == s * pow2(i as nat),
            are_digits(digits@),
            leads(digits@),
        decreases exponent - i,
    {
        digits = multiple(&digits, 2);
        proof {
            lemma_pow2_unfold((i + 1) as nat);
            let w = pow2(i as nat);
            assert(2 * (s * w) == s * (2 * w)) by (nonlinear_arith);
        }
        i = i + 1;
    }
    let mut k: u32 = 0;
    assert(u * 1 == u) by (nonlinear_arith);
    while k < 1075
        invariant
            k <= 1075,
            value(digits@) == u * five_to(k as nat),
            are_digits(digits@),
            leads(digits@),
        decreases 1075 - k,
    {
        digits = multiple(&digits, 5);
        proof {
            let w = five_to(k as nat);
            assert(five_to((k + 1) as nat) == 5 * w);
            assert(5 * (u * w) == u * (5 * w)) by (nonlinear_arith);
        }
        k = k + 1;
    }
    digits
}

/// Whether a number is read as a magnitude with these ends.
fn reads(amount: &Vec<u8>, lower: &Vec<u8>, upper: &Vec<u8>, magnitude: u64) -> (r: bool)
    requires
        are_digits(amount@),
        are_digits(lower@),
        are_digits(upper@),
        value(lower@) == lower_end(magnitude as nat),
        value(upper@) == upper_end(magnitude as nat),
    ensures
        r == reads_as(value(amount@), magnitude as nat),
{
    if magnitude % 2 == 0 {
        at_most(lower, amount) && at_most(amount, upper)
    } else {
        !at_most(amount, lower) && !at_most(upper, amount)
    }
}

proof fn lemma_ten_to_factors(n: nat)
    ensures
        ten_to(n) == five_to(n) * pow2(n),
    decreases n,
{
    lemma2_to64();
    if n > 0 {
        let m = (n - 1) as nat;
        lemma_ten_to_factors(m);
        lemma_pow2_unfold(n);
        assert(10 * (five_to(m) * pow2(m)) == (5 * five_to(m)) * (2 * pow2(m)))
            by (nonlinear_arith);
        assert(ten_to(n) == 10 * ten_to(m));
        assert(five_to(n) == 5 * five_to(m));
    } else {
        assert(five_to(0) * pow2(0) == 1);
    }
}

/// What is read as a magnitude is rounded to it, as every result of the arithmetic is.
pub proof fn law_reading_is_rounding(amount: nat, magnitude: nat)
    requires
        0 < magnitude < INFINITE,
        reads_as(amount, magnitude),
    ensures
        rounding::rounded(amount * pow2(1074), ten_to(1075)) == magnitude,
{
    let p = amount * pow2(1074);
    let q = ten_to(1075);
    let w = five_to(1075);
    let lower = units((magnitude - 1) as nat) + units(magnitude);
    let upper = units(magnitude) + units(magnitude + 1);
    let b = pow2(1075);
    lemma_ten_to_positive(1075);
    lemma_ten_to_factors(1075);
    lemma_pow2_unfold(1075);
    lemma_pow2_pos(1075);
    assert(2 * p == amount * b) by (nonlinear_arith)
        requires
            p == amount * pow2(1074),
            b == 2 * pow2(1074),
    ;
    assert(lower * q == (lower * w) * b && upper * q == (upper * w) * b) by (nonlinear_arith)
        requires
            q == w * b,
    ;
    assert(lower * w <= amount ==> (lower * w) * b <= amount * b) by (nonlinear_arith)
        requires
            b > 0,
    ;
    assert(lower * w < amount ==> (lower * w) * b < amount * b) by (nonlinear_arith)
        requires
            b > 0,
    ;
    assert(amount <= upper * w ==> amount * b <= (upper * w) * b) by (nonlinear_arith)
        requires
            b > 0,
    ;
    assert(amount < upper * w ==> amount * b < (upper * w) * b) by (nonlinear_arith)
        requires
            b > 0,
    ;
    double::lemma_nearest_is_rounded(p, q, magnitude);
}

/// The number with these digits, followed by zeros.
spec fn number_of(digits: Seq<u8>, zeros: nat) -> Decimal {
    Decimal { digits: value(digits), count: digits.len(), zeros }
}

proof fn lemma_found(digits: Seq<u8>, zeros: nat, magnitude: nat)
    requires
        number_of(digits, zeros).is_shortest(magnitude),
    ensures
        number_of(digits, zeros) == shortest(magnitude),
{
    lemma_shortest_is_unique(number_of(digits, zeros), shortest(magnitude), magnitude);
}

/// Which side of a cut-off magnitude is nearer shows in the first digit that was cut off.
proof fn lemma_first_digit_decides(digits: Seq<u8>, j: nat, magnitude: nat)
    requires
        are_digits(digits),
        0 < j <= digits.len(),
        value(digits) == exact(magnitude),
    ensures
        ({
            let t = ten_to(j);
            let down = (exact(magnitude) / t) * t;
            let up = (exact(magnitude) / t + 1) * t;
            digits[j - 1] >= 5 <==> gap(up, magnitude) <= gap(down, magnitude)
        }),
{
    let t = ten_to(j);
    let v = exact(magnitude);
    let f = v / t;
    let fewer = (j - 1) as nat;
    let w = ten_to(fewer);
    let d = digits[j - 1];
    let high = digits.skip(j as int);
    let low = digits.take(fewer as int);
    lemma_ten_to_positive(fewer);
    lemma_digits_part(digits, j);
    lemma_value_of_parts(digits, j);
    lemma_value_of_parts(digits.take(j as int), fewer);
    assert(digits.take(j as int).take(fewer as int) =~= low);
    assert(digits.take(j as int).skip(fewer as int) =~= seq![d]);
    assert(value(seq![d]) == d) by {
        assert(seq![d].drop_first() =~= Seq::<u8>::empty());
        reveal_with_fuel(value, 2);
    }
    lemma_digits_are_bounded(low);
    assert(f * t == t * f && (f + 1) * t == t * f + t) by (nonlinear_arith);
    let rest = value(low) + w * d;
    assert(v == rest + t * f);
    assert(d >= 5 ==> w * d >= 5 * w) by (nonlinear_arith);
    assert(d < 5 ==> w * d + w <= 5 * w) by (nonlinear_arith);
    assert(w * d + w <= 10 * w) by (nonlinear_arith)
        requires
            d <= 9,
    ;
}

proof fn lemma_value_of_parts(digits: Seq<u8>, count: nat)
    requires
        count <= digits.len(),
        are_digits(digits),
    ensures
        value(digits) == value(digits.take(count as int)) + ten_to(count) * value(
            digits.skip(count as int),
        ),
        are_digits(digits.take(count as int)),
        are_digits(digits.skip(count as int)),
    decreases digits.len() - count,
{
    let high = digits.skip(count as int);
    if count == digits.len() {
        assert(digits.take(count as int) =~= digits);
        assert(ten_to(count) * 0 == 0) by (nonlinear_arith);
    } else {
        let d = digits[count as int];
        let t = ten_to(count);
        lemma_value_of_parts(digits, count + 1);
        assert(digits.take(count as int + 1) =~= digits.take(count as int).push(d));
        lemma_value_push(digits.take(count as int), d);
        assert(high.drop_first() =~= digits.skip(count as int + 1));
        let rest = value(digits.skip(count as int + 1));
        assert(t * d + (10 * t) * rest == t * (d + 10 * rest)) by (nonlinear_arith);
        assert(are_digits(digits.take(count as int))) by {
            assert forall|i: int| 0 <= i < count implies #[trigger] digits.take(count as int)[i]
                < 10 by {
                assert(digits[i] < 10);
            }
        }
    }
    assert forall|i: int| 0 <= i < high.len() implies #[trigger] high[i] < 10 by {
        assert(digits[count + i] < 10);
    }
}

/// The digits, the lowest first, and the zeros of the number that shows a magnitude best.
fn find_shortest(magnitude: u64) -> (r: (Vec<u8>, usize))
    requires
        0 < magnitude < INFINITE,
    ensures
        r.0@.len() > 0,
        are_digits(r.0@),
        leads(r.0@),
        number_of(r.0@, r.1 as nat) == shortest(magnitude as nat),
        number_of(r.0@, r.1 as nat).counted(),
        r.0@.len() - 1 + r.1 <= usize::MAX,
{
    let ghost m = magnitude as nat;
    let below: Vec<u8> = grain_digits(magnitude - 1);
    let here: Vec<u8> = grain_digits(magnitude);
    let above: Vec<u8> = grain_digits(magnitude + 1);
    let lower: Vec<u8> = added(&below, &here);
    let upper: Vec<u8> = added(&here, &above);
    let all: Vec<u8> = multiple(&here, 2);
    proof {
        let w = five_to(1075);
        let a = units((m - 1) as nat);
        let b = units(m);
        let c = units(m + 1);
        assert(a * w + b * w == (a + b) * w) by (nonlinear_arith);
        assert(b * w + c * w == (b + c) * w) by (nonlinear_arith);
        assert(2 * (b * w) == (2 * b) * w) by (nonlinear_arith);
        lemma_exact_is_inside(m);
        assert(all@.len() > 0);
        lemma_digits_are_counted(all@);
    }
    let total: usize = all.len();
    let mut one: Vec<u8> = Vec::new();
    one.push(1);
    assert(value(one@) == 1) by {
        assert(one@.drop_first() =~= Seq::<u8>::empty());
        reveal_with_fuel(value, 2);
    }
    let mut n: usize = 1;
    while n < total
        invariant
            0 < magnitude < INFINITE,
            m == magnitude,
            1 <= n <= total,
            total == all@.len(),
            are_digits(all@),
            leads(all@),
            are_digits(lower@),
            are_digits(upper@),
            are_digits(one@),
            leads(one@),
            value(one@) == 1,
            value(all@) == exact(m),
            value(lower@) == lower_end(m),
            value(upper@) == upper_end(m),
            ten_to((total - 1) as nat) <= exact(m) < ten_to(total as nat),
            forall|other: Decimal| #[trigger] other.shows(m) ==> other.count >= n,
        decreases total - n,
    {
        let j: usize = total - n;
        let mut kept: Vec<u8> = Vec::new();
        let mut i: usize = j;
        while i < total
            invariant
                j <= i <= total,
                total == all@.len(),
                kept@ == all@.subrange(j as int, i as int),
            decreases total - i,
        {
            kept.push(all[i]);
            assert(kept@ =~= all@.subrange(j as int, i + 1));
            i = i + 1;
        }
        let ghost t = ten_to(j as nat);
        let ghost f = exact(m) / t;
        proof {
            assert(kept@ =~= all@.skip(j as int));
            lemma_digits_part(all@, j as nat);
            lemma_value_of_parts(all@, j as nat);
            assert(value(kept@) == f);
            lemma_digits_are_counted(kept@);
        }
        let down: Vec<u8> = with_zeros(&kept, j);
        let more: Vec<u8> = added(&kept, &one);
        let up: Vec<u8> = with_zeros(&more, j);
        let fits_down: bool = reads(&down, &lower, &upper, magnitude);
        let fits_up: bool = reads(&up, &lower, &upper, magnitude);
        proof {
            lemma_first_digit_decides(all@, j as nat, m);
        }
        if fits_down && !(fits_up && all[j - 1] >= 5) {
            proof {
                let number = number_of(kept@, j as nat);
                assert(number.shows(m));
                lemma_nearer_is_shortest(m, n as nat, j as nat, number);
                lemma_found(kept@, j as nat, m);
            }
            return (kept, j);
        }
        if fits_up {
            proof {
                assert(more@.len() > 0);
                lemma_digits_are_counted(more@);
                lemma_count_of_next(more@, n as nat);
            }
            if more.len() == n {
                proof {
                    let number = number_of(more@, j as nat);
                    assert(number.shows(m));
                    lemma_nearer_is_shortest(m, n as nat, j as nat, number);
                    lemma_found(more@, j as nat, m);
                }
                return (more, j);
            }
            let mut fewer: Vec<u8> = more;
            let _ = fewer.remove(0);
            proof {
                let number = number_of(fewer@, (j + 1) as nat);
                assert(fewer@ =~= more@.drop_first());
                lemma_value_splits(more@);
                assert(fewer@.last() == more@.last());
                assert(ten_to((n as nat + 1) as nat) == 10 * ten_to(n as nat));
                assert(ten_to(n as nat) == 10 * ten_to((n - 1) as nat));
                assert(ten_to((j + 1) as nat) == 10 * t);
                assert(number.digits * (10 * t) == (10 * number.digits) * t) by (nonlinear_arith);
                assert(number.amount() == value(up@));
                assert(number.shows(m));
                lemma_nearer_is_shortest(m, n as nat, j as nat, number);
                lemma_found(fewer@, (j + 1) as nat, m);
            }
            return (fewer, j + 1);
        }
        proof {
            assert forall|other: Decimal| #[trigger] other.shows(m) implies other.count >= n
                + 1 by {
                if other.count == n {
                    lemma_neighbours(m, n as nat, j as nat, other);
                }
            }
        }
        n = n + 1;
    }
    proof {
        let number = number_of(all@, 0);
        let v = exact(m);
        assert(ten_to(0) == 1);
        assert(v * 1 == v && v / 1 == v) by (nonlinear_arith);
        assert((v + 1) * 1 == v + 1) by (nonlinear_arith);
        assert(number.amount() == v);
        assert(number.shows(m));
        lemma_nearer_is_shortest(m, total as nat, 0, number);
        lemma_found(all@, 0, m);
    }
    (all, 0)
}

/// A number one above one with `n` digits has `n` digits, or it is the first with more.
proof fn lemma_count_of_next(digits: Seq<u8>, n: nat)
    requires
        n > 0,
        digits.len() > 0,
        ten_to((digits.len() - 1) as nat) <= value(digits) < ten_to(digits.len()),
        ten_to((n - 1) as nat) < value(digits) <= ten_to(n),
    ensures
        digits.len() == n || (digits.len() == n + 1 && value(digits) == ten_to(n)),
{
    if digits.len() < n {
        lemma_ten_to_increases(digits.len(), (n - 1) as nat);
    } else if digits.len() > n + 1 {
        lemma_ten_to_increases(n + 1, (digits.len() - 1) as nat);
        lemma_ten_to_positive(n);
        assert(ten_to(n + 1) == 10 * ten_to(n));
    }
}

/// `n` zeros.
pub open spec fn zeros_text(n: nat) -> Seq<char> {
    Seq::new(n, |i: int| '0')
}

/// A whole number, with its sign where it is negative.
pub open spec fn integer_text(n: int) -> Seq<char> {
    if n < 0 {
        "-"@ + text::numeral((-n) as nat)
    } else {
        text::numeral(n as nat)
    }
}

/// A number as it is written: with a point and at least one digit on either side of it, or,
/// from ten to the power 16 on and below ten to the power -4, with an exponent.
pub open spec fn decimal_text(number: Decimal) -> Seq<char> {
    let digits = text::numeral(number.digits);
    let exponent = number.count + number.zeros - 1 - 1075;
    if exponent >= 16 || exponent < -4 {
        let mantissa = if number.count == 1 {
            digits
        } else {
            digits.take(1) + "."@ + digits.skip(1)
        };
        mantissa + "e"@ + integer_text(exponent)
    } else if exponent < 0 {
        "0."@ + zeros_text((-exponent - 1) as nat) + digits
    } else if number.count <= exponent + 1 {
        digits + zeros_text((exponent + 1 - number.count) as nat) + ".0"@
    } else {
        digits.take(exponent + 1) + "."@ + digits.skip(exponent + 1)
    }
}

/// A value in the fewest digits that tell it from its neighbours.
pub open spec fn shortest_text(x: Double) -> Seq<char> {
    let sign = if x.negative() {
        "-"@
    } else {
        ""@
    };
    if x.undefined() {
        "NaN"@
    } else if x.infinite() {
        sign + "inf"@
    } else if x.magnitude() == 0 {
        sign + "0.0"@
    } else {
        sign + decimal_text(shortest(x.magnitude()))
    }
}

proof fn lemma_places(n: nat)
    ensures
        text::places(n) == ten_to(n),
    decreases n,
{
    if n > 0 {
        lemma_places((n - 1) as nat);
    }
}

proof fn lemma_zeros_read(n: nat)
    ensures
        text::reading(zeros_text(n)) == 0,
    decreases n,
{
    if n > 0 {
        assert(zeros_text(n).drop_last() =~= zeros_text((n - 1) as nat));
        lemma_zeros_read((n - 1) as nat);
    }
}

proof fn lemma_numeral_length(n: nat, count: nat)
    requires
        count > 0,
        n < ten_to(count),
        count > 1 ==> n >= ten_to((count - 1) as nat),
    ensures
        text::numeral(n).len() == count,
    decreases count,
{
    if count > 1 {
        let less = (count - 1) as nat;
        lemma_ten_to_positive(less);
        if less > 1 {
            assert(ten_to(less) == 10 * ten_to((less - 1) as nat));
        } else {
            assert(ten_to(1) == 10 * ten_to(0));
        }
        assert(n >= 10);
        lemma_numeral_length(n / 10, less);
    } else {
        assert(ten_to(1) == 10 * ten_to(0));
    }
}

/// A number that is written without an exponent has a point with digits on either side, and
/// what is read off the digits, with as many places behind the point, is the number.
pub proof fn law_plain_text_reads_back(number: Decimal)
    requires
        number.counted(),
        1071 <= number.count + number.zeros - 1 < 1091,
    ensures
        ({
            let shown = decimal_text(number);
            let exponent = number.count + number.zeros - 1 - 1075;
            let point = if exponent < 0 {
                1
            } else {
                exponent + 1
            };
            let places = shown.len() - point - 1;
            &&& 1 <= places <= 1075
            &&& shown[point] == '.'
            &&& text::reading(shown.take(point) + shown.skip(point + 1)) * ten_to(
                (1075 - places) as nat,
            ) == number.amount()
        }),
{
    reveal_strlit("0.");
    reveal_strlit(".0");
    reveal_strlit(".");
    let digits = text::numeral(number.digits);
    let shown = decimal_text(number);
    let exponent = number.count + number.zeros - 1 - 1075;
    text::law_numeral_reads_back(number.digits);
    if number.count > 1 {
        lemma_numeral_length(number.digits, number.count);
    } else {
        lemma_numeral_length(number.digits, 1);
    }
    if exponent < 0 {
        let padding = (-exponent - 1) as nat;
        let row = zeros_text(padding + 1);
        lemma_zeros_read(padding + 1);
        text::lemma_rows_read_on(row, digits);
        assert(shown.take(1) + shown.skip(2) =~= row + digits);
        let t = text::places(digits.len());
        assert(0 * t == 0) by (nonlinear_arith);
    } else if number.count <= exponent + 1 {
        let padding = (exponent + 1 - number.count) as nat;
        let row = zeros_text(padding + 1);
        lemma_zeros_read(padding + 1);
        text::lemma_rows_read_on(digits, row);
        lemma_places(padding + 1);
        assert(shown.take(exponent + 1) + shown.skip(exponent + 2) =~= digits + row);
        lemma_ten_to_adds(padding + 1, 1074);
        let (d, a, b) = (number.digits, ten_to(padding + 1), ten_to(1074));
        assert((d * a) * b == d * (a * b)) by (nonlinear_arith);
    } else {
        assert(shown.take(exponent + 1) + shown.skip(exponent + 2) =~= digits);
    }
}

fn add_zeros(out: &mut String, n: usize)
    ensures
        final(out)@ == old(out)@ + zeros_text(n as nat),
{
    let mut i: usize = 0;
    assert(out@ =~= old(out)@ + zeros_text(0));
    while i < n
        invariant
            i <= n,
            out@ == old(out)@ + zeros_text(i as nat),
        decreases n - i,
    {
        proof {
            reveal_strlit("0");
        }
        out.append("0");
        i = i + 1;
        assert(out@ =~= old(out)@ + zeros_text(i as nat));
    }
}

/// Writes the digits, with a point after the first `whole` of them.
fn with_point(digits: &Vec<u8>, whole: usize) -> (r: String)
    requires
        whole <= digits@.len(),
        are_digits(digits@),
        leads(digits@),
        digits@.len() > 0,
    ensures
        r@ == text::numeral(value(digits@)).take(whole as int) + "."@ + text::numeral(
            value(digits@),
        ).skip(whole as int),
{
    let n: usize = digits.len();
    proof {
        lemma_shown_is_numeral(digits@);
        let all = shown(digits@);
        assert(all.take(whole as int) =~= shown(digits@.subrange(n - whole, n as int)));
        assert(all.skip(whole as int) =~= shown(digits@.subrange(0, n - whole)));
    }
    let mut out: String = String::new();
    show(&mut out, digits, n - whole, n);
    assert(out@ =~= shown(digits@.subrange(n - whole, n as int)));
    out.append(".");
    show(&mut out, digits, 0, n - whole);
    out
}

/// Writes the digits.
fn all_digits(digits: &Vec<u8>) -> (r: String)
    requires
        are_digits(digits@),
        leads(digits@),
        digits@.len() > 0,
    ensures
        r@ == text::numeral(value(digits@)),
{
    proof {
        lemma_shown_is_numeral(digits@);
        assert(digits@.subrange(0, digits@.len() as int) =~= digits@);
    }
    let mut out: String = String::new();
    show(&mut out, digits, 0, digits.len());
    assert(out@ =~= shown(digits@));
    out
}

/// Writes the number with these digits, followed by zeros.
fn write_decimal(digits: &Vec<u8>, zeros: usize) -> (r: String)
    requires
        are_digits(digits@),
        leads(digits@),
        digits@.len() > 0,
        digits@.len() - 1 + zeros <= usize::MAX,
    ensures
        r@ == decimal_text(number_of(digits@, zeros as nat)),
{
    let count: usize = digits.len();
    // The place of the first digit, counted from the last grain
    let place: u64 = (count - 1 + zeros) as u64;
    if place >= 1091 || place < 1071 {
        let mut out: String = if count == 1 {
            all_digits(digits)
        } else {
            with_point(digits, 1)
        };
        out.append("e");
        if place < 1075 {
            out.append("-".to_owned().concat(text::decimal(1075 - place).as_str()).as_str());
        } else {
            out.append(text::decimal(place - 1075).as_str());
        }
        out
    } else if place < 1075 {
        let mut out: String = "0.".to_owned();
        add_zeros(&mut out, (1074 - place) as usize);
        out.append(all_digits(digits).as_str());
        out
    } else {
        let whole: usize = (place - 1074) as usize;
        if count <= whole {
            let mut out: String = all_digits(digits);
            add_zeros(&mut out, whole - count);
            out.append(".0");
            out
        } else {
            with_point(digits, whole)
        }
    }
}

/// Writes a value in the fewest digits that tell it from its neighbours.
pub fn shortest_decimal(x: Double) -> (r: String)
    ensures
        r@ == shortest_text(x),
{
    if x.is_nan() {
        return "NaN".to_owned();
    }
    let mut out: String = if x.bits >= SIGN_BIT {
        "-".to_owned()
    } else {
        "".to_owned()
    };
    let magnitude: u64 = x.bits % SIGN_BIT;
    if magnitude == INFINITE {
        out.append("inf");
    } else if magnitude == 0 {
        out.append("0.0");
    } else {
        let (digits, zeros): (Vec<u8>, usize) = find_shortest(magnitude);
        out.append(write_decimal(&digits, zeros).as_str());
    }
    out
}

} // verus!
