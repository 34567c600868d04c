//! JSON numbers, held as exact decimals.
//!
//! A number is a sign, a sequence of significant decimal digits and a power
//! of ten: `digits × 10^exponent`. Turning such a value into a binary
//! floating-point number is left to the caller.

use vstd::prelude::*;
use crate::text::{digit_char, digit_to_char};

verus! {

/// The largest magnitude that the power of ten of a number may have.
pub const EXPONENT_LIMIT: i64 = 1024;

/// The mathematical content of a number: `digits`, read as a decimal
/// numeral, times ten to the power `exponent`, negated where `negative`.
pub ghost struct Decimal {
    pub negative: bool,
    pub digits: Seq<u8>,
    pub exponent: int,
}

/// The index of the first non-zero digit at or after `from` (the length where
/// there is none).
pub open spec fn first_nonzero(digits: Seq<u8>, from: int) -> int
    decreases digits.len() - from,
{
    if 0 <= from < digits.len() && digits[from] == 0 {
        first_nonzero(digits, from + 1)
    } else {
        from
    }
}

/// The index just after the last non-zero digit before `to` (zero where there
/// is none).
pub open spec fn significant_end(digits: Seq<u8>, to: int) -> int
    decreases to,
{
    if 0 < to <= digits.len() && digits[to - 1] == 0 {
        significant_end(digits, to - 1)
    } else {
        to
    }
}

/// `count` characters `'0'`.
pub open spec fn zeros(count: int) -> Seq<char> {
    Seq::new(
        if count >= 0 {
            count as nat
        } else {
            0
        },
        |i: int| '0',
    )
}

/// The characters that write `digits`.
pub open spec fn digit_chars(digits: Seq<u8>) -> Seq<char> {
    Seq::new(digits.len(), |i: int| digit_char(digits[i] as int))
}

impl Decimal {
    /// The number zero.
    pub open spec fn zero() -> Decimal {
        Decimal { negative: false, digits: Seq::empty(), exponent: 0 }
    }

    /// The decimal with the value `(-1)^negative × digits × 10^shift`, its
    /// leading and trailing zero digits removed. Zero carries no sign.
    pub open spec fn normalized(negative: bool, digits: Seq<u8>, shift: int) -> Decimal {
        let start = first_nonzero(digits, 0);
        let end = significant_end(digits, digits.len() as int);
        if start >= digits.len() {
            Decimal::zero()
        } else {
            Decimal {
                negative,
                digits: digits.subrange(start, end),
                exponent: shift + (digits.len() - end),
            }
        }
    }

    /// Every digit is below ten, the first and the last digit are not zero,
    /// zero is written with no digit, no sign and no power, and the power of
    /// ten is within the limit.
    pub open spec fn canonical(self) -> bool {
        &&& forall|i: int| 0 <= i < self.digits.len() ==> #[trigger] self.digits[i] <= 9
        &&& self.digits.len() == 0 ==> !self.negative && self.exponent == 0
        &&& self.digits.len() > 0 ==> self.digits[0] != 0 && self.digits[self.digits.len() - 1]
            != 0
        &&& -EXPONENT_LIMIT <= self.exponent <= EXPONENT_LIMIT
    }

    /// Whether the number has no fractional part.
    pub open spec fn is_integer(self) -> bool {
        self.exponent >= 0
    }

    /// The unsigned numeral: an integer literal where the number has no
    /// fractional part, else the integer part (at least `0`), a point and
    /// the fractional digits.
    pub open spec fn magnitude_text(self) -> Seq<char> {
        let n = self.digits.len() as int;
        if self.exponent >= 0 {
            digit_chars(self.digits) + zeros(self.exponent)
        } else if n > -self.exponent {
            digit_chars(self.digits.subrange(0, n + self.exponent)) + seq!['.'] + digit_chars(
                self.digits.subrange(n + self.exponent, n),
            )
        } else {
            seq!['0', '.'] + zeros(-self.exponent - n) + digit_chars(self.digits)
        }
    }

    /// The literal that writes the number.
    pub open spec fn render(self) -> Seq<char> {
        if self.digits.len() == 0 {
            seq!['0']
        } else if self.negative {
            seq!['-'] + self.magnitude_text()
        } else {
            self.magnitude_text()
        }
    }
}

/// A JSON number.
#[derive(Debug, Clone, PartialEq, Eq)]
pub struct JsonNumber {
    negative: bool,
    digits: Vec<u8>,
    exponent: i64,
}

impl View for JsonNumber {
    type V = Decimal;

    closed spec fn view(&self) -> Decimal {
        Decimal { negative: self.negative, digits: self.digits@, exponent: self.exponent as int }
    }
}

pub proof fn lemma_first_nonzero(digits: Seq<u8>, from: int)
    requires
        0 <= from <= digits.len(),
    ensures
        from <= first_nonzero(digits, from) <= digits.len(),
        forall|i: int| from <= i < first_nonzero(digits, from) ==> digits[i] == 0,
        first_nonzero(digits, from) < digits.len() ==> digits[first_nonzero(digits, from)] != 0,
    decreases digits.len() - from,
{
    if from < digits.len() && digits[from] == 0 {
        lemma_first_nonzero(digits, from + 1);
    }
}

pub proof fn lemma_significant_end(digits: Seq<u8>, to: int)
    requires
        0 <= to <= digits.len(),
    ensures
        0 <= significant_end(digits, to) <= to,
        forall|i: int| significant_end(digits, to) <= i < to ==> digits[i] == 0,
        significant_end(digits, to) > 0 ==> digits[significant_end(digits, to) - 1] != 0,
    decreases to,
{
    if 0 < to && digits[to - 1] == 0 {
        lemma_significant_end(digits, to - 1);
    }
}

/// Normalizing yields a canonical decimal, but for the limit on the power.
pub proof fn lemma_normalized_shape(negative: bool, digits: Seq<u8>, shift: int)
    requires
        forall|i: int| 0 <= i < digits.len() ==> #[trigger] digits[i] <= 9,
    ensures
        ({
            let d = Decimal::normalized(negative, digits, shift);
            &&& forall|i: int| 0 <= i < d.digits.len() ==> #[trigger] d.digits[i] <= 9
            &&& d.digits.len() == 0 ==> d == Decimal::zero()
            &&& d.digits.len() > 0 ==> d.digits[0] != 0 && d.digits[d.digits.len() - 1] != 0
            &&& d.digits.len() > 0 ==> shift <= d.exponent <= shift + digits.len()
            &&& (-EXPONENT_LIMIT <= d.exponent <= EXPONENT_LIMIT) ==> d.canonical()
        }),
{
    lemma_first_nonzero(digits, 0);
    lemma_significant_end(digits, digits.len() as int);
    let start = first_nonzero(digits, 0);
    let end = significant_end(digits, digits.len() as int);
    if start < digits.len() {
        assert(end > start) by {
            if end <= start {
                assert(digits[start] == 0);
            }
        }
    }
}

impl JsonNumber {
    /// The invariant of the type: the decimal is canonical.
    pub open spec fn wf(&self) -> bool {
        self@.canonical()
    }

    /// The number zero.
    pub fn zero() -> (n: JsonNumber)
        ensures
            n@ == Decimal::zero(),
            n.wf(),
    {
        JsonNumber { negative: false, digits: Vec::new(), exponent: 0 }
    }

    /// The number `(-1)^negative × digits × 10^shift`, or nothing where its
    /// normal form has a power of ten beyond the limit.
    pub fn from_digits(negative: bool, digits: &Vec<u8>, shift: i128) -> (r: Option<JsonNumber>)
        requires
            forall|i: int| 0 <= i < digits.len() ==> #[trigger] digits[i] <= 9,
            -0x4000_0000_0000_0000_0000_0000_0000 <= shift <= 0x4000_0000_0000_0000_0000_0000_0000,
        ensures
            ({
                let d = Decimal::normalized(negative, digits@, shift as int);
                match r {
                    Some(n) => n@ == d && n.wf(),
                    None => !(-EXPONENT_LIMIT <= d.exponent <= EXPONENT_LIMIT),
                }
            }),
    {
        let len = digits.len();
        let mut start: usize = 0;
        while start < len && digits[start] == 0
            invariant
                start <= len,
                len == digits.len(),
                first_nonzero(digits@, 0) == first_nonzero(digits@, start as int),
            decreases len - start,
        {
            start += 1;
        }
        proof {
            lemma_normalized_shape(negative, digits@, shift as int);
        }
        if start >= len {
            return Some(JsonNumber::zero());
        }
        let mut end: usize = len;
        while end > 0 && digits[end - 1] == 0
            invariant
                end <= len,
                len == digits.len(),
                significant_end(digits@, len as int) == significant_end(digits@, end as int),
            decreases end,
        {
            end -= 1;
        }
        proof {
            lemma_first_nonzero(digits@, 0);
            lemma_significant_end(digits@, len as int);
        }
        let exponent: i128 = shift + (len - end) as i128;
        if exponent < -(EXPONENT_LIMIT as i128) || exponent > EXPONENT_LIMIT as i128 {
            return None;
        }
        let mut kept: Vec<u8> = Vec::new();
        let mut i: usize = start;
        while i < end
            invariant
                start <= i <= end <= len,
                len == digits.len(),
                kept@ == digits@.subrange(start as int, i as int),
            decreases end - i,
        {
            kept.push(digits[i]);
            proof {
                assert(kept@ =~= digits@.subrange(start as int, i as int + 1));
            }
            i += 1;
        }
        Some(JsonNumber { negative, digits: kept, exponent: exponent as i64 })
    }

    /// A copy of the number.
    pub fn duplicate(&self) -> (copy: JsonNumber)
        ensures
            copy@ == self@,
    {
        let mut digits: Vec<u8> = Vec::new();
        let mut i: usize = 0;
        while i < self.digits.len()
            invariant
                i <= self.digits.len(),
                digits@ == self.digits@.take(i as int),
            decreases self.digits.len() - i,
        {
            digits.push(self.digits[i]);
            proof {
                assert(digits@ =~= self.digits@.take(i as int + 1));
            }
            i += 1;
        }
        proof {
            assert(self.digits@.take(self.digits@.len() as int) =~= self.digits@);
        }
        JsonNumber { negative: self.negative, digits, exponent: self.exponent }
    }

    /// Whether the number is below zero.
    pub fn is_negative(&self) -> (b: bool)
        ensures
            b == self@.negative,
    {
        self.negative
    }

    /// The significant digits, most significant first.
    pub fn digits(&self) -> (d: &Vec<u8>)
        ensures
            d@ == self@.digits,
    {
        &self.digits
    }

    /// The power of ten that the digits are multiplied by.
    pub fn exponent(&self) -> (e: i64)
        ensures
            e == self@.exponent,
    {
        self.exponent
    }

    /// Whether the number has no fractional part.
    pub fn is_integer(&self) -> (b: bool)
        ensures
            b == self@.is_integer(),
    {
        self.exponent >= 0
    }

    /// Appends the literal that writes the number to `out`.
    pub fn render_into(&self, out: &mut Vec<char>)
        ensures
            final(out)@ == old(out)@ + self@.render(),
    {
        let n = self.digits.len();
        if n == 0 {
            out.push('0');
            proof {
                assert(out@ =~= old(out)@ + self@.render());
            }
            return ;
        }
        if self.negative {
            out.push('-');
        }
        let ghost base = out@;
        if self.exponent >= 0 {
            push_digits(out, &self.digits, 0, n);
            push_zeros(out, self.exponent as u64);
            proof {
                assert(self.digits@.subrange(0, n as int) =~= self.digits@);
                assert(out@ =~= base + self@.magnitude_text());
            }
        } else {
            let k: u64 = (-(self.exponent as i128)) as u64;
            if n as u64 > k {
                let split: usize = n - k as usize;
                push_digits(out, &self.digits, 0, split);
                out.push('.');
                push_digits(out, &self.digits, split, n);
                proof {
                    assert(out@ =~= base + self@.magnitude_text());
                }
            } else {
                out.push('0');
                out.push('.');
                push_zeros(out, k - n as u64);
                push_digits(out, &self.digits, 0, n);
                proof {
                    assert(self.digits@.subrange(0, n as int) =~= self.digits@);
                    assert(out@ =~= base + self@.magnitude_text());
                }
            }
        }
        proof {
            if self.negative {
                assert(out@ =~= old(out)@ + (seq!['-'] + self@.magnitude_text()));
            }
        }
    }

    /// The literal that writes the number.
    pub fn render(&self) -> (text: String)
        ensures
            text@ == self@.render(),
    {
        let mut out: Vec<char> = Vec::new();
        self.render_into(&mut out);
        proof {
            assert(Seq::<char>::empty() + self@.render() =~= self@.render());
        }
        crate::text::text_of(&out)
    }
}

fn push_digits(out: &mut Vec<char>, digits: &Vec<u8>, from: usize, to: usize)
    requires
        from <= to <= digits.len(),
    ensures
        final(out)@ == old(out)@ + digit_chars(digits@.subrange(from as int, to as int)),
{
    let mut i: usize = from;
    while i < to
        invariant
            from <= i <= to <= digits.len(),
            out@ == old(out)@ + digit_chars(digits@.subrange(from as int, i as int)),
        decreases to - i,
    {
        out.push(digit_to_char(digits[i]));
        proof {
            assert(out@ =~= old(out)@ + digit_chars(digits@.subrange(from as int, i as int + 1)));
        }
        i += 1;
    }
}

fn push_zeros(out: &mut Vec<char>, count: u64)
    ensures
        final(out)@ == old(out)@ + zeros(count as int),
{
    let mut i: u64 = 0;
    proof {
        assert(out@ =~= old(out)@ + zeros(0));
    }
    while i < count
        invariant
            i <= count,
            out@ == old(out)@ + zeros(i as int),
        decreases count - i,
    {
        out.push('0');
        proof {
            assert(out@ =~= old(out)@ + zeros(i as int + 1));
        }
        i += 1;
    }
}

/// The digits of the decimal numeral of `n`; none for zero.
pub open spec fn decimal_digits(n: nat) -> Seq<u8>
    decreases n,
{
    if n == 0 {
        Seq::empty()
    } else {
        decimal_digits(n / 10).push((n % 10) as u8)
    }
}

/// Ten to the power `k`.
pub open spec fn pow10(k: nat) -> nat
    decreases k,
{
    if k == 0 {
        1
    } else {
        10 * pow10((k - 1) as nat)
    }
}

/// Ten to the power twenty, which is above every number of sixty-four
/// bits.
proof fn lemma_pow10_twenty()
    ensures
        pow10(20) == 100000000000000000000,
{
    assert(pow10(0) == 1);
    assert(pow10(1) == 10);
    assert(pow10(2) == 100);
    assert(pow10(3) == 1000);
    assert(pow10(4) == 10000);
    assert(pow10(5) == 100000);
    assert(pow10(6) == 1000000);
    assert(pow10(7) == 10000000);
    assert(pow10(8) == 100000000);
    assert(pow10(9) == 1000000000);
    assert(pow10(10) == 10000000000);
    assert(pow10(11) == 100000000000);
    assert(pow10(12) == 1000000000000);
    assert(pow10(13) == 10000000000000);
    assert(pow10(14) == 100000000000000);
    assert(pow10(15) == 1000000000000000);
    assert(pow10(16) == 10000000000000000);
    assert(pow10(17) == 100000000000000000);
    assert(pow10(18) == 1000000000000000000);
    assert(pow10(19) == 10000000000000000000);
    assert(pow10(20) == 100000000000000000000);
}

/// A number below ten to the power `k` has at most `k` digits, each below
/// ten.
proof fn lemma_decimal_digits(n: nat, k: nat)
    requires
        n < pow10(k),
    ensures
        decimal_digits(n).len() <= k,
        forall|i: int| 0 <= i < decimal_digits(n).len() ==> #[trigger] decimal_digits(n)[i] <= 9,
    decreases n,
{
    if n > 0 {
        lemma_decimal_digits(n / 10, (k - 1) as nat);
    }
}

/// The digits of the decimal numeral of `n`.
fn digits_of(n: u64) -> (digits: Vec<u8>)
    ensures
        digits@ == decimal_digits(n as nat),
    decreases n,
{
    if n == 0 {
        Vec::new()
    } else {
        let mut digits = digits_of(n / 10);
        digits.push((n % 10) as u8);
        digits
    }
}

impl JsonNumber {
    /// The integer `n`.
    pub fn from_u64(n: u64) -> (number: JsonNumber)
        ensures
            number.wf(),
            number@ == Decimal::normalized(false, decimal_digits(n as nat), 0),
    {
        let digits = digits_of(n);
        proof {
            lemma_pow10_twenty();
            lemma_decimal_digits(n as nat, 20);
            lemma_normalized_shape(false, digits@, 0);
        }
        match JsonNumber::from_digits(false, &digits, 0) {
            Some(number) => number,
            None => JsonNumber::zero(),
        }
    }

    /// The integer `n`.
    pub fn from_i64(n: i64) -> (number: JsonNumber)
        ensures
            number.wf(),
            number@ == Decimal::normalized(
                n < 0,
                decimal_digits(
                    (if n < 0 {
                        -n
                    } else {
                        n as int
                    }) as nat,
                ),
                0,
            ),
    {
        let magnitude: u64 = if n < 0 {
            (-(n as i128)) as u64
        } else {
            n as u64
        };
        let digits = digits_of(magnitude);
        proof {
            lemma_pow10_twenty();
            lemma_decimal_digits(magnitude as nat, 20);
            lemma_normalized_shape(n < 0, digits@, 0);
        }
        match JsonNumber::from_digits(n < 0, &digits, 0) {
            Some(number) => number,
            None => JsonNumber::zero(),
        }
    }
}

} // verus!
