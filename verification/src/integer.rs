//! Decimal text of integers, and the integer types that the encoder accepts.
use vstd::prelude::*;

verus! {

/// The decimal digits of `n` in ASCII, most significant first, without
/// leading zeros.
pub open spec fn digits(n: nat) -> Seq<u8>
    decreases n,
{
    if n < 10 {
        seq![(48 + n) as u8]
    } else {
        digits(n / 10).push((48 + n % 10) as u8)
    }
}

/// The decimal text of `v`: a minus sign for a negative number, then the
/// digits of its magnitude.
pub open spec fn decimal(v: int) -> Seq<u8> {
    if v < 0 {
        seq![45u8] + digits((-v) as nat)
    } else {
        digits(v as nat)
    }
}

/// Whether `b` is an ASCII digit.
pub open spec fn is_digit(b: u8) -> bool {
    48 <= b <= 57
}

/// Whether `s` holds digits only.
pub open spec fn all_digits(s: Seq<u8>) -> bool {
    forall|i: int| 0 <= i < s.len() ==> is_digit(#[trigger] s[i])
}

/// Whether `text` is the text of a decimal integer: an optional minus sign,
/// then at least one digit and nothing else.
pub open spec fn is_decimal(text: Seq<u8>) -> bool {
    if text.len() > 0 && text[0] == 45 {
        text.len() > 1 && all_digits(text.skip(1))
    } else {
        text.len() > 0 && all_digits(text)
    }
}

/// The digits of a number are at least one, and all of them are digits.
pub proof fn lemma_digits_are_digits(n: nat)
    ensures
        digits(n).len() > 0,
        all_digits(digits(n)),
    decreases n,
{
    if n >= 10 {
        lemma_digits_are_digits(n / 10);
    }
}

/// The decimal text of any integer is decimal text.
pub proof fn lemma_decimal_is_decimal(v: int)
    ensures
        is_decimal(decimal(v)),
{
    if v < 0 {
        lemma_digits_are_digits((-v) as nat);
        assert(decimal(v).skip(1) =~= digits((-v) as nat));
    } else {
        lemma_digits_are_digits(v as nat);
        assert(decimal(v)[0] != 45);
    }
}

/// `s` read backwards.
pub open spec fn backwards(s: Seq<u8>) -> Seq<u8>
    decreases s.len(),
{
    if s.len() == 0 {
        Seq::empty()
    } else {
        seq![s.last()] + backwards(s.drop_last())
    }
}

/// Appends the decimal digits of `value` to `out`.
pub fn write_unsigned(out: &mut Vec<u8>, value: u64)
    ensures
        final(out)@ == old(out)@ + digits(value as nat),
{
    let mut low: Vec<u8> = Vec::new();
    let mut rest = value;
    while rest >= 10
        invariant
            digits(value as nat) == digits(rest as nat) + backwards(low@),
        decreases rest,
    {
        let d = 48u8 + (rest % 10) as u8;
        proof {
            assert(low@.push(d).drop_last() =~= low@);
            assert(digits(rest as nat) == digits((rest / 10) as nat).push(d));
            assert(digits((rest / 10) as nat).push(d) + backwards(low@) =~= digits(
                (rest / 10) as nat,
            ) + backwards(low@.push(d)));
        }
        low.push(d);
        rest = rest / 10;
    }
    out.push(48u8 + rest as u8);
    while low.len() > 0
        invariant
            out@ + backwards(low@) == old(out)@ + digits(value as nat),
        decreases low.len(),
    {
        let ghost before = out@;
        let ghost pending = low@;
        let d = low.pop().unwrap();
        out.push(d);
        proof {
            assert(low@ == pending.drop_last());
            assert(out@ + backwards(low@) =~= before + backwards(pending));
        }
    }
    proof {
        assert(out@ + backwards(low@) =~= out@);
    }
}

/// Appends the decimal text of `value` to `out`.
pub fn write_signed(out: &mut Vec<u8>, value: i64)
    ensures
        final(out)@ == old(out)@ + decimal(value as int),
{
    if value < 0 {
        out.push(45u8);
        let magnitude: u64 = (-(value + 1)) as u64 + 1;
        write_unsigned(out, magnitude);
        proof {
            assert(out@ =~= old(out)@ + decimal(value as int));
        }
    } else {
        write_unsigned(out, value as u64);
    }
}

/// A value that can be written as a decimal integer.
pub trait Integer {
    /// The number that the value stands for.
    spec fn as_int(&self) -> int;

    /// Appends the value's decimal text to `w`.
    fn write_to(self, w: &mut Vec<u8>)
        ensures
            final(w)@ == old(w)@ + decimal(self.as_int()),
    ;
}

impl Integer for u8 {
    open spec fn as_int(&self) -> int {
        *self as int
    }

    fn write_to(self, w: &mut Vec<u8>) {
        write_unsigned(w, self as u64)
    }
}

impl Integer for u16 {
    open spec fn as_int(&self) -> int {
        *self as int
    }

    fn write_to(self, w: &mut Vec<u8>) {
        write_unsigned(w, self as u64)
    }
}

impl Integer for u32 {
    open spec fn as_int(&self) -> int {
        *self as int
    }

    fn write_to(self, w: &mut Vec<u8>) {
        write_unsigned(w, self as u64)
    }
}

impl Integer for u64 {
    open spec fn as_int(&self) -> int {
        *self as int
    }

    fn write_to(self, w: &mut Vec<u8>) {
        write_unsigned(w, self)
    }
}

impl Integer for usize {
    open spec fn as_int(&self) -> int {
        *self as int
    }

    fn write_to(self, w: &mut Vec<u8>) {
        write_unsigned(w, self as u64)
    }
}

impl Integer for i8 {
    open spec fn as_int(&self) -> int {
        *self as int
    }

    fn write_to(self, w: &mut Vec<u8>) {
        write_signed(w, self as i64)
    }
}

impl Integer for i16 {
    open spec fn as_int(&self) -> int {
        *self as int
    }

    fn write_to(self, w: &mut Vec<u8>) {
        write_signed(w, self as i64)
    }
}

impl Integer for i32 {
    open spec fn as_int(&self) -> int {
        *self as int
    }

    fn write_to(self, w: &mut Vec<u8>) {
        write_signed(w, self as i64)
    }
}

impl Integer for i64 {
    open spec fn as_int(&self) -> int {
        *self as int
    }

    fn write_to(self, w: &mut Vec<u8>) {
        write_signed(w, self)
    }
}

impl Integer for isize {
    open spec fn as_int(&self) -> int {
        *self as int
    }

    fn write_to(self, w: &mut Vec<u8>) {
        write_signed(w, self as i64)
    }
}

impl<'a, T: Integer + Copy> Integer for &'a T {
    open spec fn as_int(&self) -> int {
        (**self).as_int()
    }

    fn write_to(self, w: &mut Vec<u8>) {
        T::write_to(*self, w)
    }
}

} // verus!
