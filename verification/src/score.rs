//! Scores and other single-precision numbers, held by their bits.

use vstd::prelude::*;

verus! {

/// A single-precision number, by its bits: the sign, eight bits of exponent, and the rest.
#[derive(Clone, Copy, Debug, PartialEq, Eq, Structural)]
pub struct Score {
    pub bits: u32,
}

/// Why values are refused.
#[derive(Clone, Copy, Debug, PartialEq, Eq, Structural)]
pub enum FiniteError {
    /// Some value is not a number, or infinite.
    NanOrInf,
}

impl Score {
    /// The bits without the sign.
    pub open spec fn magnitude(self) -> int {
        (self.bits % 0x8000_0000) as int
    }

    /// Not a number.
    pub open spec fn is_nan(self) -> bool {
        self.magnitude() > 0x7f80_0000
    }

    /// Neither infinite nor without a value.
    pub open spec fn is_finite(self) -> bool {
        self.magnitude() < 0x7f80_0000
    }

    /// A number that orders scores: larger for the better score, the same for both zeros, and above
    /// all others for what is not a number.
    pub open spec fn key(self) -> int {
        if self.is_nan() {
            0x8000_0000
        } else if self.bits >= 0x8000_0000 {
            -self.magnitude()
        } else {
            self.magnitude()
        }
    }

    /// The score zero.
    pub fn zero() -> (r: Score)
        ensures
            r.bits == 0,
    {
        Score { bits: 0 }
    }

    /// A number that orders scores.
    pub fn order_key(&self) -> (r: i64)
        ensures
            r == self.key(),
            self.bits <= 0x7f80_0000 ==> r == self.bits,
            0x8000_0000 <= self.bits <= 0xff80_0000 ==> r == 0x8000_0000 - self.bits,
            0x7f80_0000 < self.bits < 0x8000_0000 ==> r == 0x8000_0000,
            0xff80_0000 < self.bits ==> r == 0x8000_0000,
    {
        let magnitude: i64 = (self.bits % 0x8000_0000) as i64;
        if magnitude > 0x7f80_0000 {
            0x8000_0000
        } else if self.bits >= 0x8000_0000 {
            -magnitude
        } else {
            magnitude
        }
    }

    /// Whether the score is neither infinite nor without a value.
    pub fn finite(&self) -> (r: bool)
        ensures
            r == self.is_finite(),
            r == ((self.bits / 0x0080_0000) % 0x100 != 0xff),
    {
        self.bits % 0x8000_0000 < 0x7f80_0000
    }
}

/// Keys follow the numbers themselves. Of two numbers with the sign bit clear, the one with the
/// larger bits has the larger key; with the sign bit set, the one with the smaller bits. A number
/// with the sign bit clear is never below one with it set, and only the two zeros have the same key.
pub proof fn keys_follow_the_numbers(a: Score, b: Score)
    requires
        a.bits % 0x8000_0000 <= 0x7f80_0000,
        b.bits % 0x8000_0000 <= 0x7f80_0000,
    ensures
        a.bits < 0x8000_0000 && b.bits < 0x8000_0000 ==> (a.key() > b.key() <==> a.bits > b.bits),
        a.bits >= 0x8000_0000 && b.bits >= 0x8000_0000 ==> (a.key() > b.key() <==> a.bits < b.bits),
        a.bits < 0x8000_0000 && b.bits >= 0x8000_0000 ==> a.key() >= b.key(),
        a.key() == b.key() <==> a.bits == b.bits || (a.bits % 0x8000_0000 == 0 && b.bits
            % 0x8000_0000 == 0),
{
}

/// What is not a number has a key above that of every number, whatever its bits.
pub proof fn no_number_is_above_all(a: Score, b: Score)
    requires
        a.bits % 0x8000_0000 > 0x7f80_0000,
    ensures
        b.bits % 0x8000_0000 <= 0x7f80_0000 ==> a.key() > b.key(),
        b.bits % 0x8000_0000 > 0x7f80_0000 ==> a.key() == b.key(),
{
}

/// A score is finite when, and only when, the eight bits of its exponent are not all set.
pub proof fn finite_by_exponent(a: Score)
    ensures
        a.is_finite() <==> (a.bits / 0x0080_0000) % 0x100 != 0xff,
        a.is_nan() <==> (a.bits / 0x0080_0000) % 0x100 == 0xff && a.bits % 0x0080_0000 != 0,
{
}

/// Fails if some value is not a number, or infinite.
pub fn ensure_tensor_all_finite(values: &Vec<Score>) -> (r: Result<(), FiniteError>)
    ensures
        r is Ok <==> forall|i: int| 0 <= i < values.len() ==> #[trigger] values[i].is_finite(),
        r is Ok <==> forall|i: int|
            0 <= i < values@.len() ==> (#[trigger] values@[i].bits / 0x0080_0000) % 0x100 != 0xff,
        r matches Err(e) ==> e == FiniteError::NanOrInf,
{
    let mut i: usize = 0;
    while i < values.len()
        invariant
            i <= values.len(),
            forall|j: int| 0 <= j < i ==> #[trigger] values[j].is_finite(),
            forall|j: int|
                0 <= j < i ==> (#[trigger] values@[j].bits / 0x0080_0000) % 0x100 != 0xff,
        decreases values.len() - i,
    {
        if !values[i].finite() {
            assert(!values[i as int].is_finite());
            assert((values@[i as int].bits / 0x0080_0000) % 0x100 == 0xff);
            return Err(FiniteError::NanOrInf);
        }
        i += 1;
    }
    Ok(())
}

/// The numbers that scores are ordered by follow the scores themselves, by their bits: of two scores
/// with the sign bit clear the larger bits give the larger number, with the sign bit set the
/// smaller ones, and no score with it set comes above one with it clear.
pub proof fn scores_are_ordered_by_value(a: Score, b: Score, ka: i64, kb: i64)
    requires
        call_ensures(Score::order_key, (&a,), ka),
        call_ensures(Score::order_key, (&b,), kb),
        a.bits % 0x8000_0000 <= 0x7f80_0000,
        b.bits % 0x8000_0000 <= 0x7f80_0000,
    ensures
        a.bits < 0x8000_0000 && b.bits < 0x8000_0000 ==> (ka > kb <==> a.bits > b.bits),
        a.bits >= 0x8000_0000 && b.bits >= 0x8000_0000 ==> (ka > kb <==> a.bits < b.bits),
        a.bits < 0x8000_0000 && b.bits >= 0x8000_0000 ==> ka >= kb,
        ka == kb <==> a.bits == b.bits || (a.bits % 0x8000_0000 == 0 && b.bits % 0x8000_0000 == 0),
{
}

} // verus!
