//! Decimal digits of the numbers the driver prints.
use vstd::prelude::*;
use crate::font::GLYPH_MINUS;

verus! {

/// Decimal digits of `n`, least significant first; zero has the single digit 0.
pub open spec fn digits_lsb(n: nat) -> Seq<int>
    decreases n,
{
    if n < 10 {
        seq![n as int]
    } else {
        seq![(n % 10) as int] + digits_lsb(n / 10)
    }
}

/// Decimal digits of `n`, most significant first, as printed.
pub open spec fn decimal_digits(n: nat) -> Seq<int> {
    digits_lsb(n).reverse()
}

/// The glyphs that print a signed number: a minus sign for a negative
/// number, then the decimal digits of its magnitude.
pub open spec fn i16_glyphs(v: i16) -> Seq<int> {
    if v < 0 {
        seq![GLYPH_MINUS as int] + decimal_digits((-v) as nat)
    } else {
        decimal_digits(v as nat)
    }
}

/// The number written by a sequence of digits, most significant first.
pub open spec fn digits_value(ds: Seq<int>) -> int
    decreases ds.len(),
{
    if ds.len() == 0 {
        0
    } else {
        digits_value(ds.drop_last()) * 10 + ds.last()
    }
}

/// Ten to the power `k`.
pub open spec fn pow10(k: nat) -> nat
    decreases k,
{
    if k == 0 {
        1
    } else {
        10 * pow10((k - 1) as nat)
    }
}

/// Digits are 0-9, and there are at most `k` of them below `10^k`.
proof fn lemma_digits_lsb_shape(n: nat, k: nat)
    requires
        k >= 1,
        n < pow10(k),
    ensures
        1 <= digits_lsb(n).len() <= k,
        forall|i: int| 0 <= i < digits_lsb(n).len() ==> 0 <= #[trigger] digits_lsb(n)[i] < 10,
    decreases n,
{
    if n >= 10 {
        if k == 1 {
            assert(pow10(1) == 10 * pow10(0));
            assert(false);
        }
        let p1 = pow10((k - 1) as nat);
        assert(n / 10 < p1);
        lemma_digits_lsb_shape(n / 10, (k - 1) as nat);
        let rest = digits_lsb(n / 10);
        assert forall|i: int| 0 <= i < digits_lsb(n).len() implies 0 <= #[trigger] digits_lsb(n)[i] < 10 by {
            if i > 0 {
                assert(digits_lsb(n)[i] == rest[i - 1]);
            }
        }
    }
}

/// Digits of a 32-bit number: between one and ten of them, each 0-9.
pub proof fn lemma_digits_u32(n: u32)
    ensures
        1 <= digits_lsb(n as nat).len() <= 10,
        forall|i: int| 0 <= i < digits_lsb(n as nat).len() ==> 0 <= #[trigger] digits_lsb(n as nat)[i] < 10,
{
    reveal_with_fuel(pow10, 11);
    lemma_digits_lsb_shape(n as nat, 10);
}

/// The printed digits write the number: reading them back gives `n`.
pub proof fn lemma_decimal_digits_value(n: nat)
    ensures
        digits_value(decimal_digits(n)) == n,
    decreases n,
{
    if n < 10 {
        assert(decimal_digits(n) =~= seq![n as int]);
        assert(seq![n as int].drop_last() =~= Seq::<int>::empty());
        assert(digits_value(Seq::<int>::empty()) == 0);
        assert(digits_value(seq![n as int]) == digits_value(seq![n as int].drop_last()) * 10 + n);
    } else {
        lemma_decimal_digits_value(n / 10);
        let ds = decimal_digits(n);
        assert(ds.drop_last() =~= decimal_digits(n / 10));
        assert(ds.last() == n % 10);
        assert(digits_value(ds) == digits_value(ds.drop_last()) * 10 + ds.last());
        assert(n == (n / 10) * 10 + n % 10);
    }
}

/// No leading zero: the first printed digit is zero only for the number zero.
pub proof fn lemma_decimal_digits_no_leading_zero(n: nat)
    ensures
        decimal_digits(n).len() >= 1,
        (decimal_digits(n)[0] == 0) == (n == 0),
    decreases n,
{
    if n >= 10 {
        lemma_decimal_digits_no_leading_zero(n / 10);
        assert(decimal_digits(n)[0] == decimal_digits(n / 10)[0]);
    }
}

/// The digits of `n`, least significant first, in a buffer, with their count.
pub(crate) fn digits_of(n: u32) -> (r: ([u8; 10], usize))
    ensures
        r.1 == digits_lsb(n as nat).len(),
        1 <= r.1 <= 10,
        forall|i: int| 0 <= i < r.1 ==> r.0[i] as int == #[trigger] digits_lsb(n as nat)[i],
{
    let mut chiffres = [0u8; 10];
    let mut compte: usize = 0;
    let mut m: u32 = n;
    proof {
        lemma_digits_u32(n);
    }
    loop
        invariant_except_break
            compte + digits_lsb(m as nat).len() == digits_lsb(n as nat).len(),
            digits_lsb(n as nat).len() <= 10,
            forall|i: int| 0 <= i < compte ==> chiffres[i] as int == #[trigger] digits_lsb(n as nat)[i],
            forall|i: int| 0 <= i < digits_lsb(m as nat).len() ==> #[trigger] digits_lsb(m as nat)[i] == digits_lsb(n as nat)[compte + i],
        ensures
            compte == digits_lsb(n as nat).len(),
            forall|i: int| 0 <= i < compte ==> chiffres[i] as int == #[trigger] digits_lsb(n as nat)[i],
        decreases m,
    {
        assert(digits_lsb(m as nat)[0] == (m % 10) as int);
        chiffres[compte] = (m % 10) as u8;
        proof {
            if m >= 10 {
                let rest = digits_lsb((m / 10) as nat);
                assert forall|i: int| 0 <= i < rest.len() implies #[trigger] rest[i] == digits_lsb(n as nat)[compte + 1 + i] by {
                    assert(digits_lsb(m as nat)[i + 1] == rest[i]);
                }
            }
        }
        m = m / 10;
        compte = compte + 1;
        if m == 0 {
            break;
        }
    }
    (chiffres, compte)
}

/// Number of decimal digits of `n`.
pub fn digit_count(n: u32) -> (k: usize)
    ensures
        k == decimal_digits(n as nat).len(),
        1 <= k <= 10,
{
    let (_, k) = digits_of(n);
    k
}

} // verus!
