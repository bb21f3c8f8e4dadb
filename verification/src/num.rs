//! Decimal rendering of integers, with the lemmas the codec and the
//! id generator need: rendering is injective and parsing the rendered
//! digits gives the value back.

use vstd::prelude::*;

verus! {

/// Whether `c` is a decimal digit.
pub open spec fn is_digit(c: char) -> bool {
    48 <= c as u32 <= 57
}

/// Numeric value of a digit character.
pub open spec fn digit_val(c: char) -> nat {
    (c as u32 - 48) as nat
}

/// The digit character for a value below ten.
pub open spec fn digit_char(d: nat) -> char {
    if d == 0 {
        '0'
    } else if d == 1 {
        '1'
    } else if d == 2 {
        '2'
    } else if d == 3 {
        '3'
    } else if d == 4 {
        '4'
    } else if d == 5 {
        '5'
    } else if d == 6 {
        '6'
    } else if d == 7 {
        '7'
    } else if d == 8 {
        '8'
    } else {
        '9'
    }
}

/// Canonical decimal digits of `n`, most significant first.
pub open spec fn dec_digits(n: nat) -> Seq<char>
    decreases n,
{
    if n < 10 {
        seq![digit_char(n)]
    } else {
        dec_digits(n / 10).push(digit_char(n % 10))
    }
}

/// The value of a digit string, most significant first.
pub open spec fn digits_val(ds: Seq<char>) -> nat
    decreases ds.len(),
{
    if ds.len() == 0 {
        0
    } else {
        digits_val(ds.drop_last()) * 10 + digit_val(ds.last())
    }
}

/// Absolute value, as a natural number.
pub open spec fn abs_val(x: int) -> nat {
    if x >= 0 {
        x as nat
    } else {
        (-x) as nat
    }
}

/// Decimal rendering of a signed integer: an optional minus sign
/// followed by the canonical digits of the magnitude.
pub open spec fn enc_i64(x: int) -> Seq<char> {
    if x < 0 {
        seq!['-'] + dec_digits(abs_val(x))
    } else {
        dec_digits(abs_val(x))
    }
}

pub proof fn lemma_digit_char_val(d: nat)
    requires
        d < 10,
    ensures
        is_digit(digit_char(d)),
        digit_val(digit_char(d)) == d,
{
}

/// The canonical digits of `n` are nonempty, are all digits, and parse
/// back to `n`.
pub proof fn lemma_dec_digits_val(n: nat)
    ensures
        dec_digits(n).len() >= 1,
        forall|i: int| 0 <= i < dec_digits(n).len() ==> is_digit(#[trigger] dec_digits(n)[i]),
        digits_val(dec_digits(n)) == n,
    decreases n,
{
    if n < 10 {
        lemma_digit_char_val(n);
        assert(dec_digits(n).drop_last() =~= Seq::<char>::empty());
        assert(dec_digits(n)[0] == digit_char(n));
        assert(digits_val(Seq::<char>::empty()) == 0);
        assert(dec_digits(n).last() == digit_char(n));
    } else {
        lemma_dec_digits_val(n / 10);
        lemma_digit_char_val(n % 10);
        assert(dec_digits(n).drop_last() =~= dec_digits(n / 10));
        assert(dec_digits(n).last() == digit_char(n % 10));
        assert(n / 10 * 10 + n % 10 == n) by (nonlinear_arith);
        assert forall|i: int| 0 <= i < dec_digits(n).len() implies is_digit(
            #[trigger] dec_digits(n)[i],
        ) by {
            if i < dec_digits(n).len() - 1 {
                assert(dec_digits(n)[i] == dec_digits(n / 10)[i]);
            } else {
                assert(dec_digits(n)[i] == digit_char(n % 10));
            }
        }
    }
}

/// Decimal rendering is injective.
pub proof fn lemma_dec_digits_injective(a: nat, b: nat)
    ensures
        dec_digits(a) == dec_digits(b) ==> a == b,
{
    if dec_digits(a) == dec_digits(b) {
        lemma_dec_digits_val(a);
        lemma_dec_digits_val(b);
    }
}

/// Extending a digit string on the right can only grow its value.
pub proof fn lemma_digits_val_prefix(ds: Seq<char>, more: Seq<char>)
    ensures
        digits_val(ds) <= digits_val(ds + more),
    decreases more.len(),
{
    if more.len() == 0 {
        assert(ds + more =~= ds);
    } else {
        lemma_digits_val_prefix(ds, more.drop_last());
        assert((ds + more).drop_last() =~= ds + more.drop_last());
        assert((ds + more).last() == more.last());
    }
}

/// The digit character for a value below ten, as executable code.
pub(crate) fn digit_to_char(d: u64) -> (c: char)
    requires
        d < 10,
    ensures
        c == digit_char(d as nat),
{
    if d == 0 {
        '0'
    } else if d == 1 {
        '1'
    } else if d == 2 {
        '2'
    } else if d == 3 {
        '3'
    } else if d == 4 {
        '4'
    } else if d == 5 {
        '5'
    } else if d == 6 {
        '6'
    } else if d == 7 {
        '7'
    } else if d == 8 {
        '8'
    } else {
        '9'
    }
}

/// Relies on `String::push`: appends exactly the given character.
#[verifier::external_body]
pub(crate) fn push_char(s: &mut String, c: char)
    ensures
        final(s)@ == old(s)@ + seq![c],
{
    s.push(c);
}

/// Appends the canonical decimal digits of `n`.
pub(crate) fn push_dec_u64(out: &mut String, n: u64)
    ensures
        final(out)@ == old(out)@ + dec_digits(n as nat),
    decreases n,
{
    if n < 10 {
        let c = digit_to_char(n);
        push_char(out, c);
    } else {
        push_dec_u64(out, n / 10);
        let c = digit_to_char(n % 10);
        push_char(out, c);
        assert(final(out)@ =~= old(out)@ + dec_digits(n as nat));
    }
}

/// Appends the decimal rendering of a signed integer.
pub(crate) fn push_dec_i64(out: &mut String, x: i64)
    ensures
        final(out)@ == old(out)@ + enc_i64(x as int),
{
    if x >= 0 {
        push_dec_u64(out, x as u64);
    } else {
        push_char(out, '-');
        let mag: u64 = ((-(x + 1)) as u64) + 1;
        assert(mag as nat == abs_val(x as int));
        push_dec_u64(out, mag);
        assert(final(out)@ =~= old(out)@ + enc_i64(x as int));
    }
}

} // verus!
