//! Rendering a non-negative value as decimal digits, with an optional
//! minimum width: the scanner writes each matched phrase back as digits,
//! zero-padded when the caller asked for a width.

use vstd::prelude::*;

verus! {

/// The digit character for one decimal digit.
pub open spec fn digit_char(d: int) -> char
    recommends
        0 <= d <= 9,
{
    if d == 0 {
        '0'
    } else if d == 1 {
        '1'
    } else if d == 2 {
        '2'
    } else if d == 3 {
        '3'
    } else if d == 4 {
        '4'
    } else if d == 5 {
        '5'
    } else if d == 6 {
        '6'
    } else if d == 7 {
        '7'
    } else if d == 8 {
        '8'
    } else {
        '9'
    }
}

/// The decimal digits of `n`, most significant first.
pub open spec fn dec_digits(n: int) -> Seq<char>
    recommends
        n >= 0,
    decreases n,
{
    if n < 10 {
        seq![digit_char(n)]
    } else {
        dec_digits(n / 10) + seq![digit_char(n % 10)]
    }
}

/// `k` zero characters.
pub open spec fn zeroes(k: int) -> Seq<char> {
    Seq::new(if k < 0 {
        0nat
    } else {
        k as nat
    }, |i: int| '0')
}

/// The decimal rendering of `n`, zero-padded on the left to the given
/// minimum width when one is given.
pub open spec fn rendered(n: int, pad: Option<usize>) -> Seq<char> {
    match pad {
        Some(w) => zeroes(w - dec_digits(n).len()) + dec_digits(n),
        None => dec_digits(n),
    }
}

/// Every character of a decimal rendering is a digit.
pub proof fn lemma_dec_digits_are_digits(n: int)
    requires
        n >= 0,
    ensures
        dec_digits(n).len() >= 1,
        forall|i: int|
            0 <= i < dec_digits(n).len() ==> crate::chars::is_digit(#[trigger] dec_digits(n)[i]),
    decreases n,
{
    if n >= 10 {
        lemma_dec_digits_are_digits(n / 10);
    }
}

/// Append the decimal digits of `n`.
pub fn push_digits(n: i64, out: &mut Vec<char>)
    requires
        n >= 0,
    ensures
        final(out)@ == old(out)@ + dec_digits(n as int),
    decreases n,
{
    let ghost prior = out@;
    if n < 10 {
        let c = match n {
            0 => '0',
            1 => '1',
            2 => '2',
            3 => '3',
            4 => '4',
            5 => '5',
            6 => '6',
            7 => '7',
            8 => '8',
            _ => '9',
        };
        out.push(c);
        assert(out@ =~= prior + dec_digits(n as int));
    } else {
        push_digits(n / 10, out);
        let d = n % 10;
        let c = match d {
            0 => '0',
            1 => '1',
            2 => '2',
            3 => '3',
            4 => '4',
            5 => '5',
            6 => '6',
            7 => '7',
            8 => '8',
            _ => '9',
        };
        out.push(c);
        assert(out@ =~= prior + dec_digits(n as int));
    }
}

/// Append the rendering of `n` with the optional minimum width.
pub fn push_rendered(n: i64, pad: Option<usize>, out: &mut Vec<char>)
    requires
        n >= 0,
    ensures
        final(out)@ == old(out)@ + rendered(n as int, pad),
{
    let ghost prior = out@;
    let mut digits: Vec<char> = Vec::new();
    push_digits(n, &mut digits);
    if let Some(w) = pad {
        let mut k: usize = 0;
        let fill: usize = if w > digits.len() {
            w - digits.len()
        } else {
            0
        };
        while k < fill
            invariant
                k <= fill,
                out@ == prior + zeroes(k as int),
            decreases fill - k,
        {
            out.push('0');
            assert(out@ =~= prior + zeroes(k + 1));
            k += 1;
        }
        proof {
            assert(zeroes(fill as int) =~= zeroes(w - dec_digits(n as int).len()));
        }
    }
    let mut i: usize = 0;
    let ghost mid = out@;
    while i < digits.len()
        invariant
            i <= digits.len(),
            digits@ == dec_digits(n as int),
            out@ == mid + digits@.subrange(0, i as int),
        decreases digits.len() - i,
    {
        out.push(digits[i]);
        assert(out@ =~= mid + digits@.subrange(0, i + 1));
        i += 1;
    }
    proof {
        assert(digits@.subrange(0, digits@.len() as int) =~= digits@);
        assert(out@ =~= prior + rendered(n as int, pad));
    }
}

} // verus!
