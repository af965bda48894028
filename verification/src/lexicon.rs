//! The word lexicons: units (with "oh" as a synonym for zero), teens,
//! tens, and the two scale sets.  The concatenative interpreter only
//! recognizes "hundred" and "thousand" as multipliers; the additive one
//! also takes "million" and "billion".  Lookups are case-insensitive:
//! every spec function here expects an already-lowercased word, and the
//! executable lookups lowercase as they compare.

use vstd::prelude::*;
use crate::chars::{lower_char, lower_seq, ex_lower_char};

verus! {

/// Value of a unit word (a single digit), if the word is one.
pub open spec fn unit_val(w: Seq<char>) -> Option<int> {
    if w == "zero"@ || w == "oh"@ {
        Some(0int)
    } else if w == "one"@ {
        Some(1int)
    } else if w == "two"@ {
        Some(2int)
    } else if w == "three"@ {
        Some(3int)
    } else if w == "four"@ {
        Some(4int)
    } else if w == "five"@ {
        Some(5int)
    } else if w == "six"@ {
        Some(6int)
    } else if w == "seven"@ {
        Some(7int)
    } else if w == "eight"@ {
        Some(8int)
    } else if w == "nine"@ {
        Some(9int)
    } else {
        None
    }
}

/// Value of a teen word (ten through nineteen), if the word is one.
pub open spec fn teen_val(w: Seq<char>) -> Option<int> {
    if w == "ten"@ {
        Some(10int)
    } else if w == "eleven"@ {
        Some(11int)
    } else if w == "twelve"@ {
        Some(12int)
    } else if w == "thirteen"@ {
        Some(13int)
    } else if w == "fourteen"@ {
        Some(14int)
    } else if w == "fifteen"@ {
        Some(15int)
    } else if w == "sixteen"@ {
        Some(16int)
    } else if w == "seventeen"@ {
        Some(17int)
    } else if w == "eighteen"@ {
        Some(18int)
    } else if w == "nineteen"@ {
        Some(19int)
    } else {
        None
    }
}

/// Value of a tens word (twenty through ninety), if the word is one.
pub open spec fn tens_val(w: Seq<char>) -> Option<int> {
    if w == "twenty"@ {
        Some(20int)
    } else if w == "thirty"@ {
        Some(30int)
    } else if w == "forty"@ {
        Some(40int)
    } else if w == "fifty"@ {
        Some(50int)
    } else if w == "sixty"@ {
        Some(60int)
    } else if w == "seventy"@ {
        Some(70int)
    } else if w == "eighty"@ {
        Some(80int)
    } else if w == "ninety"@ {
        Some(90int)
    } else {
        None
    }
}

/// Multiplier recognized by the concatenative interpreter.
pub open spec fn mult_val(w: Seq<char>) -> Option<int> {
    if w == "hundred"@ {
        Some(100int)
    } else if w == "thousand"@ {
        Some(1000int)
    } else {
        None
    }
}

/// The additive interpreter's flat unit table: units, teens and tens
/// merged into one mapping, each word keeping its standalone value.
pub open spec fn add_unit_val(w: Seq<char>) -> Option<int> {
    if unit_val(w) is Some {
        unit_val(w)
    } else if teen_val(w) is Some {
        teen_val(w)
    } else {
        tens_val(w)
    }
}

/// Scale recognized by the additive interpreter.
pub open spec fn scale_val(w: Seq<char>) -> Option<int> {
    if w == "hundred"@ {
        Some(100int)
    } else if w == "thousand"@ {
        Some(1000int)
    } else if w == "million"@ {
        Some(1000000int)
    } else if w == "billion"@ {
        Some(1000000000int)
    } else {
        None
    }
}

/// Case-insensitive equality of a token against a lexicon word.
pub fn eq_ci(t: &Vec<char>, w: &str) -> (b: bool)
    ensures
        b == (lower_seq(t@) == w@),
{
    let n = w.unicode_len();
    if t.len() != n {
        proof {
            assert(lower_seq(t@).len() == t@.len());
        }
        return false;
    }
    let mut i: usize = 0;
    while i < n
        invariant
            n == w@.len(),
            t@.len() == n,
            i <= n,
            forall|j: int| 0 <= j < i ==> lower_char(t@[j]) == w@[j],
        decreases n - i,
    {
        let c = ex_lower_char(t[i]);
        if c != w.get_char(i) {
            proof {
                assert(lower_seq(t@)[i as int] == lower_char(t@[i as int]));
            }
            return false;
        }
        i += 1;
    }
    proof {
        assert(lower_seq(t@) =~= w@);
    }
    true
}

/// Executable unit lookup, case-insensitive.
pub fn lookup_unit(t: &Vec<char>) -> (r: Option<i64>)
    ensures
        r is Some <==> unit_val(lower_seq(t@)) is Some,
        r is Some ==> r->0 as int == unit_val(lower_seq(t@))->0,
{
    if eq_ci(t, "zero") || eq_ci(t, "oh") {
        Some(0)
    } else if eq_ci(t, "one") {
        Some(1)
    } else if eq_ci(t, "two") {
        Some(2)
    } else if eq_ci(t, "three") {
        Some(3)
    } else if eq_ci(t, "four") {
        Some(4)
    } else if eq_ci(t, "five") {
        Some(5)
    } else if eq_ci(t, "six") {
        Some(6)
    } else if eq_ci(t, "seven") {
        Some(7)
    } else if eq_ci(t, "eight") {
        Some(8)
    } else if eq_ci(t, "nine") {
        Some(9)
    } else {
        None
    }
}

/// Executable teen lookup, case-insensitive.
pub fn lookup_teen(t: &Vec<char>) -> (r: Option<i64>)
    ensures
        r is Some <==> teen_val(lower_seq(t@)) is Some,
        r is Some ==> r->0 as int == teen_val(lower_seq(t@))->0,
{
    if eq_ci(t, "ten") {
        Some(10)
    } else if eq_ci(t, "eleven") {
        Some(11)
    } else if eq_ci(t, "twelve") {
        Some(12)
    } else if eq_ci(t, "thirteen") {
        Some(13)
    } else if eq_ci(t, "fourteen") {
        Some(14)
    } else if eq_ci(t, "fifteen") {
        Some(15)
    } else if eq_ci(t, "sixteen") {
        Some(16)
    } else if eq_ci(t, "seventeen") {
        Some(17)
    } else if eq_ci(t, "eighteen") {
        Some(18)
    } else if eq_ci(t, "nineteen") {
        Some(19)
    } else {
        None
    }
}

/// Executable tens lookup, case-insensitive.
pub fn lookup_tens(t: &Vec<char>) -> (r: Option<i64>)
    ensures
        r is Some <==> tens_val(lower_seq(t@)) is Some,
        r is Some ==> r->0 as int == tens_val(lower_seq(t@))->0,
{
    if eq_ci(t, "twenty") {
        Some(20)
    } else if eq_ci(t, "thirty") {
        Some(30)
    } else if eq_ci(t, "forty") {
        Some(40)
    } else if eq_ci(t, "fifty") {
        Some(50)
    } else if eq_ci(t, "sixty") {
        Some(60)
    } else if eq_ci(t, "seventy") {
        Some(70)
    } else if eq_ci(t, "eighty") {
        Some(80)
    } else if eq_ci(t, "ninety") {
        Some(90)
    } else {
        None
    }
}

/// Executable multiplier lookup for the concatenative interpreter.
pub fn lookup_mult(t: &Vec<char>) -> (r: Option<i64>)
    ensures
        r is Some <==> mult_val(lower_seq(t@)) is Some,
        r is Some ==> r->0 as int == mult_val(lower_seq(t@))->0,
{
    if eq_ci(t, "hundred") {
        Some(100)
    } else if eq_ci(t, "thousand") {
        Some(1000)
    } else {
        None
    }
}

/// Executable merged unit lookup for the additive interpreter.
pub fn lookup_add_unit(t: &Vec<char>) -> (r: Option<i64>)
    ensures
        r is Some <==> add_unit_val(lower_seq(t@)) is Some,
        r is Some ==> r->0 as int == add_unit_val(lower_seq(t@))->0,
{
    let r = lookup_unit(t);
    if r.is_some() {
        return r;
    }
    let r = lookup_teen(t);
    if r.is_some() {
        return r;
    }
    lookup_tens(t)
}

/// Executable scale lookup for the additive interpreter.
pub fn lookup_scale(t: &Vec<char>) -> (r: Option<i64>)
    ensures
        r is Some <==> scale_val(lower_seq(t@)) is Some,
        r is Some ==> r->0 as int == scale_val(lower_seq(t@))->0,
{
    if eq_ci(t, "hundred") {
        Some(100)
    } else if eq_ci(t, "thousand") {
        Some(1000)
    } else if eq_ci(t, "million") {
        Some(1000000)
    } else if eq_ci(t, "billion") {
        Some(1000000000)
    } else {
        None
    }
}

} // verus!
