//! The two interpreters.
//!
//! The concatenative one reads tokens as positional digit groups: a unit
//! shifts the group one decimal place, a teen shifts it two, a tens word
//! shifts it two and greedily absorbs a following nonzero unit ("twenty
//! one" is 21, not 200 and 1, while the zero in "twenty oh five" stays a
//! digit of its own, giving 2005), and a multiplier folds the group into
//! the running result.
//!
//! The additive one reads tokens as true magnitudes: units add,
//! "hundred" multiplies the open group, and larger scales flush the group
//! into the total.  Both fail on the first unrecognized token, and both
//! fail rather than let a value pass the signed 64-bit maximum.

use vstd::prelude::*;
use crate::chars::lower_seq;
use crate::lexicon::{
    unit_val, teen_val, tens_val, mult_val, add_unit_val, scale_val, lookup_unit, lookup_teen,
    lookup_tens, lookup_mult, lookup_add_unit, lookup_scale,
};
use crate::tokenize::{
    concat_tokens_of, additive_tokens_of, str_to_chars, tokenize_concat, tokenize_additive,
};

verus! {

/// The concatenative reading of the tokens from position `i` on, given
/// the open digit group `cur` and the settled result `res`.  `None` means
/// an unrecognized token, or a value past `i64::MAX`.
pub open spec fn concat_run(ws: Seq<Seq<char>>, i: int, cur: int, res: int) -> Option<int>
    decreases ws.len() - i,
{
    if i < 0 || i >= ws.len() {
        if res + cur > i64::MAX {
            None
        } else {
            Some(res + cur)
        }
    } else {
        let w = lower_seq(ws[i]);
        if unit_val(w) is Some {
            let c2 = cur * 10 + unit_val(w)->0;
            if c2 > i64::MAX {
                None
            } else {
                concat_run(ws, i + 1, c2, res)
            }
        } else if teen_val(w) is Some {
            let c2 = cur * 100 + teen_val(w)->0;
            if c2 > i64::MAX {
                None
            } else {
                concat_run(ws, i + 1, c2, res)
            }
        } else if tens_val(w) is Some {
            if i + 1 < ws.len() && unit_val(lower_seq(ws[i + 1])) is Some && unit_val(
                lower_seq(ws[i + 1]),
            )->0 != 0 {
                let c2 = cur * 100 + tens_val(w)->0 + unit_val(lower_seq(ws[i + 1]))->0;
                if c2 > i64::MAX {
                    None
                } else {
                    concat_run(ws, i + 2, c2, res)
                }
            } else {
                let c2 = cur * 100 + tens_val(w)->0;
                if c2 > i64::MAX {
                    None
                } else {
                    concat_run(ws, i + 1, c2, res)
                }
            }
        } else if mult_val(w) is Some {
            let c2 = (if cur == 0 {
                1int
            } else {
                cur
            }) * mult_val(w)->0;
            if c2 > i64::MAX || res + c2 > i64::MAX {
                None
            } else {
                concat_run(ws, i + 1, 0, res + c2)
            }
        } else {
            None
        }
    }
}

/// The additive reading of the tokens from position `i` on, given the
/// open group `cur` and the flushed total `tot`.  "and" is skipped here;
/// `None` means an unrecognized token, or a value past `i64::MAX`.
pub open spec fn additive_run(ws: Seq<Seq<char>>, i: int, cur: int, tot: int) -> Option<int>
    decreases ws.len() - i,
{
    if i < 0 || i >= ws.len() {
        if tot + cur > i64::MAX {
            None
        } else {
            Some(tot + cur)
        }
    } else {
        let w = lower_seq(ws[i]);
        if add_unit_val(w) is Some {
            let c2 = cur + add_unit_val(w)->0;
            if c2 > i64::MAX {
                None
            } else {
                additive_run(ws, i + 1, c2, tot)
            }
        } else if scale_val(w) is Some {
            let m = scale_val(w)->0;
            if m == 100 {
                let c2 = cur * 100;
                if c2 > i64::MAX {
                    None
                } else {
                    additive_run(ws, i + 1, c2, tot)
                }
            } else {
                let flushed = cur * m;
                if flushed > i64::MAX || tot + flushed > i64::MAX {
                    None
                } else {
                    additive_run(ws, i + 1, 0, tot + flushed)
                }
            }
        } else if w == "and"@ {
            additive_run(ws, i + 1, cur, tot)
        } else {
            None
        }
    }
}

/// The value the concatenative interpreter gives a whole input string.
pub open spec fn concat_value(s: Seq<char>) -> Option<int> {
    concat_run(concat_tokens_of(s), 0, 0, 0)
}

/// The value the additive interpreter gives a whole input string.
pub open spec fn additive_value(s: Seq<char>) -> Option<int> {
    additive_run(additive_tokens_of(s), 0, 0, 0)
}

/// Run the concatenative interpreter over a token list.
pub fn interp_concat_tokens(ts: &Vec<Vec<char>>) -> (r: Option<i64>)
    ensures
        r is Some <==> concat_run(ts.deep_view(), 0, 0, 0) is Some,
        r is Some ==> r->0 as int == concat_run(ts.deep_view(), 0, 0, 0)->0,
{
    let ghost ws = ts.deep_view();
    let mut cur: i64 = 0;
    let mut res: i64 = 0;
    let mut i: usize = 0;
    while i < ts.len()
        invariant
            0 <= cur,
            0 <= res,
            i <= ts.len(),
            ws == ts.deep_view(),
            ws.len() == ts.len(),
            concat_run(ws, 0, 0, 0) == concat_run(ws, i as int, cur as int, res as int),
        decreases ts.len() - i,
    {
        proof {
            assert(ws[i as int] =~= ts@[i as int]@);
        }
        let ghost w = lower_seq(ws[i as int]);
        if let Some(v) = lookup_unit(&ts[i]) {
            match cur.checked_mul(10) {
                Some(x) => match x.checked_add(v) {
                    Some(y) => {
                        cur = y;
                        i += 1;
                    },
                    None => {
                        return None;
                    },
                },
                None => {
                    assert(cur as int * 10 + unit_val(w)->0 > i64::MAX);
                    return None;
                },
            }
        } else if let Some(v) = lookup_teen(&ts[i]) {
            match cur.checked_mul(100) {
                Some(x) => match x.checked_add(v) {
                    Some(y) => {
                        cur = y;
                        i += 1;
                    },
                    None => {
                        return None;
                    },
                },
                None => {
                    assert(cur as int * 100 + teen_val(w)->0 > i64::MAX);
                    return None;
                },
            }
        } else if let Some(v) = lookup_tens(&ts[i]) {
            let mut add: i64 = v;
            let mut step: usize = 1;
            if i + 1 < ts.len() {
                proof {
                    assert(ws[i + 1] =~= ts@[i + 1]@);
                }
                if let Some(u) = lookup_unit(&ts[i + 1]) {
                    if u != 0 {
                        add = v + u;
                        step = 2;
                    }
                }
            }
            match cur.checked_mul(100) {
                Some(x) => match x.checked_add(add) {
                    Some(y) => {
                        cur = y;
                        i += step;
                    },
                    None => {
                        return None;
                    },
                },
                None => {
                    return None;
                },
            }
        } else if let Some(m) = lookup_mult(&ts[i]) {
            let base: i64 = if cur == 0 {
                1
            } else {
                cur
            };
            match base.checked_mul(m) {
                Some(x) => match res.checked_add(x) {
                    Some(y) => {
                        res = y;
                        cur = 0;
                        i += 1;
                    },
                    None => {
                        return None;
                    },
                },
                None => {
                    return None;
                },
            }
        } else {
            return None;
        }
    }
    match res.checked_add(cur) {
        Some(t) => Some(t),
        None => None,
    }
}

/// Run the additive interpreter over a (trimmed) token list.
pub fn interp_additive_tokens(ts: &Vec<Vec<char>>) -> (r: Option<i64>)
    ensures
        r is Some <==> additive_run(ts.deep_view(), 0, 0, 0) is Some,
        r is Some ==> r->0 as int == additive_run(ts.deep_view(), 0, 0, 0)->0,
{
    let ghost ws = ts.deep_view();
    let mut cur: i64 = 0;
    let mut tot: i64 = 0;
    let mut i: usize = 0;
    while i < ts.len()
        invariant
            0 <= cur,
            0 <= tot,
            i <= ts.len(),
            ws == ts.deep_view(),
            ws.len() == ts.len(),
            additive_run(ws, 0, 0, 0) == additive_run(ws, i as int, cur as int, tot as int),
        decreases ts.len() - i,
    {
        proof {
            assert(ws[i as int] =~= ts@[i as int]@);
        }
        if let Some(v) = lookup_add_unit(&ts[i]) {
            match cur.checked_add(v) {
                Some(x) => {
                    cur = x;
                    i += 1;
                },
                None => {
                    return None;
                },
            }
        } else if let Some(m) = lookup_scale(&ts[i]) {
            if m == 100 {
                match cur.checked_mul(100) {
                    Some(x) => {
                        cur = x;
                        i += 1;
                    },
                    None => {
                        return None;
                    },
                }
            } else {
                match cur.checked_mul(m) {
                    Some(x) => match tot.checked_add(x) {
                        Some(y) => {
                            tot = y;
                            cur = 0;
                            i += 1;
                        },
                        None => {
                            return None;
                        },
                    },
                    None => {
                        return None;
                    },
                }
            }
        } else if crate::lexicon::eq_ci(&ts[i], "and") {
            i += 1;
        } else {
            return None;
        }
    }
    match tot.checked_add(cur) {
        Some(t) => Some(t),
        None => None,
    }
}

/// Read a whole string with the concatenative interpreter.
pub fn words_to_number_concat(s: &str) -> (r: Option<i64>)
    ensures
        r is Some <==> concat_value(s@) is Some,
        r is Some ==> r->0 as int == concat_value(s@)->0,
{
    let v = str_to_chars(s);
    let ts = tokenize_concat(&v);
    interp_concat_tokens(&ts)
}

/// Read a whole string with the additive interpreter.
pub fn words_to_number_additive(s: &str) -> (r: Option<i64>)
    ensures
        r is Some <==> additive_value(s@) is Some,
        r is Some ==> r->0 as int == additive_value(s@)->0,
{
    let v = str_to_chars(s);
    let ts = tokenize_additive(&v);
    interp_additive_tokens(&ts)
}

} // verus!
