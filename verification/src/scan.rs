//! The phrase scanner and replacer.
//!
//! A number phrase is a maximal run of words: the first word may be any
//! unit, teen or tens word or a multiplier ("hundred", "thousand"); every
//! further word, reached across one or more spaces or hyphens, may only
//! be a unit, teen or tens word.  Words are whole runs of word characters
//! (letters, digits, underscore), matched case-insensitively, so a phrase
//! always starts and ends at a word boundary.  Each phrase is replaced by
//! its concatenative value in decimal; if the interpreter rejects the
//! phrase (it cannot, except past the 64-bit bound), the original text is
//! kept.  Everything outside phrases is copied through untouched.

use vstd::prelude::*;
use crate::chars::{is_word_char, is_sep, lower_seq, ex_is_word_char, ex_is_sep};
use crate::lexicon::{add_unit_val, mult_val, lookup_add_unit, lookup_mult};
use crate::interp::{concat_run, interp_concat_tokens};
use crate::render::{rendered, push_rendered};
use crate::tokenize::str_to_chars;

verus! {

/// A word the phrase grammar accepts in any position: a unit, teen or
/// tens word (expects a lowercased word).
pub open spec fn is_inner_word(w: Seq<char>) -> bool {
    add_unit_val(w) is Some
}

/// A word the phrase grammar accepts as the first word: any inner word,
/// or a multiplier (expects a lowercased word).
pub open spec fn is_first_word(w: Seq<char>) -> bool {
    is_inner_word(w) || mult_val(w) is Some
}

/// Where the run of word characters beginning at `i` ends.
pub open spec fn word_end(s: Seq<char>, i: int) -> int
    decreases s.len() - i,
{
    if i < 0 || i >= s.len() {
        i
    } else if !is_word_char(s[i]) {
        i
    } else {
        word_end(s, i + 1)
    }
}

/// Where the run of separator characters beginning at `i` ends.
pub open spec fn sep_end(s: Seq<char>, i: int) -> int
    decreases s.len() - i,
{
    if i < 0 || i >= s.len() {
        i
    } else if !is_sep(s[i]) {
        i
    } else {
        sep_end(s, i + 1)
    }
}

pub proof fn lemma_word_end(s: Seq<char>, i: int)
    requires
        0 <= i <= s.len(),
    ensures
        i <= word_end(s, i) <= s.len(),
        forall|j: int| i <= j < word_end(s, i) ==> is_word_char(#[trigger] s[j]),
        word_end(s, i) == s.len() || !is_word_char(s[word_end(s, i)]),
        i < s.len() && is_word_char(s[i]) ==> word_end(s, i) > i,
    decreases s.len() - i,
{
    if i < s.len() && is_word_char(s[i]) {
        lemma_word_end(s, i + 1);
    }
}

pub proof fn lemma_sep_end(s: Seq<char>, i: int)
    requires
        0 <= i <= s.len(),
    ensures
        i <= sep_end(s, i) <= s.len(),
        forall|j: int| i <= j < sep_end(s, i) ==> is_sep(#[trigger] s[j]),
        sep_end(s, i) == s.len() || !is_sep(s[sep_end(s, i)]),
    decreases s.len() - i,
{
    if i < s.len() && is_sep(s[i]) {
        lemma_sep_end(s, i + 1);
    }
}

/// Where the phrase whose first word ends at `j` ends: repeatedly cross
/// one or more separators to the next word run, as long as that whole run
/// is an inner grammar word.
pub open spec fn match_end(s: Seq<char>, j: int) -> int
    decreases s.len() - j,
        when 0 <= j <= s.len()
        via match_end_decreases
{
    let k = sep_end(s, j);
    if j < k && k < s.len() && is_word_char(s[k]) && is_inner_word(
        lower_seq(s.subrange(k, word_end(s, k))),
    ) {
        match_end(s, word_end(s, k))
    } else {
        j
    }
}

#[via_fn]
proof fn match_end_decreases(s: Seq<char>, j: int) {
    lemma_sep_end(s, j);
    let k = sep_end(s, j);
    if j < k && k < s.len() && is_word_char(s[k]) {
        lemma_word_end(s, k);
    }
}

pub proof fn lemma_match_end(s: Seq<char>, j: int)
    requires
        0 <= j <= s.len(),
    ensures
        j <= match_end(s, j) <= s.len(),
    decreases s.len() - j,
{
    lemma_sep_end(s, j);
    let k = sep_end(s, j);
    if j < k && k < s.len() && is_word_char(s[k]) && is_inner_word(
        lower_seq(s.subrange(k, word_end(s, k))),
    ) {
        lemma_word_end(s, k);
        lemma_match_end(s, word_end(s, k));
    }
}

/// The word runs lying in `[i, e)`, in order.
pub open spec fn span_tokens(s: Seq<char>, i: int, e: int) -> Seq<Seq<char>>
    decreases e - i,
        when 0 <= i && e <= s.len()
        via span_tokens_decreases
{
    if i >= e {
        Seq::empty()
    } else if !is_word_char(s[i]) {
        span_tokens(s, i + 1, e)
    } else {
        let j = if word_end(s, i) < e {
            word_end(s, i)
        } else {
            e
        };
        seq![s.subrange(i, j)] + span_tokens(s, j, e)
    }
}

#[via_fn]
proof fn span_tokens_decreases(s: Seq<char>, i: int, e: int) {
    if 0 <= i < e && e <= s.len() && is_word_char(s[i]) {
        lemma_word_end(s, i);
    }
}

/// The scanner's output for the input from position `i` on.
pub open spec fn scan_from(s: Seq<char>, pad: Option<usize>, i: int) -> Seq<char>
    decreases s.len() - i,
        when 0 <= i <= s.len()
        via scan_from_decreases
{
    if i >= s.len() {
        Seq::empty()
    } else if !is_word_char(s[i]) {
        seq![s[i]] + scan_from(s, pad, i + 1)
    } else {
        let j = word_end(s, i);
        if !is_first_word(lower_seq(s.subrange(i, j))) {
            s.subrange(i, j) + scan_from(s, pad, j)
        } else {
            let e = match_end(s, j);
            match concat_run(span_tokens(s, i, e), 0, 0, 0) {
                Some(n) => rendered(n, pad) + scan_from(s, pad, e),
                None => s.subrange(i, e) + scan_from(s, pad, e),
            }
        }
    }
}

#[via_fn]
proof fn scan_from_decreases(s: Seq<char>, pad: Option<usize>, i: int) {
    if 0 <= i < s.len() && is_word_char(s[i]) {
        lemma_word_end(s, i);
        lemma_match_end(s, word_end(s, i));
    }
}

/// The scanner's output for a whole line.
pub open spec fn scan_text(s: Seq<char>, pad: Option<usize>) -> Seq<char> {
    scan_from(s, pad, 0)
}

/// Whether a whole input unit is wrapped in one pair of double quotes.
pub open spec fn is_quoted(s: Seq<char>) -> bool {
    s.len() >= 2 && s[0] == '"' && s[s.len() - 1] == '"'
}

/// The replacer's output for a whole input unit: a quote pair around the
/// whole input is kept around the scanned inner text; any other input is
/// scanned as it stands.
pub open spec fn scan_unit(s: Seq<char>, pad: Option<usize>) -> Seq<char> {
    if is_quoted(s) {
        seq!['"'] + scan_text(s.subrange(1, s.len() - 1), pad) + seq!['"']
    } else {
        scan_text(s, pad)
    }
}

/// The characters of `v` in `[a, b)`, as a fresh vector.
fn collect_range(v: &Vec<char>, a: usize, b: usize) -> (r: Vec<char>)
    requires
        a <= b <= v@.len(),
    ensures
        r@ == v@.subrange(a as int, b as int),
{
    let mut r: Vec<char> = Vec::new();
    let mut i: usize = a;
    while i < b
        invariant
            a <= i <= b <= v@.len(),
            r@ == v@.subrange(a as int, i as int),
        decreases b - i,
    {
        r.push(v[i]);
        assert(r@ =~= v@.subrange(a as int, i + 1));
        i += 1;
    }
    r
}

/// Find the end of the word run starting at `i`.
fn ex_word_end(v: &Vec<char>, i: usize) -> (j: usize)
    requires
        i <= v@.len(),
    ensures
        j == word_end(v@, i as int),
        i <= j <= v@.len(),
{
    let mut j: usize = i;
    while j < v.len() && ex_is_word_char(v[j])
        invariant
            i <= j <= v@.len(),
            word_end(v@, i as int) == word_end(v@, j as int),
        decreases v@.len() - j,
    {
        j += 1;
    }
    j
}

/// Find the end of the separator run starting at `i`.
fn ex_sep_end(v: &Vec<char>, i: usize) -> (j: usize)
    requires
        i <= v@.len(),
    ensures
        j == sep_end(v@, i as int),
        i <= j <= v@.len(),
{
    let mut j: usize = i;
    while j < v.len() && ex_is_sep(v[j])
        invariant
            i <= j <= v@.len(),
            sep_end(v@, i as int) == sep_end(v@, j as int),
        decreases v@.len() - j,
    {
        j += 1;
    }
    j
}

/// Find the end of the phrase whose first word ends at `j`.
fn ex_match_end(v: &Vec<char>, j: usize) -> (e: usize)
    requires
        j <= v@.len(),
    ensures
        e == match_end(v@, j as int),
        j <= e <= v@.len(),
{
    let mut e: usize = j;
    loop
        invariant
            j <= e <= v@.len(),
            match_end(v@, j as int) == match_end(v@, e as int),
        decreases v@.len() - e,
    {
        let k = ex_sep_end(v, e);
        if k == e || k >= v.len() || !ex_is_word_char(v[k]) {
            return e;
        }
        let p = ex_word_end(v, k);
        let w = collect_range(v, k, p);
        if lookup_add_unit(&w).is_some() {
            proof {
                lemma_word_end(v@, k as int);
            }
            e = p;
        } else {
            return e;
        }
    }
}

/// Collect the word runs lying in `[i, e)`.
fn ex_span_tokens(v: &Vec<char>, i: usize, e: usize) -> (r: Vec<Vec<char>>)
    requires
        i <= e <= v@.len(),
    ensures
        r.deep_view() == span_tokens(v@, i as int, e as int),
{
    let mut out: Vec<Vec<char>> = Vec::new();
    let mut p: usize = i;
    proof {
        assert(out.deep_view() + span_tokens(v@, i as int, e as int) =~~= span_tokens(
            v@,
            i as int,
            e as int,
        ));
    }
    while p < e
        invariant
            i <= p <= e <= v@.len(),
            span_tokens(v@, i as int, e as int) == out.deep_view() + span_tokens(
                v@,
                p as int,
                e as int,
            ),
        decreases e - p,
    {
        if !ex_is_word_char(v[p]) {
            p += 1;
        } else {
            let q = ex_word_end(v, p);
            let q2: usize = if q < e {
                q
            } else {
                e
            };
            proof {
                lemma_word_end(v@, p as int);
            }
            let ghost old_out = out.deep_view();
            let t = collect_range(v, p, q2);
            out.push(t);
            proof {
                assert(out.deep_view() =~~= old_out.push(v@.subrange(p as int, q2 as int)));
                assert(old_out + span_tokens(v@, p as int, e as int) =~~= out.deep_view()
                    + span_tokens(v@, q2 as int, e as int));
            }
            p = q2;
        }
    }
    proof {
        assert(out.deep_view() + span_tokens(v@, e as int, e as int) =~~= out.deep_view());
    }
    out
}

/// The value a successful concatenative run yields is non-negative.
pub proof fn lemma_concat_run_nonneg(ws: Seq<Seq<char>>, i: int, cur: int, res: int)
    requires
        0 <= cur,
        0 <= res,
        concat_run(ws, i, cur, res) is Some,
    ensures
        concat_run(ws, i, cur, res)->0 >= 0,
    decreases ws.len() - i,
{
    if 0 <= i < ws.len() {
        let w = lower_seq(ws[i]);
        if crate::lexicon::unit_val(w) is Some {
            lemma_concat_run_nonneg(ws, i + 1, cur * 10 + crate::lexicon::unit_val(w)->0, res);
        } else if crate::lexicon::teen_val(w) is Some {
            lemma_concat_run_nonneg(ws, i + 1, cur * 100 + crate::lexicon::teen_val(w)->0, res);
        } else if crate::lexicon::tens_val(w) is Some {
            if i + 1 < ws.len() && crate::lexicon::unit_val(lower_seq(ws[i + 1])) is Some
                && crate::lexicon::unit_val(lower_seq(ws[i + 1]))->0 != 0 {
                lemma_concat_run_nonneg(
                    ws,
                    i + 2,
                    cur * 100 + crate::lexicon::tens_val(w)->0 + crate::lexicon::unit_val(
                        lower_seq(ws[i + 1]),
                    )->0,
                    res,
                );
            } else {
                lemma_concat_run_nonneg(ws, i + 1, cur * 100 + crate::lexicon::tens_val(w)->0, res);
            }
        } else {
            let c2 = (if cur == 0 {
                1int
            } else {
                cur
            }) * mult_val(w)->0;
            lemma_concat_run_nonneg(ws, i + 1, 0, res + c2);
        }
    }
}

/// Scan a character sequence and replace every number phrase.
pub fn scan_chars(v: &Vec<char>, pad: Option<usize>) -> (out: Vec<char>)
    ensures
        out@ == scan_from(v@, pad, 0),
{
    let mut out: Vec<char> = Vec::new();
    let mut i: usize = 0;
    proof {
        assert(out@ + scan_from(v@, pad, 0) =~= scan_from(v@, pad, 0));
    }
    while i < v.len()
        invariant
            i <= v@.len(),
            scan_from(v@, pad, 0) == out@ + scan_from(v@, pad, i as int),
        decreases v@.len() - i,
    {
        let ghost prior = out@;
        if !ex_is_word_char(v[i]) {
            out.push(v[i]);
            proof {
                assert(out@ =~= prior + seq![v@[i as int]]);
                assert(prior + scan_from(v@, pad, i as int) =~= out@ + scan_from(
                    v@,
                    pad,
                    i + 1,
                ));
            }
            i += 1;
        } else {
            let j = ex_word_end(v, i);
            proof {
                lemma_word_end(v@, i as int);
            }
            let first = collect_range(v, i, j);
            let is_first = if lookup_add_unit(&first).is_some() {
                true
            } else {
                lookup_mult(&first).is_some()
            };
            if !is_first {
                let mut p: usize = i;
                while p < j
                    invariant
                        i <= p <= j <= v@.len(),
                        out@ == prior + v@.subrange(i as int, p as int),
                    decreases j - p,
                {
                    out.push(v[p]);
                    assert(out@ =~= prior + v@.subrange(i as int, p + 1));
                    p += 1;
                }
                proof {
                    assert(prior + scan_from(v@, pad, i as int) =~= out@ + scan_from(
                        v@,
                        pad,
                        j as int,
                    ));
                }
                i = j;
            } else {
                let e = ex_match_end(v, j);
                let ts = ex_span_tokens(v, i, e);
                match interp_concat_tokens(&ts) {
                    Some(n) => {
                        proof {
                            lemma_concat_run_nonneg(span_tokens(v@, i as int, e as int), 0, 0, 0);
                        }
                        push_rendered(n, pad, &mut out);
                        proof {
                            assert(prior + scan_from(v@, pad, i as int) =~= out@ + scan_from(
                                v@,
                                pad,
                                e as int,
                            ));
                        }
                        i = e;
                    },
                    None => {
                        let mut p: usize = i;
                        while p < e
                            invariant
                                i <= p <= e <= v@.len(),
                                out@ == prior + v@.subrange(i as int, p as int),
                            decreases e - p,
                        {
                            out.push(v[p]);
                            assert(out@ =~= prior + v@.subrange(i as int, p + 1));
                            p += 1;
                        }
                        proof {
                            assert(prior + scan_from(v@, pad, i as int) =~= out@ + scan_from(
                                v@,
                                pad,
                                e as int,
                            ));
                        }
                        i = e;
                    },
                }
            }
        }
    }
    proof {
        assert(out@ + scan_from(v@, pad, v@.len() as int) =~= out@);
    }
    out
}

/// Make a `String` of a vector of characters.
/// Relies on `String`'s `FromIterator<char>`: collecting characters
/// yields the string made of exactly those characters in order.
#[verifier::external_body]
fn chars_to_string(v: &Vec<char>) -> (r: String)
    ensures
        r@ == v@,
{
    v.iter().collect()
}

/// Scan a line of free text and replace every number phrase with its
/// concatenative value, zero-padded to the optional minimum width; all
/// other text is kept as it stands.
pub fn replace_number_words(line: &str, pad: Option<usize>) -> (r: String)
    ensures
        r@ == scan_text(line@, pad),
{
    let v = str_to_chars(line);
    let out = scan_chars(&v, pad);
    chars_to_string(&out)
}

/// Scan one input unit: a double-quote pair wrapping the whole unit is
/// stripped, the inner text scanned, and the pair put back; any other
/// unit is scanned as it stands.
pub fn scan_and_replace(text: &str, pad: Option<usize>) -> (r: String)
    ensures
        r@ == scan_unit(text@, pad),
{
    let v = str_to_chars(text);
    if v.len() >= 2 && v[0] == '"' && v[v.len() - 1] == '"' {
        let inner = collect_range(&v, 1, v.len() - 1);
        let scanned = scan_chars(&inner, pad);
        let mut out: Vec<char> = Vec::new();
        out.push('"');
        let ghost mid0 = out@;
        let mut p: usize = 0;
        while p < scanned.len()
            invariant
                p <= scanned@.len(),
                out@ == mid0 + scanned@.subrange(0, p as int),
            decreases scanned@.len() - p,
        {
            out.push(scanned[p]);
            assert(out@ =~= mid0 + scanned@.subrange(0, p + 1));
            p += 1;
        }
        out.push('"');
        proof {
            assert(scanned@.subrange(0, scanned@.len() as int) =~= scanned@);
            assert(out@ =~= seq!['"'] + scan_text(text@.subrange(1, text@.len() - 1), pad)
                + seq!['"']);
        }
        chars_to_string(&out)
    } else {
        let out = scan_chars(&v, pad);
        chars_to_string(&out)
    }
}

} // verus!
