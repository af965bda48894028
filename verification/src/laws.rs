//! General laws of the engine, stated and proved once and for all
//! inputs: a standalone lexicon word reads as its own value; hyphens and
//! spaces are interchangeable; "and" tokens never change a result; an
//! unknown token always fails the parse; text without number phrases
//! passes the scanner unchanged; and the scanner and the whole replacer
//! are idempotent, since the digits they write never match again.

use vstd::prelude::*;
use crate::chars::{is_sep, is_word_char, is_digit, lower_char, lower_seq};
use crate::lexicon::{unit_val, teen_val, tens_val, mult_val, add_unit_val, scale_val};
use crate::tokenize::{split_acc, raw_tokens, drop_and, concat_tokens_of, additive_tokens_of};
use crate::interp::{concat_run, additive_run, concat_value, additive_value};
use crate::render::{dec_digits, zeroes, rendered, lemma_dec_digits_are_digits};
use crate::scan::{
    is_quoted, scan_unit,
    is_first_word, is_inner_word, word_end, sep_end, match_end, span_tokens, scan_from, scan_text,
    lemma_word_end, lemma_sep_end, lemma_match_end, lemma_concat_run_nonneg,
};

verus! {

/// The concatenative value of a raw token stream (before the "and"
/// filter that the interpreter applies).
pub open spec fn concat_raw_value(ts: Seq<Seq<char>>) -> Option<int> {
    concat_run(drop_and(ts), 0, 0, 0)
}

/// A string of non-separator characters splits into one single token.
proof fn lemma_split_nosep(s: Seq<char>, i: int, cur: Seq<char>)
    requires
        0 <= i <= s.len(),
        forall|j: int| i <= j < s.len() ==> !is_sep(#[trigger] s[j]),
    ensures
        cur.len() + s.len() - i > 0 ==> split_acc(s, i, cur) == seq![cur + s.skip(i)],
        cur.len() + s.len() - i == 0 ==> split_acc(s, i, cur) == Seq::<Seq<char>>::empty(),
    decreases s.len() - i,
{
    if i >= s.len() {
        assert(s.skip(i) =~= Seq::<char>::empty());
        if cur.len() > 0 {
            assert(cur + s.skip(i) =~= cur);
        }
    } else {
        lemma_split_nosep(s, i + 1, cur.push(s[i]));
        assert(cur.push(s[i]) + s.skip(i + 1) =~= cur + s.skip(i));
    }
}

/// A word whose lowercasing is a known plain word (no separators, not
/// "and") is its own whole token stream.
proof fn plain_word_tokens(w: Seq<char>, lit: Seq<char>)
    requires
        lower_seq(w) == lit,
        lit.len() > 0,
        forall|j: int| 0 <= j < lit.len() ==> !is_sep(#[trigger] lit[j]),
        lit[0] != 'a',
    ensures
        concat_tokens_of(w) == seq![w],
{
    reveal_strlit("and");
    assert(lower_seq(w) != "and"@) by {
        if lower_seq(w) == "and"@ {
            assert(lit[0] == "and"@[0]);
        }
    }
    assert(lower_seq(w).len() == w.len());
    assert forall|j: int| 0 <= j < w.len() implies !is_sep(#[trigger] w[j]) by {
        assert(lower_seq(w)[j] == lower_char(w[j]));
        if is_sep(w[j]) {
            assert(lower_char(w[j]) == w[j]);
            assert(is_sep(lit[j]));
        }
    }
    lemma_split_nosep(w, 0, Seq::empty());
    assert(Seq::<char>::empty() + w.skip(0) =~= w);
    assert(raw_tokens(w) == seq![w]);
    assert(seq![w][0] == w);
    assert(seq![w].drop_first() =~= Seq::<Seq<char>>::empty());
    assert(drop_and(Seq::<Seq<char>>::empty()) == Seq::<Seq<char>>::empty());
    assert(drop_and(seq![w]) =~= seq![w]);
}

proof fn lemma_unit_word_tokens(w: Seq<char>)
    requires
        unit_val(lower_seq(w)) is Some,
    ensures
        concat_tokens_of(w) == seq![w],
{
    let l = lower_seq(w);
    reveal_strlit("and");
    reveal_strlit("zero");
    reveal_strlit("oh");
    reveal_strlit("one");
    reveal_strlit("two");
    reveal_strlit("three");
    reveal_strlit("four");
    reveal_strlit("five");
    reveal_strlit("six");
    reveal_strlit("seven");
    reveal_strlit("eight");
    reveal_strlit("nine");
    if l == "zero"@ {
        assert(forall|j: int| 0 <= j < l.len() ==> !is_sep(#[trigger] l[j]));
        plain_word_tokens(w, l);
    } else if l == "oh"@ {
        assert(forall|j: int| 0 <= j < l.len() ==> !is_sep(#[trigger] l[j]));
        plain_word_tokens(w, l);
    } else if l == "one"@ {
        assert(forall|j: int| 0 <= j < l.len() ==> !is_sep(#[trigger] l[j]));
        plain_word_tokens(w, l);
    } else if l == "two"@ {
        assert(forall|j: int| 0 <= j < l.len() ==> !is_sep(#[trigger] l[j]));
        plain_word_tokens(w, l);
    } else if l == "three"@ {
        assert(forall|j: int| 0 <= j < l.len() ==> !is_sep(#[trigger] l[j]));
        plain_word_tokens(w, l);
    } else if l == "four"@ {
        assert(forall|j: int| 0 <= j < l.len() ==> !is_sep(#[trigger] l[j]));
        plain_word_tokens(w, l);
    } else if l == "five"@ {
        assert(forall|j: int| 0 <= j < l.len() ==> !is_sep(#[trigger] l[j]));
        plain_word_tokens(w, l);
    } else if l == "six"@ {
        assert(forall|j: int| 0 <= j < l.len() ==> !is_sep(#[trigger] l[j]));
        plain_word_tokens(w, l);
    } else if l == "seven"@ {
        assert(forall|j: int| 0 <= j < l.len() ==> !is_sep(#[trigger] l[j]));
        plain_word_tokens(w, l);
    } else if l == "eight"@ {
        assert(forall|j: int| 0 <= j < l.len() ==> !is_sep(#[trigger] l[j]));
        plain_word_tokens(w, l);
    } else {
        assert(l == "nine"@);
        assert(forall|j: int| 0 <= j < l.len() ==> !is_sep(#[trigger] l[j]));
        plain_word_tokens(w, l);
    }
}

proof fn lemma_teen_word_tokens(w: Seq<char>)
    requires
        teen_val(lower_seq(w)) is Some,
    ensures
        concat_tokens_of(w) == seq![w],
{
    let l = lower_seq(w);
    reveal_strlit("and");
    reveal_strlit("ten");
    reveal_strlit("eleven");
    reveal_strlit("twelve");
    reveal_strlit("thirteen");
    reveal_strlit("fourteen");
    reveal_strlit("fifteen");
    reveal_strlit("sixteen");
    reveal_strlit("seventeen");
    reveal_strlit("eighteen");
    reveal_strlit("nineteen");
    if l == "ten"@ {
        assert(forall|j: int| 0 <= j < l.len() ==> !is_sep(#[trigger] l[j]));
        plain_word_tokens(w, l);
    } else if l == "eleven"@ {
        assert(forall|j: int| 0 <= j < l.len() ==> !is_sep(#[trigger] l[j]));
        plain_word_tokens(w, l);
    } else if l == "twelve"@ {
        assert(forall|j: int| 0 <= j < l.len() ==> !is_sep(#[trigger] l[j]));
        plain_word_tokens(w, l);
    } else if l == "thirteen"@ {
        assert(forall|j: int| 0 <= j < l.len() ==> !is_sep(#[trigger] l[j]));
        plain_word_tokens(w, l);
    } else if l == "fourteen"@ {
        assert(forall|j: int| 0 <= j < l.len() ==> !is_sep(#[trigger] l[j]));
        plain_word_tokens(w, l);
    } else if l == "fifteen"@ {
        assert(forall|j: int| 0 <= j < l.len() ==> !is_sep(#[trigger] l[j]));
        plain_word_tokens(w, l);
    } else if l == "sixteen"@ {
        assert(forall|j: int| 0 <= j < l.len() ==> !is_sep(#[trigger] l[j]));
        plain_word_tokens(w, l);
    } else if l == "seventeen"@ {
        assert(forall|j: int| 0 <= j < l.len() ==> !is_sep(#[trigger] l[j]));
        plain_word_tokens(w, l);
    } else if l == "eighteen"@ {
        assert(forall|j: int| 0 <= j < l.len() ==> !is_sep(#[trigger] l[j]));
        plain_word_tokens(w, l);
    } else {
        assert(l == "nineteen"@);
        assert(forall|j: int| 0 <= j < l.len() ==> !is_sep(#[trigger] l[j]));
        plain_word_tokens(w, l);
    }
}

proof fn lemma_tens_word_tokens(w: Seq<char>)
    requires
        tens_val(lower_seq(w)) is Some,
    ensures
        concat_tokens_of(w) == seq![w],
{
    let l = lower_seq(w);
    reveal_strlit("and");
    reveal_strlit("twenty");
    reveal_strlit("thirty");
    reveal_strlit("forty");
    reveal_strlit("fifty");
    reveal_strlit("sixty");
    reveal_strlit("seventy");
    reveal_strlit("eighty");
    reveal_strlit("ninety");
    if l == "twenty"@ {
        assert(forall|j: int| 0 <= j < l.len() ==> !is_sep(#[trigger] l[j]));
        plain_word_tokens(w, l);
    } else if l == "thirty"@ {
        assert(forall|j: int| 0 <= j < l.len() ==> !is_sep(#[trigger] l[j]));
        plain_word_tokens(w, l);
    } else if l == "forty"@ {
        assert(forall|j: int| 0 <= j < l.len() ==> !is_sep(#[trigger] l[j]));
        plain_word_tokens(w, l);
    } else if l == "fifty"@ {
        assert(forall|j: int| 0 <= j < l.len() ==> !is_sep(#[trigger] l[j]));
        plain_word_tokens(w, l);
    } else if l == "sixty"@ {
        assert(forall|j: int| 0 <= j < l.len() ==> !is_sep(#[trigger] l[j]));
        plain_word_tokens(w, l);
    } else if l == "seventy"@ {
        assert(forall|j: int| 0 <= j < l.len() ==> !is_sep(#[trigger] l[j]));
        plain_word_tokens(w, l);
    } else if l == "eighty"@ {
        assert(forall|j: int| 0 <= j < l.len() ==> !is_sep(#[trigger] l[j]));
        plain_word_tokens(w, l);
    } else {
        assert(l == "ninety"@);
        assert(forall|j: int| 0 <= j < l.len() ==> !is_sep(#[trigger] l[j]));
        plain_word_tokens(w, l);
    }
}

/// A standalone unit, teen or tens word reads, concatenatively, as
/// exactly that word's own value.
pub proof fn lemma_single_number_word(w: Seq<char>)
    requires
        add_unit_val(lower_seq(w)) is Some,
    ensures
        concat_value(w) == Some(add_unit_val(lower_seq(w))->0),
{
    let l = lower_seq(w);
    if unit_val(l) is Some {
        lemma_unit_word_tokens(w);
    } else if teen_val(l) is Some {
        lemma_teen_word_tokens(w);
    } else {
        lemma_tens_word_tokens(w);
    }
    let ts = seq![w];
    assert(ts[0] == w);
    assert(ts.len() == 1);
    assert(concat_value(w) == concat_run(ts, 0, 0, 0));
    let v = add_unit_val(l)->0;
    if unit_val(l) is Some {
        assert(0 <= v <= 9);
        assert(concat_run(ts, 0, 0, 0) == concat_run(ts, 1, v, 0));
        assert(concat_run(ts, 1, v, 0) == Some(v));
    } else if teen_val(l) is Some {
        assert(10 <= v <= 19);
        assert(concat_run(ts, 0, 0, 0) == concat_run(ts, 1, v, 0));
        assert(concat_run(ts, 1, v, 0) == Some(v));
    } else {
        assert(20 <= v <= 90);
        assert(concat_run(ts, 0, 0, 0) == concat_run(ts, 1, v, 0));
        assert(concat_run(ts, 1, v, 0) == Some(v));
    }
}

/// Turning every hyphen into a space.
pub open spec fn hyphen_to_space(c: char) -> char {
    if c == '-' {
        ' '
    } else {
        c
    }
}

/// A string with every hyphen turned into a space.
pub open spec fn hyphens_as_spaces(s: Seq<char>) -> Seq<char> {
    s.map_values(|c: char| hyphen_to_space(c))
}

proof fn lemma_split_hyphen(s: Seq<char>, i: int, cur: Seq<char>)
    requires
        0 <= i <= s.len(),
    ensures
        split_acc(hyphens_as_spaces(s), i, cur) == split_acc(s, i, cur),
    decreases s.len() - i,
{
    let s2 = hyphens_as_spaces(s);
    assert(s2.len() == s.len());
    if i < s.len() {
        assert(s2[i] == hyphen_to_space(s[i]));
        if is_sep(s[i]) {
            lemma_split_hyphen(s, i + 1, Seq::empty());
        } else {
            assert(s2[i] == s[i]);
            lemma_split_hyphen(s, i + 1, cur.push(s[i]));
        }
    }
}

/// Hyphenated input is equivalent to space-separated input, for both
/// interpreters.
pub proof fn lemma_hyphens_equal_spaces(s: Seq<char>)
    ensures
        concat_value(hyphens_as_spaces(s)) == concat_value(s),
        additive_value(hyphens_as_spaces(s)) == additive_value(s),
{
    lemma_split_hyphen(s, 0, Seq::empty());
    assert(raw_tokens(hyphens_as_spaces(s)) == raw_tokens(s));
}

/// Dropping "and" tokens commutes with inserting one.
proof fn lemma_drop_and_insert(ts: Seq<Seq<char>>, k: int, a: Seq<char>)
    requires
        0 <= k <= ts.len(),
        lower_seq(a) == "and"@,
    ensures
        drop_and(ts.insert(k, a)) == drop_and(ts),
    decreases k,
{
    let u = ts.insert(k, a);
    if k == 0 {
        assert(u =~= seq![a] + ts);
        assert(u[0] == a);
        assert(u.drop_first() =~= ts);
    } else {
        assert(u[0] == ts[0]);
        assert(u.drop_first() =~= ts.drop_first().insert(k - 1, a));
        lemma_drop_and_insert(ts.drop_first(), k - 1, a);
        if lower_seq(ts[0]) == "and"@ {
        } else {
            assert(seq![u[0]] + drop_and(u.drop_first()) == seq![ts[0]] + drop_and(
                ts.drop_first(),
            ));
        }
    }
}

/// The additive run only reads the tokens from its position on.
proof fn lemma_additive_shift(ts: Seq<Seq<char>>, k: int, i: int, cur: int, tot: int)
    requires
        0 <= k <= i <= ts.len(),
    ensures
        additive_run(ts, i, cur, tot) == additive_run(ts.skip(k), i - k, cur, tot),
    decreases ts.len() - i,
{
    let u = ts.skip(k);
    assert(u.len() == ts.len() - k);
    if i < ts.len() {
        assert(u[i - k] == ts[i]);
        let w = lower_seq(ts[i]);
        if add_unit_val(w) is Some {
            if cur + add_unit_val(w)->0 <= i64::MAX {
                lemma_additive_shift(ts, k, i + 1, cur + add_unit_val(w)->0, tot);
            }
        } else if scale_val(w) is Some {
            let m = scale_val(w)->0;
            if m == 100 {
                if cur * 100 <= i64::MAX {
                    lemma_additive_shift(ts, k, i + 1, cur * 100, tot);
                }
            } else {
                if cur * m <= i64::MAX && tot + cur * m <= i64::MAX {
                    lemma_additive_shift(ts, k, i + 1, 0, tot + cur * m);
                }
            }
        } else if w == "and"@ {
            lemma_additive_shift(ts, k, i + 1, cur, tot);
        }
    }
}

/// "and" is in no lexicon: it is purely a separator word.
proof fn lemma_and_not_in_lexicons()
    ensures
        add_unit_val("and"@) is None,
        scale_val("and"@) is None,
{
    reveal_strlit("and");
    reveal_strlit("zero");
    reveal_strlit("oh");
    reveal_strlit("one");
    reveal_strlit("two");
    reveal_strlit("three");
    reveal_strlit("four");
    reveal_strlit("five");
    reveal_strlit("six");
    reveal_strlit("seven");
    reveal_strlit("eight");
    reveal_strlit("nine");
    reveal_strlit("ten");
    reveal_strlit("eleven");
    reveal_strlit("twelve");
    reveal_strlit("thirteen");
    reveal_strlit("fourteen");
    reveal_strlit("fifteen");
    reveal_strlit("sixteen");
    reveal_strlit("seventeen");
    reveal_strlit("eighteen");
    reveal_strlit("nineteen");
    reveal_strlit("twenty");
    reveal_strlit("thirty");
    reveal_strlit("forty");
    reveal_strlit("fifty");
    reveal_strlit("sixty");
    reveal_strlit("seventy");
    reveal_strlit("eighty");
    reveal_strlit("ninety");
    reveal_strlit("hundred");
    reveal_strlit("thousand");
    reveal_strlit("million");
    reveal_strlit("billion");
    let a = "and"@;
    assert(a.len() == 3);
    assert(a[0] == 'a');
    assert("one"@[0] == 'o');
    assert("two"@[0] == 't');
    assert("six"@[0] == 's');
    assert("ten"@[0] == 't');
    assert(add_unit_val(a) is None);
    assert(scale_val(a) is None);
}

/// The additive run treats its tokens exactly as if every "and" had been
/// removed first.
proof fn lemma_additive_drop_and(ts: Seq<Seq<char>>, i: int, cur: int, tot: int)
    requires
        0 <= i <= ts.len(),
    ensures
        additive_run(ts, i, cur, tot) == additive_run(drop_and(ts.skip(i)), 0, cur, tot),
    decreases ts.len() - i,
{
    let rest = ts.skip(i);
    if i >= ts.len() {
        assert(rest =~= Seq::<Seq<char>>::empty());
    } else {
        assert(rest[0] == ts[i]);
        assert(rest.drop_first() =~= ts.skip(i + 1));
        let w = lower_seq(ts[i]);
        let d = drop_and(ts.skip(i + 1));
        if w == "and"@ {
            lemma_and_not_in_lexicons();
            lemma_additive_drop_and(ts, i + 1, cur, tot);
            assert(drop_and(rest) == d);
            assert(additive_run(ts, i, cur, tot) == additive_run(ts, i + 1, cur, tot));
        } else {
            let u = seq![ts[i]] + d;
            assert(drop_and(rest) == u);
            assert(u[0] == ts[i]);
            assert(u.skip(1) =~= d);
            assert(u.len() == 1 + d.len());
            if add_unit_val(w) is Some {
                let c2 = cur + add_unit_val(w)->0;
                if c2 <= i64::MAX {
                    lemma_additive_drop_and(ts, i + 1, c2, tot);
                    lemma_additive_shift(u, 1, 1, c2, tot);
                    assert(additive_run(u, 0, cur, tot) == additive_run(u, 1, c2, tot));
                    assert(additive_run(u, 1, c2, tot) == additive_run(d, 0, c2, tot));
                    assert(additive_run(ts, i, cur, tot) == additive_run(ts, i + 1, c2, tot));
                } else {
                    assert(additive_run(ts, i, cur, tot) is None);
                    assert(additive_run(u, 0, cur, tot) is None);
                }
            } else if scale_val(w) is Some {
                let m = scale_val(w)->0;
                if m == 100 {
                    let c2 = cur * 100;
                    if c2 <= i64::MAX {
                        lemma_additive_drop_and(ts, i + 1, c2, tot);
                        lemma_additive_shift(u, 1, 1, c2, tot);
                        assert(additive_run(u, 0, cur, tot) == additive_run(u, 1, c2, tot));
                        assert(additive_run(u, 1, c2, tot) == additive_run(d, 0, c2, tot));
                        assert(additive_run(ts, i, cur, tot) == additive_run(ts, i + 1, c2, tot));
                    } else {
                        assert(additive_run(ts, i, cur, tot) is None);
                        assert(additive_run(u, 0, cur, tot) is None);
                    }
                } else {
                    let t2 = tot + cur * m;
                    if cur * m <= i64::MAX && t2 <= i64::MAX {
                        lemma_additive_drop_and(ts, i + 1, 0, t2);
                        lemma_additive_shift(u, 1, 1, 0, t2);
                        assert(additive_run(u, 0, cur, tot) == additive_run(u, 1, 0, t2));
                        assert(additive_run(u, 1, 0, t2) == additive_run(d, 0, 0, t2));
                        assert(additive_run(ts, i, cur, tot) == additive_run(ts, i + 1, 0, t2));
                    } else {
                        assert(additive_run(ts, i, cur, tot) is None);
                        assert(additive_run(u, 0, cur, tot) is None);
                    }
                }
            } else {
                assert(additive_run(ts, i, cur, tot) is None);
                assert(additive_run(u, 0, cur, tot) is None);
            }
        }
    }
}

/// Inserting an "and" token anywhere never changes the additive result.
pub proof fn lemma_and_token_additive(ts: Seq<Seq<char>>, k: int, a: Seq<char>)
    requires
        0 <= k <= ts.len(),
        lower_seq(a) == "and"@,
    ensures
        additive_run(ts.insert(k, a), 0, 0, 0) == additive_run(ts, 0, 0, 0),
{
    let u = ts.insert(k, a);
    lemma_additive_drop_and(u, 0, 0, 0);
    assert(u.skip(0) =~= u);
    lemma_drop_and_insert(ts, k, a);
    lemma_additive_drop_and(ts, 0, 0, 0);
    assert(ts.skip(0) =~= ts);
}

/// Inserting an "and" token anywhere never changes the concatenative
/// result, which filters "and" out before interpreting.
pub proof fn lemma_and_token_concat(ts: Seq<Seq<char>>, k: int, a: Seq<char>)
    requires
        0 <= k <= ts.len(),
        lower_seq(a) == "and"@,
    ensures
        concat_raw_value(ts.insert(k, a)) == concat_raw_value(ts),
{
    lemma_drop_and_insert(ts, k, a);
}

/// A token recognized by no concatenative lexicon fails the whole run.
proof fn lemma_concat_run_unknown(ws: Seq<Seq<char>>, i: int, cur: int, res: int, k: int)
    requires
        0 <= i <= k < ws.len(),
        unit_val(lower_seq(ws[k])) is None,
        teen_val(lower_seq(ws[k])) is None,
        tens_val(lower_seq(ws[k])) is None,
        mult_val(lower_seq(ws[k])) is None,
    ensures
        concat_run(ws, i, cur, res) is None,
    decreases ws.len() - i,
{
    if i < k {
        let w = lower_seq(ws[i]);
        if unit_val(w) is Some {
            let c2 = cur * 10 + unit_val(w)->0;
            if c2 <= i64::MAX {
                lemma_concat_run_unknown(ws, i + 1, c2, res, k);
            }
        } else if teen_val(w) is Some {
            let c2 = cur * 100 + teen_val(w)->0;
            if c2 <= i64::MAX {
                lemma_concat_run_unknown(ws, i + 1, c2, res, k);
            }
        } else if tens_val(w) is Some {
            if i + 1 < ws.len() && unit_val(lower_seq(ws[i + 1])) is Some && unit_val(
                lower_seq(ws[i + 1]),
            )->0 != 0 {
                let c2 = cur * 100 + tens_val(w)->0 + unit_val(lower_seq(ws[i + 1]))->0;
                if c2 <= i64::MAX {
                    lemma_concat_run_unknown(ws, i + 2, c2, res, k);
                }
            } else {
                let c2 = cur * 100 + tens_val(w)->0;
                if c2 <= i64::MAX {
                    lemma_concat_run_unknown(ws, i + 1, c2, res, k);
                }
            }
        } else if mult_val(w) is Some {
            let c2 = (if cur == 0 {
                1int
            } else {
                cur
            }) * mult_val(w)->0;
            if c2 <= i64::MAX && res + c2 <= i64::MAX {
                lemma_concat_run_unknown(ws, i + 1, 0, res + c2, k);
            }
        }
    }
}

/// An input holding a token outside every concatenative lexicon fails.
pub proof fn lemma_unknown_word_concat(s: Seq<char>, k: int)
    requires
        0 <= k < concat_tokens_of(s).len(),
        unit_val(lower_seq(concat_tokens_of(s)[k])) is None,
        teen_val(lower_seq(concat_tokens_of(s)[k])) is None,
        tens_val(lower_seq(concat_tokens_of(s)[k])) is None,
        mult_val(lower_seq(concat_tokens_of(s)[k])) is None,
    ensures
        concat_value(s) is None,
{
    lemma_concat_run_unknown(concat_tokens_of(s), 0, 0, 0, k);
}

/// A token the additive interpreter recognizes nowhere fails its run.
proof fn lemma_additive_run_unknown(ws: Seq<Seq<char>>, i: int, cur: int, tot: int, k: int)
    requires
        0 <= i <= k < ws.len(),
        add_unit_val(lower_seq(ws[k])) is None,
        scale_val(lower_seq(ws[k])) is None,
        lower_seq(ws[k]) != "and"@,
    ensures
        additive_run(ws, i, cur, tot) is None,
    decreases ws.len() - i,
{
    if i < k {
        let w = lower_seq(ws[i]);
        if add_unit_val(w) is Some {
            let c2 = cur + add_unit_val(w)->0;
            if c2 <= i64::MAX {
                lemma_additive_run_unknown(ws, i + 1, c2, tot, k);
            }
        } else if scale_val(w) is Some {
            let m = scale_val(w)->0;
            if m == 100 {
                if cur * 100 <= i64::MAX {
                    lemma_additive_run_unknown(ws, i + 1, cur * 100, tot, k);
                }
            } else {
                if cur * m <= i64::MAX && tot + cur * m <= i64::MAX {
                    lemma_additive_run_unknown(ws, i + 1, 0, tot + cur * m, k);
                }
            }
        } else if w == "and"@ {
            lemma_additive_run_unknown(ws, i + 1, cur, tot, k);
        }
    }
}

/// An input holding a trimmed token outside the additive lexicons fails.
pub proof fn lemma_unknown_word_additive(s: Seq<char>, k: int)
    requires
        0 <= k < additive_tokens_of(s).len(),
        add_unit_val(lower_seq(additive_tokens_of(s)[k])) is None,
        scale_val(lower_seq(additive_tokens_of(s)[k])) is None,
        lower_seq(additive_tokens_of(s)[k]) != "and"@,
    ensures
        additive_value(s) is None,
{
    lemma_additive_run_unknown(additive_tokens_of(s), 0, 0, 0, k);
}

/// A run of digits is never read as a number word, so a value the
/// scanner has written is never matched again.
pub proof fn lemma_digit_run_no_number_word(r: Seq<char>)
    requires
        r.len() >= 1,
        forall|i: int| 0 <= i < r.len() ==> is_digit(#[trigger] r[i]),
    ensures
        !is_first_word(lower_seq(r)),
{
    assert(lower_seq(r) =~= r) by {
        assert forall|i: int| 0 <= i < r.len() implies lower_seq(r)[i] == r[i] by {
            assert(lower_seq(r)[i] == lower_char(r[i]));
        }
    }
    reveal_strlit("zero");
    reveal_strlit("oh");
    reveal_strlit("one");
    reveal_strlit("two");
    reveal_strlit("three");
    reveal_strlit("four");
    reveal_strlit("five");
    reveal_strlit("six");
    reveal_strlit("seven");
    reveal_strlit("eight");
    reveal_strlit("nine");
    reveal_strlit("ten");
    reveal_strlit("eleven");
    reveal_strlit("twelve");
    reveal_strlit("thirteen");
    reveal_strlit("fourteen");
    reveal_strlit("fifteen");
    reveal_strlit("sixteen");
    reveal_strlit("seventeen");
    reveal_strlit("eighteen");
    reveal_strlit("nineteen");
    reveal_strlit("twenty");
    reveal_strlit("thirty");
    reveal_strlit("forty");
    reveal_strlit("fifty");
    reveal_strlit("sixty");
    reveal_strlit("seventy");
    reveal_strlit("eighty");
    reveal_strlit("ninety");
    reveal_strlit("hundred");
    reveal_strlit("thousand");    assert(is_digit(r[0]));
    assert(!is_first_word(r));
}

/// A rendered replacement value, padded or not, is never read as a
/// number word again.
pub proof fn lemma_rendered_no_number_word(n: int, pad: Option<usize>)
    requires
        n >= 0,
    ensures
        rendered(n, pad).len() >= 1,
        forall|i: int| 0 <= i < rendered(n, pad).len() ==> is_digit(#[trigger] rendered(n, pad)[i]),
        !is_first_word(lower_seq(rendered(n, pad))),
{
    lemma_dec_digits_are_digits(n);
    let r = rendered(n, pad);
    assert forall|i: int| 0 <= i < r.len() implies is_digit(#[trigger] r[i]) by {
        match pad {
            Some(w) => {
                let z = zeroes(w - dec_digits(n).len());
                if i < z.len() {
                    assert(r[i] == '0');
                } else {
                    assert(r[i] == dec_digits(n)[i - z.len()]);
                }
            },
            None => {
                assert(r[i] == dec_digits(n)[i]);
            },
        }
    }
    lemma_digit_run_no_number_word(r);
}

/// Scanning a scanner's output suffix changes nothing; and where no
/// extension was possible in the input, none is in the output.
#[verifier::rlimit(100)]
proof fn lemma_idem_from(s: Seq<char>, pad: Option<usize>, again: Option<usize>, i: int)
    requires
        0 <= i <= s.len(),
    ensures
        scan_from(scan_from(s, pad, i), again, 0) == scan_from(s, pad, i),
        ext_blocked(s, i) ==> ext_blocked(scan_from(s, pad, i), 0),
    decreases s.len() - i,
{
    let y = scan_from(s, pad, i);
    if i == s.len() {
        assert(y =~= Seq::<char>::empty());
        assert(scan_from(y, again, 0) == y);
        assert(sep_end(y, 0) == 0);
    } else if !is_word_char(s[i]) {
        let c = s[i];
        let y1 = scan_from(s, pad, i + 1);
        lemma_idem_from(s, pad, again, i + 1);
        assert(y == seq![c] + y1);
        assert(y[0] == c);
        assert(y.skip(1) =~= y1);
        lemma_scan_shift(y, again, 1, 1);
        assert(scan_from(y, again, 1) == scan_from(y1, again, 0));
        assert(scan_from(y, again, 0) == seq![y[0]] + scan_from(y, again, 1));
        assert(scan_from(y, again, 0) =~= y);
        if ext_blocked(s, i) {
            if !is_sep(c) {
                assert(sep_end(y, 0) == 0);
            } else {
                assert(sep_end(s, i) == sep_end(s, i + 1));
                lemma_sep_end(s, i + 1);
                let ks = sep_end(s, i + 1);
                assert(ext_blocked(s, i + 1));
                assert(ext_blocked(y1, 0));
                lemma_sep_end(y1, 0);
                let k1 = sep_end(y1, 0);
                lemma_sep_end_shift(y, 1, 1);
                assert(sep_end(y, 1) == 1 + k1);
                assert(sep_end(y, 0) == 1 + k1);
                let ky = 1 + k1;
                if k1 == 0 {
                    if i + 1 == s.len() {
                        assert(y1 =~= Seq::<char>::empty());
                        assert(y.len() == 1);
                        assert(ext_blocked(y, 0));
                    } else if is_word_char(s[i + 1]) {
                        assert(!is_sep(s[i + 1]));
                        assert(sep_end(s, i + 1) == i + 1);
                        assert(!is_inner_word(
                            lower_seq(s.subrange(i + 1, word_end(s, i + 1))),
                        ));
                        lemma_head_shape(s, pad, i + 1);
                        lemma_word_end(y1, 0);
                        lemma_word_end_shift(y, 1, 1);
                        assert(word_end(y, 1) == 1 + word_end(y1, 0));
                        assert(y.subrange(1, word_end(y, 1)) =~= y1.subrange(
                            0,
                            word_end(y1, 0),
                        ));
                        assert(ext_blocked(y, 0));
                    } else {
                        assert(y1 == seq![s[i + 1]] + scan_from(s, pad, i + 2));
                        assert(y1[0] == s[i + 1]);
                        assert(y[ky] == y1[0]);
                        assert(!is_word_char(y[ky]));
                        assert(ext_blocked(y, 0));
                    }
                } else {
                    if k1 < y1.len() && is_word_char(y1[k1]) {
                        assert(y[ky] == y1[k1]);
                        lemma_word_end(y1, k1);
                        lemma_word_end_shift(y, 1, ky);
                        assert(word_end(y, ky) == 1 + word_end(y1, k1));
                        assert(y.subrange(ky, word_end(y, ky)) =~= y1.subrange(
                            k1,
                            word_end(y1, k1),
                        ));
                        assert(!is_inner_word(
                            lower_seq(y.subrange(ky, word_end(y, ky))),
                        ));
                    }
                    assert(ext_blocked(y, 0));
                }
            }
        }
    } else {
        lemma_word_end(s, i);
        let j = word_end(s, i);
        let w = lower_seq(s.subrange(i, j));
        if !is_first_word(w) {
            let y2 = scan_from(s, pad, j);
            lemma_idem_from(s, pad, again, j);
            assert(y == s.subrange(i, j) + y2);
            assert(y[0] == s[i]);
            assert forall|q: int| 0 <= q < j - i implies is_word_char(#[trigger] y[q]) by {
                assert(y[q] == s[i + q]);
            }
            if j == s.len() {
                assert(y2 =~= Seq::<char>::empty());
                assert(y.len() == j - i);
            } else {
                assert(y2[0] == s[j]);
                assert(y[j - i] == s[j]);
            }
            lemma_word_end_is(y, 0, j - i);
            assert(y.subrange(0, j - i) =~= s.subrange(i, j));
            assert(scan_from(y, again, 0) == y.subrange(0, j - i) + scan_from(
                y,
                again,
                j - i,
            ));
            lemma_scan_shift(y, again, j - i, j - i);
            assert(y.skip(j - i) =~= y2);
            assert(scan_from(y, again, j - i) == scan_from(y2, again, 0));
            assert(scan_from(y, again, 0) =~= y);
            assert(!is_sep(y[0]));
            assert(sep_end(y, 0) == 0);
        } else {
            lemma_match_end(s, j);
            lemma_match_end_nonword(s, j);
            lemma_match_end_stop(s, j);
            let e = match_end(s, j);
            let y2 = scan_from(s, pad, e);
            lemma_idem_from(s, pad, again, e);
            let toks = span_tokens(s, i, e);
            match concat_run(toks, 0, 0, 0) {
                Some(n) => {
                    lemma_concat_run_nonneg(toks, 0, 0, 0);
                    lemma_rendered_no_number_word(n, pad);
                    let r = rendered(n, pad);
                    assert(y == r + y2);
                    assert(y[0] == r[0]);
                    assert forall|q: int| 0 <= q < r.len() implies is_word_char(
                        #[trigger] y[q],
                    ) by {
                        assert(y[q] == r[q]);
                    }
                    if e == s.len() {
                        assert(y2 =~= Seq::<char>::empty());
                        assert(y.len() == r.len());
                    } else {
                        assert(y2[0] == s[e]);
                        assert(y[r.len() as int] == s[e]);
                    }
                    lemma_word_end_is(y, 0, r.len() as int);
                    assert(y.subrange(0, r.len() as int) =~= r);
                    assert(scan_from(y, again, 0) == y.subrange(0, r.len() as int)
                        + scan_from(y, again, r.len() as int));
                    lemma_scan_shift(y, again, r.len() as int, r.len() as int);
                    assert(y.skip(r.len() as int) =~= y2);
                    assert(scan_from(y, again, r.len() as int) == scan_from(y2, again, 0));
                    assert(scan_from(y, again, 0) =~= y);
                    assert(!is_sep(y[0]));
                    assert(sep_end(y, 0) == 0);
                },
                None => {
                    assert(y == s.subrange(i, e) + y2);
                    assert(y[0] == s[i]);
                    assert forall|q: int| 0 <= q < e - i implies y[q] == s[i + q] by {}
                    assert forall|q: int| 0 <= q < j - i implies is_word_char(
                        #[trigger] y[q],
                    ) by {
                        assert(y[q] == s[i + q]);
                    }
                    if e == s.len() {
                        assert(y2 =~= Seq::<char>::empty());
                        assert(y.len() == e - i);
                    } else {
                        assert(y2[0] == s[e]);
                        assert(y[e - i] == s[e]);
                    }
                    if j < e {
                        assert(y[j - i] == s[j]);
                        assert(!is_word_char(y[j - i]));
                    }
                    lemma_word_end_is(y, 0, j - i);
                    assert(y.subrange(0, j - i) =~= s.subrange(i, j));
                    let z = s.skip(i);
                    lemma_match_end_shift(s, i, j);
                    assert(match_end(z, j - i) == e - i);
                    assert forall|q: int| j - i <= q < e - i implies y[q] == #[trigger] z[q] by {
                        assert(y[q] == s[i + q]);
                        assert(z[q] == s[i + q]);
                    }
                    assert(ext_blocked(s, e));
                    assert(ext_blocked(y2, 0));
                    lemma_blocked_shift(y, e - i);
                    assert(y.skip(e - i) =~= y2);
                    assert(ext_blocked(y, e - i));
                    if e < s.len() {
                        assert(y[e - i] == z[e - i]);
                        assert(!is_word_char(z[e - i]));
                    }
                    lemma_match_agree(y, z, j - i, e - i);
                    assert(match_end(y, j - i) == e - i);
                    lemma_span_tokens_shift(s, i, i, e);
                    assert forall|q: int| 0 <= q < e - i implies y[q] == #[trigger] z[q] by {
                        assert(y[q] == s[i + q]);
                        assert(z[q] == s[i + q]);
                    }
                    lemma_span_agree(y, z, 0, e - i);
                    assert(span_tokens(y, 0, e - i) == toks);
                    assert(scan_from(y, again, 0) == y.subrange(0, e - i) + scan_from(
                        y,
                        again,
                        e - i,
                    ));
                    lemma_scan_shift(y, again, e - i, e - i);
                    assert(scan_from(y, again, e - i) == scan_from(y2, again, 0));
                    assert(y.subrange(0, e - i) =~= s.subrange(i, e));
                    assert(scan_from(y, again, 0) =~= y);
                    assert(!is_sep(y[0]));
                    assert(sep_end(y, 0) == 0);
                },
            }
        }
    }
}

/// Re-running the scanner on its own output, with any padding, is a
/// no-op: replaced phrases have become digits, which the word grammar
/// never matches, and everything else was left as it stood.
pub proof fn lemma_scan_idempotent(s: Seq<char>, pad: Option<usize>, again: Option<usize>)
    ensures
        scan_text(scan_text(s, pad), again) == scan_text(s, pad),
{
    lemma_idem_from(s, pad, again, 0);
}

/// The scanner's output is empty only for empty input, its first
/// character is the input's first character or a digit, and its last
/// character is the input's last character or a digit.
proof fn lemma_scan_ends(s: Seq<char>, pad: Option<usize>, i: int)
    requires
        0 <= i < s.len(),
    ensures
        scan_from(s, pad, i).len() > 0,
        scan_from(s, pad, i)[0] == s[i] || is_digit(scan_from(s, pad, i)[0]),
        scan_from(s, pad, i).last() == s.last() || is_digit(scan_from(s, pad, i).last()),
    decreases s.len() - i,
{
    let y = scan_from(s, pad, i);
    if !is_word_char(s[i]) {
        let y1 = scan_from(s, pad, i + 1);
        assert(y == seq![s[i]] + y1);
        assert(y[0] == s[i]);
        if i + 1 == s.len() {
            assert(y.len() == 1);
            assert(y.last() == s.last());
        } else {
            lemma_scan_ends(s, pad, i + 1);
            assert(y.last() == y1.last());
        }
    } else {
        lemma_word_end(s, i);
        let j = word_end(s, i);
        if !is_first_word(lower_seq(s.subrange(i, j))) {
            let y1 = scan_from(s, pad, j);
            assert(y == s.subrange(i, j) + y1);
            assert(y[0] == s[i]);
            if j == s.len() {
                assert(y1 =~= Seq::<char>::empty());
                assert(y.len() == j - i);
                assert(y.last() == s[j - 1]);
                assert(y.last() == s.last());
            } else {
                lemma_scan_ends(s, pad, j);
                assert(y.last() == y1.last());
            }
        } else {
            lemma_match_end(s, j);
            let e = match_end(s, j);
            let y1 = scan_from(s, pad, e);
            match concat_run(span_tokens(s, i, e), 0, 0, 0) {
                Some(n) => {
                    lemma_concat_run_nonneg(span_tokens(s, i, e), 0, 0, 0);
                    lemma_rendered_no_number_word(n, pad);
                    let r = rendered(n, pad);
                    assert(y == r + y1);
                    assert(y[0] == r[0]);
                    assert(is_digit(y[0]));
                    if e == s.len() {
                        assert(y1 =~= Seq::<char>::empty());
                        assert(y.len() == r.len());
                        assert(y.last() == r.last());
                        assert(is_digit(y.last()));
                    } else {
                        lemma_scan_ends(s, pad, e);
                        assert(y.last() == y1.last());
                    }
                },
                None => {
                    assert(y == s.subrange(i, e) + y1);
                    assert(y[0] == s[i]);
                    if e == s.len() {
                        assert(y1 =~= Seq::<char>::empty());
                        assert(y.len() == e - i);
                        assert(y.last() == s[e - 1]);
                        assert(y.last() == s.last());
                    } else {
                        lemma_scan_ends(s, pad, e);
                        assert(y.last() == y1.last());
                    }
                },
            }
        }
    }
}

/// Re-running the whole replacer on its own output, with any padding, is
/// a no-op: the quote pair, when one was kept, still wraps the unit, and
/// the scanned inner text scans to itself.
pub proof fn lemma_replace_idempotent(s: Seq<char>, pad: Option<usize>, again: Option<usize>)
    ensures
        scan_unit(scan_unit(s, pad), again) == scan_unit(s, pad),
{
    let y = scan_unit(s, pad);
    if is_quoted(s) {
        let inner = s.subrange(1, s.len() - 1);
        let t = scan_text(inner, pad);
        assert(y == seq!['"'] + t + seq!['"']);
        assert(y[0] == '"');
        assert(y[y.len() - 1] == '"');
        assert(is_quoted(y));
        assert(y.subrange(1, y.len() - 1) =~= t);
        lemma_scan_idempotent(inner, pad, again);
        assert(scan_unit(y, again) =~= y);
    } else {
        assert(y == scan_text(s, pad));
        lemma_scan_idempotent(s, pad, again);
        if s.len() == 0 {
            assert(y =~= Seq::<char>::empty());
            assert(!is_quoted(y));
        } else {
            lemma_scan_ends(s, pad, 0);
            if y.len() >= 2 && y[0] == '"' && y[y.len() - 1] == '"' {
                assert(!is_digit('"'));
                assert(s[0] == '"');
                assert(s.last() == '"');
                if s.len() == 1 {
                    assert(!is_word_char(s[0]));
                    assert(y =~= seq![s[0]] + scan_from(s, pad, 1));
                    assert(scan_from(s, pad, 1) =~= Seq::<char>::empty());
                    assert(y.len() == 1);
                } else {
                    assert(is_quoted(s));
                }
            }
            assert(!is_quoted(y));
        }
        assert(scan_unit(y, again) == scan_text(y, again));
    }
}

/// The scanner leaves text unchanged when no word run in it, taken at a
/// word boundary, is a number word: in particular it leaves its own
/// numeric replacements alone.
proof fn lemma_scan_fixed_from(s: Seq<char>, pad: Option<usize>, i: int)
    requires
        0 <= i <= s.len(),
        forall|p: int|
            i <= p < s.len() && is_word_char(#[trigger] s[p]) && (p == i || !is_word_char(
                s[p - 1],
            )) ==> !is_first_word(lower_seq(s.subrange(p, word_end(s, p)))),
    ensures
        scan_from(s, pad, i) == s.skip(i),
    decreases s.len() - i,
{
    if i >= s.len() {
        assert(s.skip(i) =~= Seq::<char>::empty());
    } else if !is_word_char(s[i]) {
        lemma_scan_fixed_from(s, pad, i + 1);
        assert(seq![s[i]] + s.skip(i + 1) =~= s.skip(i));
    } else {
        crate::scan::lemma_word_end(s, i);
        let j = word_end(s, i);
        assert(!is_first_word(lower_seq(s.subrange(i, j))));
        lemma_scan_fixed_from(s, pad, j);
        assert(s.subrange(i, j) + s.skip(j) =~= s.skip(i));
    }
}

/// The scanner is the identity on text without number phrases.
pub proof fn lemma_scan_fixed_point(s: Seq<char>, pad: Option<usize>)
    requires
        forall|p: int|
            0 <= p < s.len() && is_word_char(#[trigger] s[p]) && (p == 0 || !is_word_char(
                s[p - 1],
            )) ==> !is_first_word(lower_seq(s.subrange(p, word_end(s, p)))),
    ensures
        scan_text(s, pad) == s,
{
    lemma_scan_fixed_from(s, pad, 0);
    assert(s.skip(0) =~= s);
}

/// Scanning a value the scanner has written is the identity: a numeric
/// replacement is one run of digits, and digits never match the phrase
/// grammar again.
pub proof fn lemma_scan_of_rendered(n: int, pad: Option<usize>, again: Option<usize>)
    requires
        n >= 0,
    ensures
        scan_text(rendered(n, pad), again) == rendered(n, pad),
{
    lemma_rendered_no_number_word(n, pad);
    let r = rendered(n, pad);
    assert forall|p: int|
        0 <= p < r.len() && is_word_char(#[trigger] r[p]) && (p == 0 || !is_word_char(
            r[p - 1],
        )) implies !is_first_word(lower_seq(r.subrange(p, word_end(r, p)))) by {
        assert(p == 0);
        lemma_word_end_all_digits(r, 0);
        assert(r.subrange(0, r.len() as int) =~= r);
    }
    lemma_scan_fixed_point(r, again);
}

/// The word run over a string of digits reaches its end.
proof fn lemma_word_end_all_digits(r: Seq<char>, i: int)
    requires
        0 <= i <= r.len(),
        forall|j: int| 0 <= j < r.len() ==> is_digit(#[trigger] r[j]),
    ensures
        word_end(r, i) == r.len(),
    decreases r.len() - i,
{
    if i < r.len() {
        lemma_word_end_all_digits(r, i + 1);
    }
}

/// A word run's end is determined by its characters.
proof fn lemma_word_end_is(s: Seq<char>, i: int, m: int)
    requires
        0 <= i <= m <= s.len(),
        forall|j: int| i <= j < m ==> is_word_char(#[trigger] s[j]),
        m == s.len() || !is_word_char(s[m]),
    ensures
        word_end(s, i) == m,
    decreases m - i,
{
    if i < m {
        lemma_word_end_is(s, i + 1, m);
    }
}

/// Word runs only depend on the string from the position on.
proof fn lemma_word_end_shift(s: Seq<char>, k: int, i: int)
    requires
        0 <= k <= i <= s.len(),
    ensures
        word_end(s, i) == k + word_end(s.skip(k), i - k),
    decreases s.len() - i,
{
    let u = s.skip(k);
    if i < s.len() {
        assert(u[i - k] == s[i]);
        if is_word_char(s[i]) {
            lemma_word_end_shift(s, k, i + 1);
        }
    }
}

/// Separator runs only depend on the string from the position on.
proof fn lemma_sep_end_shift(s: Seq<char>, k: int, i: int)
    requires
        0 <= k <= i <= s.len(),
    ensures
        sep_end(s, i) == k + sep_end(s.skip(k), i - k),
    decreases s.len() - i,
{
    let u = s.skip(k);
    if i < s.len() {
        assert(u[i - k] == s[i]);
        if is_sep(s[i]) {
            lemma_sep_end_shift(s, k, i + 1);
        }
    }
}

/// Phrase ends only depend on the string from the position on.
proof fn lemma_match_end_shift(s: Seq<char>, k: int, j: int)
    requires
        0 <= k <= j <= s.len(),
    ensures
        match_end(s, j) == k + match_end(s.skip(k), j - k),
    decreases s.len() - j,
{
    let u = s.skip(k);
    lemma_sep_end_shift(s, k, j);
    lemma_sep_end(s, j);
    let m = sep_end(s, j);
    if j < m && m < s.len() && is_word_char(s[m]) {
        lemma_word_end_shift(s, k, m);
        lemma_word_end(s, m);
        assert(u[m - k] == s[m]);
        assert(s.subrange(m, word_end(s, m)) =~= u.subrange(m - k, word_end(s, m) - k));
        if is_inner_word(lower_seq(s.subrange(m, word_end(s, m)))) {
            lemma_match_end_shift(s, k, word_end(s, m));
        }
    }
}

/// Span tokens only depend on the string from the position on.
proof fn lemma_span_tokens_shift(s: Seq<char>, k: int, i: int, e: int)
    requires
        0 <= k <= i,
        i <= e <= s.len(),
    ensures
        span_tokens(s, i, e) == span_tokens(s.skip(k), i - k, e - k),
    decreases e - i,
{
    let u = s.skip(k);
    if i < e {
        assert(u[i - k] == s[i]);
        if !is_word_char(s[i]) {
            lemma_span_tokens_shift(s, k, i + 1, e);
        } else {
            lemma_word_end_shift(s, k, i);
            lemma_word_end(s, i);
            let j = if word_end(s, i) < e {
                word_end(s, i)
            } else {
                e
            };
            assert(s.subrange(i, j) =~= u.subrange(i - k, j - k));
            lemma_span_tokens_shift(s, k, j, e);
        }
    }
}

/// The scanner's output only depends on the string from the position on.
proof fn lemma_scan_shift(s: Seq<char>, pad: Option<usize>, k: int, i: int)
    requires
        0 <= k <= i <= s.len(),
    ensures
        scan_from(s, pad, i) == scan_from(s.skip(k), pad, i - k),
    decreases s.len() - i,
{
    let u = s.skip(k);
    if i < s.len() {
        assert(u[i - k] == s[i]);
        if !is_word_char(s[i]) {
            lemma_scan_shift(s, pad, k, i + 1);
        } else {
            lemma_word_end(s, i);
            lemma_word_end_shift(s, k, i);
            let j = word_end(s, i);
            assert(s.subrange(i, j) =~= u.subrange(i - k, j - k));
            if !is_first_word(lower_seq(s.subrange(i, j))) {
                lemma_scan_shift(s, pad, k, j);
            } else {
                lemma_match_end(s, j);
                lemma_match_end_shift(s, k, j);
                let e = match_end(s, j);
                lemma_span_tokens_shift(s, k, i, e);
                assert(s.subrange(i, e) =~= u.subrange(i - k, e - k));
                lemma_scan_shift(s, pad, k, e);
            }
        }
    }
}

/// A phrase that started at a word boundary also ends at one.
proof fn lemma_match_end_nonword(s: Seq<char>, j: int)
    requires
        0 <= j <= s.len(),
        j == s.len() || !is_word_char(s[j]),
    ensures
        match_end(s, j) == s.len() || !is_word_char(s[match_end(s, j)]),
    decreases s.len() - j,
{
    lemma_sep_end(s, j);
    let k = sep_end(s, j);
    if j < k && k < s.len() && is_word_char(s[k]) && is_inner_word(
        lower_seq(s.subrange(k, word_end(s, k))),
    ) {
        lemma_word_end(s, k);
        lemma_match_end_nonword(s, word_end(s, k));
    }
}

/// No further extension is possible at a phrase's end.
proof fn lemma_match_end_stop(s: Seq<char>, j: int)
    requires
        0 <= j <= s.len(),
    ensures
        ext_blocked(s, match_end(s, j)),
        j <= match_end(s, j) <= s.len(),
    decreases s.len() - j,
{
    lemma_sep_end(s, j);
    lemma_match_end(s, j);
    let k = sep_end(s, j);
    if j < k && k < s.len() && is_word_char(s[k]) && is_inner_word(
        lower_seq(s.subrange(k, word_end(s, k))),
    ) {
        lemma_word_end(s, k);
        lemma_match_end_stop(s, word_end(s, k));
    }
}

/// No phrase extension can proceed from position `p`: there is no run of
/// one or more separators followed by an inner grammar word.
pub open spec fn ext_blocked(s: Seq<char>, p: int) -> bool {
    let k = sep_end(s, p);
    !(p < k && k < s.len() && is_word_char(s[k]) && is_inner_word(
        lower_seq(s.subrange(k, word_end(s, k))),
    ))
}

/// A separator run's end is determined by its characters.
proof fn lemma_sep_end_is(s: Seq<char>, i: int, m: int)
    requires
        0 <= i <= m <= s.len(),
        forall|j: int| i <= j < m ==> is_sep(#[trigger] s[j]),
        m == s.len() || !is_sep(s[m]),
    ensures
        sep_end(s, i) == m,
    decreases m - i,
{
    if i < m {
        lemma_sep_end_is(s, i + 1, m);
    }
}

/// Whether extension is blocked only depends on the string from the
/// position on.
proof fn lemma_blocked_shift(x: Seq<char>, p: int)
    requires
        0 <= p <= x.len(),
    ensures
        ext_blocked(x, p) == ext_blocked(x.skip(p), 0),
{
    let u = x.skip(p);
    lemma_sep_end_shift(x, p, p);
    lemma_sep_end(x, p);
    let k = sep_end(x, p);
    if p < k && k < x.len() {
        lemma_word_end_shift(x, p, k);
        lemma_word_end(x, k);
        assert(u[k - p] == x[k]);
        assert(x.subrange(k, word_end(x, k)) =~= u.subrange(k - p, word_end(x, k) - p));
    }
}

/// Clamped word-run ends agree on strings that agree below the clamp.
proof fn lemma_word_end_clamp(x: Seq<char>, z: Seq<char>, p: int, e0: int)
    requires
        0 <= p <= e0,
        e0 <= x.len(),
        e0 <= z.len(),
        forall|q: int| p <= q < e0 ==> x[q] == #[trigger] z[q],
    ensures
        (if word_end(x, p) < e0 {
            word_end(x, p)
        } else {
            e0
        }) == (if word_end(z, p) < e0 {
            word_end(z, p)
        } else {
            e0
        }),
    decreases e0 - p,
{
    lemma_word_end(x, p);
    lemma_word_end(z, p);
    if p < e0 {
        if is_word_char(x[p]) {
            lemma_word_end_clamp(x, z, p + 1, e0);
        }
    }
}

/// Span tokens agree on strings that agree below the span's end.
proof fn lemma_span_agree(x: Seq<char>, z: Seq<char>, p: int, e0: int)
    requires
        0 <= p <= e0,
        e0 <= x.len(),
        e0 <= z.len(),
        forall|q: int| p <= q < e0 ==> x[q] == #[trigger] z[q],
    ensures
        span_tokens(x, p, e0) == span_tokens(z, p, e0),
    decreases e0 - p,
{
    if p < e0 {
        if !is_word_char(x[p]) {
            lemma_span_agree(x, z, p + 1, e0);
        } else {
            lemma_word_end(x, p);
            lemma_word_end(z, p);
            lemma_word_end_clamp(x, z, p, e0);
            let m = if word_end(x, p) < e0 {
                word_end(x, p)
            } else {
                e0
            };
            assert(x.subrange(p, m) =~= z.subrange(p, m));
            lemma_span_agree(x, z, m, e0);
        }
    }
}

/// A phrase end carries over to a string that agrees up to that end and
/// is itself blocked there.
proof fn lemma_match_agree(x: Seq<char>, z: Seq<char>, j0: int, e0: int)
    requires
        0 <= j0 <= e0,
        e0 <= x.len(),
        e0 <= z.len(),
        forall|q: int| j0 <= q < e0 ==> x[q] == #[trigger] z[q],
        (e0 == x.len() && e0 == z.len()) || (e0 < x.len() && e0 < z.len() && x[e0] == z[e0]
            && !is_word_char(z[e0])),
        match_end(z, j0) == e0,
        ext_blocked(x, e0),
    ensures
        match_end(x, j0) == e0,
    decreases e0 - j0,
{
    lemma_sep_end(z, j0);
    lemma_sep_end(x, j0);
    lemma_match_end(z, j0);
    let kz = sep_end(z, j0);
    if j0 < kz && kz < z.len() && is_word_char(z[kz]) && is_inner_word(
        lower_seq(z.subrange(kz, word_end(z, kz))),
    ) {
        lemma_word_end(z, kz);
        let p0 = word_end(z, kz);
        lemma_match_end(z, p0);
        assert(match_end(z, p0) == e0);
        assert(p0 <= e0);
        assert forall|q: int| j0 <= q < kz implies is_sep(#[trigger] x[q]) by {
            assert(x[q] == z[q]);
        }
        assert(!is_sep(x[kz]));
        lemma_sep_end_is(x, j0, kz);
        assert forall|q: int| kz <= q < p0 implies is_word_char(#[trigger] x[q]) by {
            assert(x[q] == z[q]);
        }
        if p0 < e0 {
            assert(x[p0] == z[p0]);
            assert(!is_word_char(x[p0]));
        }
        lemma_word_end_is(x, kz, p0);
        assert(x.subrange(kz, p0) =~= z.subrange(kz, p0));
        lemma_match_agree(x, z, p0, e0);
    } else {
        assert(e0 == j0);
    }
}

/// Where the input starts with a word run that is no inner grammar word,
/// the scanner's output also starts with a word run that is no inner
/// grammar word.
proof fn lemma_head_shape(s: Seq<char>, pad: Option<usize>, p: int)
    requires
        0 <= p < s.len(),
        is_word_char(s[p]),
        !is_inner_word(lower_seq(s.subrange(p, word_end(s, p)))),
    ensures
        scan_from(s, pad, p).len() > 0,
        is_word_char(scan_from(s, pad, p)[0]),
        !is_inner_word(
            lower_seq(
                scan_from(s, pad, p).subrange(0, word_end(scan_from(s, pad, p), 0)),
            ),
        ),
{
    let y = scan_from(s, pad, p);
    lemma_word_end(s, p);
    let j = word_end(s, p);
    let w = lower_seq(s.subrange(p, j));
    if !is_first_word(w) {
        let y2 = scan_from(s, pad, j);
        assert(y == s.subrange(p, j) + y2);
        assert(y[0] == s[p]);
        assert forall|q: int| 0 <= q < j - p implies is_word_char(#[trigger] y[q]) by {
            assert(y[q] == s[p + q]);
        }
        if j == s.len() {
            assert(y2 =~= Seq::<char>::empty());
            assert(y.len() == j - p);
        } else {
            assert(y2[0] == s[j]);
            assert(y[j - p] == s[j]);
        }
        lemma_word_end_is(y, 0, j - p);
        assert(y.subrange(0, j - p) =~= s.subrange(p, j));
    } else {
        lemma_match_end(s, j);
        lemma_match_end_nonword(s, j);
        let e = match_end(s, j);
        let y2 = scan_from(s, pad, e);
        if e == s.len() {
            assert(y2 =~= Seq::<char>::empty());
        } else {
            assert(y2[0] == s[e]);
        }
        match concat_run(span_tokens(s, p, e), 0, 0, 0) {
            Some(n) => {
                lemma_concat_run_nonneg(span_tokens(s, p, e), 0, 0, 0);
                lemma_rendered_no_number_word(n, pad);
                let r = rendered(n, pad);
                assert(y == r + y2);
                assert(y[0] == r[0]);
                assert(is_word_char(y[0]));
                assert forall|q: int| 0 <= q < r.len() implies is_word_char(#[trigger] y[q]) by {
                    assert(y[q] == r[q]);
                }
                if e == s.len() {
                    assert(y.len() == r.len());
                } else {
                    assert(y[r.len() as int] == s[e]);
                }
                lemma_word_end_is(y, 0, r.len() as int);
                assert(y.subrange(0, r.len() as int) =~= r);
            },
            None => {
                assert(y == s.subrange(p, e) + y2);
                assert(y[0] == s[p]);
                assert forall|q: int| 0 <= q < j - p implies is_word_char(#[trigger] y[q]) by {
                    assert(y[q] == s[p + q]);
                }
                if j < e {
                    assert(y[j - p] == s[j]);
                } else {
                    if e == s.len() {
                        assert(y.len() == j - p);
                    } else {
                        assert(y[j - p] == s[e]);
                    }
                }
                lemma_word_end_is(y, 0, j - p);
                assert(y.subrange(0, j - p) =~= s.subrange(p, j));
            },
        }
    }
}

} // verus!
