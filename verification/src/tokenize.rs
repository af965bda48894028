//! Tokenization: split the input on whitespace and hyphens, keeping the
//! words in order.  The concatenative interpreter then drops every token
//! spelled "and"; the additive interpreter instead trims non-letter
//! characters from each end of every token (so "two," still reads as
//! "two") and skips "and" inside its loop.  The concatenative path does
//! not trim, so a word with punctuation attached fails its lookup there:
//! the two paths diverge on purpose.

use vstd::prelude::*;
use vstd::string::*;
use crate::chars::{is_sep, is_alpha, lower_seq, ex_is_sep, ex_is_alpha};
use crate::lexicon::eq_ci;

verus! {

/// The tokens of `s` from position `i` on, with `cur` the partial word
/// read so far: maximal runs of non-separator characters, in order.
pub open spec fn split_acc(s: Seq<char>, i: int, cur: Seq<char>) -> Seq<Seq<char>>
    decreases s.len() - i,
{
    if i < 0 || i >= s.len() {
        if cur.len() == 0 {
            Seq::empty()
        } else {
            seq![cur]
        }
    } else if is_sep(s[i]) {
        if cur.len() == 0 {
            split_acc(s, i + 1, Seq::empty())
        } else {
            seq![cur] + split_acc(s, i + 1, Seq::empty())
        }
    } else {
        split_acc(s, i + 1, cur.push(s[i]))
    }
}

/// The raw word tokens of an input string.
pub open spec fn raw_tokens(s: Seq<char>) -> Seq<Seq<char>> {
    split_acc(s, 0, Seq::empty())
}

/// Tokens with every "and" (in any letter case) removed.
pub open spec fn drop_and(ts: Seq<Seq<char>>) -> Seq<Seq<char>>
    decreases ts.len(),
{
    if ts.len() == 0 {
        Seq::empty()
    } else if lower_seq(ts[0]) == "and"@ {
        drop_and(ts.drop_first())
    } else {
        seq![ts[0]] + drop_and(ts.drop_first())
    }
}

/// What the concatenative interpreter reads: raw tokens minus "and".
pub open spec fn concat_tokens_of(s: Seq<char>) -> Seq<Seq<char>> {
    drop_and(raw_tokens(s))
}

/// A token with its leading non-letter characters removed.
pub open spec fn trim_front(t: Seq<char>) -> Seq<char>
    decreases t.len(),
{
    if t.len() == 0 {
        t
    } else if is_alpha(t[0]) {
        t
    } else {
        trim_front(t.drop_first())
    }
}

/// A token with its trailing non-letter characters removed.
pub open spec fn trim_back(t: Seq<char>) -> Seq<char>
    decreases t.len(),
{
    if t.len() == 0 {
        t
    } else if is_alpha(t.last()) {
        t
    } else {
        trim_back(t.drop_last())
    }
}

/// A token trimmed of non-letter characters at both ends.
pub open spec fn trim_word(t: Seq<char>) -> Seq<char> {
    trim_back(trim_front(t))
}

/// What the additive interpreter reads: every raw token, trimmed.
pub open spec fn additive_tokens_of(s: Seq<char>) -> Seq<Seq<char>> {
    raw_tokens(s).map_values(|t: Seq<char>| trim_word(t))
}

/// The characters of a string, as a vector.
pub fn str_to_chars(s: &str) -> (r: Vec<char>)
    ensures
        r@ == s@,
{
    let n = s.unicode_len();
    let mut r: Vec<char> = Vec::new();
    let mut i: usize = 0;
    while i < n
        invariant
            n == s@.len(),
            i <= n,
            r@ == s@.subrange(0, i as int),
        decreases n - i,
    {
        r.push(s.get_char(i));
        assert(r@ =~= s@.subrange(0, i + 1));
        i += 1;
    }
    assert(r@ =~= s@);
    r
}

/// Split the input into its raw word tokens.
pub fn split_tokens(v: &Vec<char>) -> (r: Vec<Vec<char>>)
    ensures
        r.deep_view() == raw_tokens(v@),
{
    let mut out: Vec<Vec<char>> = Vec::new();
    let mut cur: Vec<char> = Vec::new();
    let mut i: usize = 0;
    proof {
        assert(out.deep_view() + split_acc(v@, 0, cur@) =~~= split_acc(v@, 0, cur@));
        assert(cur@ =~= Seq::<char>::empty());
    }
    while i < v.len()
        invariant
            i <= v.len(),
            raw_tokens(v@) == out.deep_view() + split_acc(v@, i as int, cur@),
        decreases v.len() - i,
    {
        let ghost old_out = out.deep_view();
        let ghost old_cur = cur@;
        let c = v[i];
        if ex_is_sep(c) {
            if cur.len() > 0 {
                out.push(cur);
                cur = Vec::new();
                proof {
                    assert(cur@ =~= Seq::<char>::empty());
                    assert(out.deep_view() =~~= old_out.push(old_cur));
                    assert(old_out + split_acc(v@, i as int, old_cur) =~~= out.deep_view()
                        + split_acc(v@, i + 1, cur@));
                }
            } else {
                proof {
                    assert(old_cur =~= Seq::<char>::empty());
                }
            }
        } else {
            cur.push(c);
        }
        i += 1;
    }
    if cur.len() > 0 {
        let ghost old_out = out.deep_view();
        let ghost old_cur = cur@;
        out.push(cur);
        proof {
            assert(out.deep_view() =~~= old_out.push(old_cur));
            assert(old_out + split_acc(v@, v@.len() as int, old_cur) =~~= out.deep_view());
        }
    } else {
        proof {
            assert(cur@ =~= Seq::<char>::empty());
            assert(out.deep_view() + split_acc(v@, v@.len() as int, cur@) =~~= out.deep_view());
        }
    }
    out
}

/// Split the input and drop every "and" token: the concatenative
/// interpreter's token stream.
pub fn tokenize_concat(v: &Vec<char>) -> (r: Vec<Vec<char>>)
    ensures
        r.deep_view() == concat_tokens_of(v@),
{
    let ts = split_tokens(v);
    let mut out: Vec<Vec<char>> = Vec::new();
    let mut i: usize = 0;
    proof {
        assert(ts.deep_view().skip(0) =~= ts.deep_view());
    }
    while i < ts.len()
        invariant
            i <= ts.len(),
            ts.deep_view().len() == ts.len(),
            ts.deep_view() == raw_tokens(v@),
            concat_tokens_of(v@) == out.deep_view() + drop_and(ts.deep_view().skip(i as int)),
        decreases ts.len() - i,
    {
        let ghost old_out = out.deep_view();
        let ghost rest = ts.deep_view().skip(i as int);
        proof {
            assert(rest[0] == ts.deep_view()[i as int]);
            assert(rest.drop_first() =~= ts.deep_view().skip(i + 1));
            assert(ts.deep_view()[i as int] =~= ts@[i as int]@);
        }
        if !eq_ci(&ts[i], "and") {
            let t = ts[i].clone();
            proof {
                assert(t.deep_view() =~= ts.deep_view()[i as int]);
            }
            out.push(t);
            proof {
                assert(out.deep_view() =~~= old_out.push(ts.deep_view()[i as int]));
                assert(old_out + drop_and(rest) =~~= out.deep_view() + drop_and(
                    ts.deep_view().skip(i + 1),
                ));
            }
        }
        i += 1;
    }
    proof {
        assert(ts.deep_view().skip(ts.len() as int) =~= Seq::<Seq<char>>::empty());
        assert(out.deep_view() + drop_and(Seq::<Seq<char>>::empty()) =~= out.deep_view());
    }
    out
}

/// Trim non-letter characters from both ends of a token.
pub fn trim_token(t: &Vec<char>) -> (r: Vec<char>)
    ensures
        r@ == trim_word(t@),
{
    let mut a: usize = 0;
    proof {
        assert(t@.skip(0) =~= t@);
    }
    while a < t.len() && !ex_is_alpha(t[a])
        invariant
            a <= t.len(),
            trim_front(t@) == trim_front(t@.skip(a as int)),
        decreases t.len() - a,
    {
        proof {
            assert(t@.skip(a as int).drop_first() =~= t@.skip(a + 1));
        }
        a += 1;
    }
    // trim_front(t@) == t@.skip(a)
    proof {
        if a < t.len() {
            assert(trim_front(t@.skip(a as int)) == t@.skip(a as int));
        } else {
            assert(t@.skip(a as int) =~= Seq::<char>::empty());
        }
    }
    let mut b: usize = t.len();
    proof {
        assert(t@.skip(a as int) =~= t@.subrange(a as int, t@.len() as int));
    }
    while b > a && !ex_is_alpha(t[b - 1])
        invariant
            a <= b <= t.len(),
            trim_front(t@) == t@.skip(a as int),
            trim_back(t@.skip(a as int)) == trim_back(t@.subrange(a as int, b as int)),
        decreases b,
    {
        proof {
            assert(t@.subrange(a as int, b as int).last() == t@[b - 1]);
            assert(t@.subrange(a as int, b as int).drop_last() =~= t@.subrange(
                a as int,
                b - 1,
            ));
        }
        b -= 1;
    }
    proof {
        if b > a {
            assert(t@.subrange(a as int, b as int).last() == t@[b - 1]);
            assert(trim_back(t@.subrange(a as int, b as int)) == t@.subrange(a as int, b as int));
        } else {
            assert(t@.subrange(a as int, b as int) =~= Seq::<char>::empty());
        }
    }
    let mut r: Vec<char> = Vec::new();
    let mut i: usize = a;
    while i < b
        invariant
            a <= i <= b <= t.len(),
            r@ == t@.subrange(a as int, i as int),
        decreases b - i,
    {
        r.push(t[i]);
        assert(r@ =~= t@.subrange(a as int, i + 1));
        i += 1;
    }
    assert(r@ =~= t@.subrange(a as int, b as int));
    r
}

/// Split the input and trim every token: the additive interpreter's
/// token stream.
pub fn tokenize_additive(v: &Vec<char>) -> (r: Vec<Vec<char>>)
    ensures
        r.deep_view() == additive_tokens_of(v@),
{
    let ts = split_tokens(v);
    let mut out: Vec<Vec<char>> = Vec::new();
    let mut i: usize = 0;
    while i < ts.len()
        invariant
            i <= ts.len(),
            ts.deep_view().len() == ts.len(),
            ts.deep_view() == raw_tokens(v@),
            out.deep_view().len() == i,
            forall|j: int|
                0 <= j < i ==> out.deep_view()[j] == trim_word(ts.deep_view()[j]),
        decreases ts.len() - i,
    {
        let ghost old_out = out.deep_view();
        proof {
            assert(ts.deep_view()[i as int] =~= ts@[i as int]@);
        }
        let w = trim_token(&ts[i]);
        out.push(w);
        proof {
            assert(out.deep_view() =~~= old_out.push(trim_word(ts.deep_view()[i as int])));
        }
        i += 1;
    }
    proof {
        assert(out.deep_view() =~= additive_tokens_of(v@));
    }
    out
}

} // verus!
