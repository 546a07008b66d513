//! Splitting the input text into whitespace-delimited tokens: each token is a
//! maximal run of characters that are not whitespace.

use vstd::prelude::*;
use vstd::string::StrSliceExecFns;
use crate::norm::push_char;

verus! {

/// Whether `char::is_whitespace` holds of a character. A property of the
/// character alone.
pub uninterp spec fn is_space(c: char) -> bool;

/// Relies on `char::is_whitespace`: whether the character is whitespace in
/// the Unicode sense, a property of the character alone.
#[verifier::external_body]
pub(crate) fn char_is_space(c: char) -> (r: bool)
    ensures
        r == is_space(c),
{
    c.is_whitespace()
}

/// The whitespace-delimited tokens of `s`, in order. Read one character at a
/// time: a whitespace character closes the current token, and any other
/// character either extends the token that the previous character belongs to
/// or, after whitespace or at the start, opens a new token. Tokens are thus
/// exactly the maximal runs of non-whitespace characters.
pub open spec fn tokens_spec(s: Seq<char>) -> Seq<Seq<char>>
    decreases s.len(),
{
    if s.len() == 0 {
        Seq::empty()
    } else {
        let prefix = tokens_spec(s.drop_last());
        let c = s.last();
        if is_space(c) {
            prefix
        } else if s.len() >= 2 && !is_space(s[s.len() - 2]) {
            prefix.update(prefix.len() - 1, prefix.last().push(c))
        } else {
            prefix.push(seq![c])
        }
    }
}

proof fn lemma_tokens_nonempty(s: Seq<char>)
    requires
        s.len() > 0,
        !is_space(s.last()),
    ensures
        tokens_spec(s).len() > 0,
    decreases s.len(),
{
    if s.len() >= 2 && !is_space(s[s.len() - 2]) {
        lemma_tokens_nonempty(s.drop_last());
    }
}

/// Split the text into its whitespace-delimited tokens, in order.
pub fn tokenize(text: &str) -> (toks: Vec<String>)
    ensures
        toks.deep_view() == tokens_spec(text@),
{
    let n = text.unicode_len();
    let mut toks: Vec<String> = Vec::new();
    let mut prev_in_token = false;
    let mut i: usize = 0;
    while i < n
        invariant
            n == text@.len(),
            i <= n,
            toks.deep_view() == tokens_spec(text@.take(i as int)),
            prev_in_token == (i > 0 && !is_space(text@[i as int - 1])),
        decreases n - i,
    {
        let c = text.get_char(i);
        let ghost pre = text@.take(i as int);
        let ghost cur = text@.take(i as int + 1);
        proof {
            assert(cur.drop_last() =~= pre);
            assert(cur.last() == c);
        }
        if !char_is_space(c) {
            if prev_in_token {
                proof {
                    assert(pre.last() == text@[i as int - 1]);
                    lemma_tokens_nonempty(pre);
                }
                let mut t = toks.pop().unwrap();
                push_char(&mut t, c);
                toks.push(t);
                proof {
                    assert(cur[cur.len() - 2] == text@[i as int - 1]);
                    assert(toks.deep_view() =~~= tokens_spec(cur));
                }
            } else {
                let mut t = String::new();
                push_char(&mut t, c);
                toks.push(t);
                proof {
                    assert(t@ =~= seq![c]);
                    assert(toks.deep_view() =~~= tokens_spec(cur));
                }
            }
            prev_in_token = true;
        } else {
            prev_in_token = false;
            proof {
                assert(toks.deep_view() =~~= tokens_spec(cur));
            }
        }
        i += 1;
    }
    proof {
        assert(text@.take(n as int) =~= text@);
    }
    toks
}

} // verus!
