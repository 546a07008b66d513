//! Normalization of tokens: a token is lowercased and then every character
//! that is not alphanumeric is dropped; the result may be the empty word.

use vstd::prelude::*;
use vstd::string::StrSliceExecFns;

verus! {

/// What `str::to_lowercase` returns for a given character sequence. The
/// result depends on the characters alone.
pub uninterp spec fn lower_of(s: Seq<char>) -> Seq<char>;

/// Whether `char::is_alphanumeric` holds of a character. A property of the
/// character alone.
pub uninterp spec fn is_alnum(c: char) -> bool;

/// Relies on `str::to_lowercase`: returns the Unicode lowercase equivalent of
/// the string, a function of its characters alone.
#[verifier::external_body]
pub(crate) fn lowercase(s: &str) -> (r: String)
    ensures
        r@ == lower_of(s@),
{
    s.to_lowercase()
}

/// Relies on `char::is_alphanumeric`: whether the character is alphanumeric
/// in the Unicode sense, a property of the character alone.
#[verifier::external_body]
pub(crate) fn char_is_alnum(c: char) -> (r: bool)
    ensures
        r == is_alnum(c),
{
    c.is_alphanumeric()
}

/// Relies on `String::push`: appends the character to the end of the string.
#[verifier::external_body]
pub(crate) fn push_char(s: &mut String, c: char)
    ensures
        final(s)@ == old(s)@.push(c),
{
    s.push(c)
}

/// The subsequence of `s` made of its alphanumeric characters, in order.
pub open spec fn keep_alnum(s: Seq<char>) -> Seq<char>
    decreases s.len(),
{
    if s.len() == 0 {
        Seq::empty()
    } else if is_alnum(s.last()) {
        keep_alnum(s.drop_last()).push(s.last())
    } else {
        keep_alnum(s.drop_last())
    }
}

/// The normalized form of a token: its lowercase form with every character
/// that is not alphanumeric removed. May be the empty sequence, for a token
/// made of punctuation alone.
pub open spec fn normalize_spec(t: Seq<char>) -> Seq<char> {
    keep_alnum(lower_of(t))
}

/// Normalize one token: lowercase it, then drop every character that is not
/// alphanumeric. The result may be the empty string, which is a valid word.
pub fn normalize(token: &str) -> (r: String)
    ensures
        r@ == normalize_spec(token@),
{
    let lowered = lowercase(token);
    let n = lowered.as_str().unicode_len();
    let mut out = String::new();
    let mut i: usize = 0;
    while i < n
        invariant
            n == lowered@.len(),
            lowered@ == lower_of(token@),
            i <= n,
            out@ == keep_alnum(lowered@.take(i as int)),
        decreases n - i,
    {
        let c = lowered.as_str().get_char(i);
        proof {
            assert(lowered@.take(i as int + 1).drop_last() =~= lowered@.take(i as int));
            assert(lowered@.take(i as int + 1).last() == c);
        }
        if char_is_alnum(c) {
            push_char(&mut out, c);
        }
        i += 1;
    }
    proof {
        assert(lowered@.take(n as int) =~= lowered@);
    }
    out
}

/// A word already in normal form: lowercasing leaves it unchanged, and every
/// one of its characters is alphanumeric.
pub open spec fn is_normal_word(w: Seq<char>) -> bool {
    &&& lower_of(w) == w
    &&& forall|i: int| 0 <= i < w.len() ==> is_alnum(w[i])
}

proof fn lemma_keep_alnum_all(w: Seq<char>)
    requires
        forall|i: int| 0 <= i < w.len() ==> is_alnum(w[i]),
    ensures
        keep_alnum(w) == w,
    decreases w.len(),
{
    if w.len() > 0 {
        lemma_keep_alnum_all(w.drop_last());
        assert(is_alnum(w[w.len() - 1]));
        assert(keep_alnum(w) =~= w);
    } else {
        assert(keep_alnum(w) =~= w);
    }
}

/// Normalization idempotence: normalizing a word that is already normalized
/// (lowercase, alphanumeric-only) yields the same word unchanged.
pub proof fn lemma_normalize_idempotent(w: Seq<char>)
    requires
        is_normal_word(w),
    ensures
        normalize_spec(w) == w,
{
    lemma_keep_alnum_all(w);
}

} // verus!
