//! Text rules shared by the operations: trimming, length in characters, and the
//! decimal form of an id.

use vstd::prelude::*;

verus! {

/// The characters that count as white space: those with the Unicode property
/// `White_Space`.
pub open spec fn is_whitespace(c: char) -> bool {
    let u = c as u32;
    ||| 0x09 <= u <= 0x0D
    ||| u == 0x20
    ||| u == 0x85
    ||| u == 0xA0
    ||| u == 0x1680
    ||| 0x2000 <= u <= 0x200A
    ||| u == 0x2028
    ||| u == 0x2029
    ||| u == 0x202F
    ||| u == 0x205F
    ||| u == 0x3000
}

/// `s` without the white space at its start.
pub open spec fn trim_start(s: Seq<char>) -> Seq<char>
    decreases s.len(),
{
    if s.len() > 0 && is_whitespace(s.first()) {
        trim_start(s.drop_first())
    } else {
        s
    }
}

/// `s` without the white space at its end.
pub open spec fn trim_end(s: Seq<char>) -> Seq<char>
    decreases s.len(),
{
    if s.len() > 0 && is_whitespace(s.last()) {
        trim_end(s.drop_last())
    } else {
        s
    }
}

/// `s` without the white space at either end.
pub open spec fn trimmed(s: Seq<char>) -> Seq<char> {
    trim_end(trim_start(s))
}

/// Whether `s` holds nothing but white space.
pub open spec fn is_blank(s: Seq<char>) -> bool {
    trimmed(s).len() == 0
}

/// A text field that may be left out: trimmed, and absent when nothing is left.
pub open spec fn trimmed_or_absent(s: Seq<char>) -> Option<Seq<char>> {
    if is_blank(s) {
        None
    } else {
        Some(trimmed(s))
    }
}

/// A text that may be left out, as it is kept: trimmed, and absent where it
/// was left out or nothing is left of it.
pub open spec fn kept_optional(text: Option<Seq<char>>) -> Option<Seq<char>> {
    match text {
        Some(t) => trimmed_or_absent(t),
        None => None,
    }
}

/// The decimal digit for `d`, which is below ten.
pub open spec fn digit(d: nat) -> char {
    ((48 + d) as u8) as char
}

/// `n` written in decimal, without leading zeros.
pub open spec fn decimal(n: nat) -> Seq<char>
    decreases n,
{
    if n < 10 {
        seq![digit(n)]
    } else {
        decimal(n / 10).push(digit(n % 10))
    }
}

/// `str::trim` of the standard library: the slice of `s` that is left when
/// the white space at both ends is taken away.
#[verifier::external_body]
pub(crate) fn trim(s: &str) -> (r: &str)
    ensures
        r@ == trimmed(s@),
{
    s.trim()
}

/// `u64::to_string` of the standard library: the number in decimal digits.
#[verifier::external_body]
pub(crate) fn decimal_string(n: u64) -> (r: String)
    ensures
        r@ == decimal(n as nat),
{
    n.to_string()
}

/// The trimmed copy of a text.
pub fn trimmed_copy(s: &str) -> (r: String)
    ensures
        r@ == trimmed(s@),
{
    trim(s).to_owned()
}

/// Whether a text is accepted: something is left after trimming, and the
/// text as given has at most `limit` characters.
pub open spec fn acceptable_text(s: Seq<char>, limit: nat) -> bool {
    !is_blank(s) && s.len() <= limit
}

/// Tests [`acceptable_text`].
pub fn is_acceptable_text(s: &str, limit: usize) -> (r: bool)
    ensures
        r == acceptable_text(s@, limit as nat),
{
    !trim(s).is_empty() && s.unicode_len() <= limit
}

/// Trims a text that may be left out, and leaves it out when nothing remains.
pub fn normalize_optional(text: Option<String>) -> (r: Option<String>)
    ensures
        r.deep_view() == kept_optional(text.deep_view()),
{
    match text {
        Some(t) => {
            let kept = trim(t.as_str());
            if kept.is_empty() {
                None
            } else {
                Some(kept.to_owned())
            }
        },
        None => None,
    }
}

/// The bytes of a text in two parts are the bytes of the parts, one after
/// the other.
pub proof fn lemma_utf8_concat(a: Seq<char>, b: Seq<char>)
    ensures
        vstd::utf8::encode_utf8(a + b) == vstd::utf8::encode_utf8(a) + vstd::utf8::encode_utf8(b),
    decreases a.len(),
{
    if a.len() == 0 {
        assert(a + b =~= b);
        assert(vstd::utf8::encode_utf8(a) + vstd::utf8::encode_utf8(b) =~= vstd::utf8::encode_utf8(
            b,
        ));
    } else {
        assert((a + b).drop_first() =~= a.drop_first() + b);
        lemma_utf8_concat(a.drop_first(), b);
        assert(vstd::utf8::encode_utf8(a + b) =~= vstd::utf8::encode_utf8(a)
            + vstd::utf8::encode_utf8(b));
    }
}

/// What is left of a text without the white space at its start is the end
/// of the text, and does not start with white space.
pub proof fn lemma_trim_start(s: Seq<char>)
    ensures
        exists|k: int| 0 <= k <= s.len() && trim_start(s) == #[trigger] s.skip(k),
        trim_start(s).len() > 0 ==> !is_whitespace(trim_start(s).first()),
    decreases s.len(),
{
    if s.len() > 0 && is_whitespace(s.first()) {
        lemma_trim_start(s.drop_first());
        let k = choose|k: int|
            0 <= k <= s.drop_first().len() && trim_start(s.drop_first()) == #[trigger] s.drop_first().skip(
                k,
            );
        assert(s.drop_first().skip(k) =~= s.skip(k + 1));
    } else {
        assert(s.skip(0) =~= s);
    }
}

/// What is left of a text without the white space at its end is the start
/// of the text, and does not end with white space.
pub proof fn lemma_trim_end(s: Seq<char>)
    ensures
        exists|k: int| 0 <= k <= s.len() && trim_end(s) == #[trigger] s.take(k),
        trim_end(s).len() > 0 ==> !is_whitespace(trim_end(s).last()),
    decreases s.len(),
{
    if s.len() > 0 && is_whitespace(s.last()) {
        lemma_trim_end(s.drop_last());
        let k = choose|k: int|
            0 <= k <= s.drop_last().len() && trim_end(s.drop_last()) == #[trigger] s.drop_last().take(
                k,
            );
        assert(s.drop_last().take(k) =~= s.take(k));
    } else {
        assert(s.take(s.len() as int) =~= s);
    }
}

/// What is kept of a text that was accepted: something, of no more
/// characters than the limit that the text as given was held to, and with no
/// white space at either end, so that trimming it again changes nothing.
pub proof fn law_kept_text(s: Seq<char>, limit: nat)
    requires
        acceptable_text(s, limit),
    ensures
        trimmed(s).len() > 0,
        trimmed(s).len() <= limit,
        !is_whitespace(trimmed(s).first()),
        !is_whitespace(trimmed(s).last()),
        trimmed(trimmed(s)) == trimmed(s),
{
    let started = trim_start(s);
    let kept = trimmed(s);
    lemma_trim_start(s);
    lemma_trim_end(started);
    assert(kept.first() == started.first());
    assert(trim_start(kept) == kept);
    assert(trim_end(kept) == kept);
}

/// A text takes at most four bytes for each of its characters.
pub proof fn lemma_utf8_len_bound(s: Seq<char>)
    ensures
        vstd::utf8::encode_utf8(s).len() <= 4 * s.len(),
    decreases s.len(),
{
    if s.len() > 0 {
        lemma_utf8_len_bound(s.drop_first());
    }
}

} // verus!
