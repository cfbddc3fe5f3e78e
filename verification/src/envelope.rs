//! The envelope in which the content of an encrypted message is kept.
//!
//! Sealing tags the plain text with the id of its message and encodes the
//! result in base64. Opening accepts, besides sealed content, content that was
//! stored before sealing existed: text that is no base64 stays as it is, and
//! decoded text without the tag of its message is handed out whole.

use crate::model::ChatError;
use crate::text::{decimal, decimal_string, lemma_utf8_concat, lemma_utf8_len_bound};
use vstd::prelude::*;
use vstd::string::StringExecFns;
use vstd::utf8::{decode_utf8, encode_utf8, valid_utf8};

verus! {

/// The most bytes of plain text that can be sealed.
pub const MAX_SEALABLE_BYTES: usize = 0x3000_0000;

/// The standard base64 text, with padding, of a byte string.
pub uninterp spec fn base64_text(data: Seq<u8>) -> Seq<char>;

/// The bytes that a text stands for in standard base64, if it is base64.
pub uninterp spec fn base64_bytes(text: Seq<char>) -> Option<Seq<u8>>;

/// `base64::encode` of the crate `base64`: the text of `data` in the standard
/// alphabet with padding. The contract names the text, and claims that
/// decoding it gives `data` back. Longer input than the bound could overflow
/// the computation of the text's length.
#[verifier::external_body]
#[allow(deprecated)]
fn base64_encode(data: &[u8]) -> (r: String)
    requires
        data@.len() <= 0x3fff_ffff,
    ensures
        r@ == base64_text(data@),
        base64_bytes(r@) == Some(data@),
{
    base64::encode(data)
}

/// `base64::decode` of the crate `base64`: the bytes that `text` stands for,
/// or nothing where `text` is not standard base64. The contract names the
/// result.
#[verifier::external_body]
#[allow(deprecated)]
fn base64_decode(text: &str) -> (r: Option<Vec<u8>>)
    ensures
        optional_bytes(r) == base64_bytes(text@),
{
    base64::decode(text).ok()
}

/// What the standard library says of bytes that are no text: where the
/// fault lies.
pub uninterp spec fn utf8_fault_text(bytes: Seq<u8>) -> Seq<char>;

/// `String::from_utf8` of the standard library: the text that `bytes` encode,
/// or, where they are not valid UTF-8, what the error says when it is
/// printed. The contract names what the error says, and claims no more of it
/// than that it depends on `bytes` alone.
#[verifier::external_body]
fn text_from_utf8(bytes: Vec<u8>) -> (r: Result<String, String>)
    ensures
        match r {
            Ok(text) => valid_utf8(bytes@) && text@ == decode_utf8(bytes@),
            Err(fault) => !valid_utf8(bytes@) && fault@ == utf8_fault_text(bytes@),
        },
{
    match String::from_utf8(bytes) {
        Ok(text) => Ok(text),
        Err(e) => Err(format!("{}", e)),
    }
}

/// `str::strip_prefix` of the standard library: what follows `prefix` in
/// `text`, or nothing where `text` does not start with `prefix`.
#[verifier::external_body]
fn strip_prefix<'a>(text: &'a str, prefix: &str) -> (r: Option<&'a str>)
    ensures
        match r {
            Some(rest) => text@ == prefix@ + rest@,
            None => !prefix@.is_prefix_of(text@),
        },
{
    text.strip_prefix(prefix)
}

/// The tag that marks sealed content as belonging to message `id`.
pub open spec fn envelope_tag(id: u64) -> Seq<char> {
    "[VET_ENCRYPTED:"@ + decimal(id as nat) + "]"@
}

/// The content of message `id` as it is kept.
pub open spec fn sealed(plain: Seq<char>, id: u64) -> Seq<char> {
    base64_text(encode_utf8(envelope_tag(id) + plain))
}

/// What opening stored content gives, `decoded` being what the content
/// stands for in base64.
pub open spec fn opened(decoded: Option<Seq<u8>>, stored: Seq<char>, id: u64) -> Result<
    Seq<char>,
    ChatError,
> {
    match decoded {
        None => Ok(stored),
        Some(bytes) => if !valid_utf8(bytes) {
            Err(ChatError::InvalidInput)
        } else if envelope_tag(id).is_prefix_of(decode_utf8(bytes)) {
            Ok(decode_utf8(bytes).skip(envelope_tag(id).len() as int))
        } else {
            Ok(decode_utf8(bytes))
        },
    }
}

/// The view of bytes that may be absent.
pub open spec fn optional_bytes(bytes: Option<Vec<u8>>) -> Option<Seq<u8>> {
    match bytes {
        Some(b) => Some(b@),
        None => None,
    }
}

/// Where the fault lies when stored content does not open, `decoded` being
/// what the content stands for in base64: nothing where the content opens.
pub open spec fn opening_fault(decoded: Option<Seq<u8>>) -> Option<Seq<char>> {
    match decoded {
        Some(bytes) => if valid_utf8(bytes) {
            None
        } else {
            Some(utf8_fault_text(bytes))
        },
        None => None,
    }
}

/// The view of a text or an error.
pub open spec fn text_result(r: Result<String, ChatError>) -> Result<Seq<char>, ChatError> {
    match r {
        Ok(text) => Ok(text@),
        Err(e) => Err(e),
    }
}

spec fn pow10(k: nat) -> nat
    decreases k,
{
    if k == 0 {
        1
    } else {
        10 * pow10((k - 1) as nat)
    }
}

proof fn lemma_decimal_len(n: nat, k: nat)
    requires
        k >= 1,
        n < pow10(k),
    ensures
        decimal(n).len() <= k,
    decreases n,
{
    if n >= 10 {
        assert(pow10(1) == 10) by {
            reveal_with_fuel(pow10, 2);
        }
        assert(k >= 2);
        lemma_decimal_len(n / 10, (k - 1) as nat);
    }
}

proof fn lemma_tag_len(id: u64)
    ensures
        envelope_tag(id).len() <= 36,
{
    reveal_strlit("[VET_ENCRYPTED:");
    reveal_strlit("]");
    assert(pow10(20) == 100000000000000000000nat) by {
        reveal_with_fuel(pow10, 21);
    }
    lemma_decimal_len(id as nat, 20);
}

/// The tag of message `id` as a text.
fn tag_text(message_id: u64) -> (r: String)
    ensures
        r@ == envelope_tag(message_id),
{
    let mut tag = String::from_str("[VET_ENCRYPTED:");
    let digits = decimal_string(message_id);
    tag.append(digits.as_str());
    tag.append("]");
    tag
}

/// Seals the plain content of message `message_id`. What comes out opens to
/// the plain content again under the same id.
pub fn encrypt_message_content(plain_content: &str, message_id: u64) -> (r: String)
    requires
        encode_utf8(plain_content@).len() <= MAX_SEALABLE_BYTES,
    ensures
        r@ == sealed(plain_content@, message_id),
        opened(base64_bytes(r@), r@, message_id) == Ok::<Seq<char>, ChatError>(plain_content@),
{
    let mut text = tag_text(message_id);
    text.append(plain_content);
    proof {
        let tag = envelope_tag(message_id);
        lemma_tag_len(message_id);
        lemma_utf8_len_bound(tag);
        lemma_utf8_concat(tag, plain_content@);
        vstd::utf8::encode_utf8_valid_utf8(text@);
        vstd::utf8::encode_utf8_decode_utf8(text@);
        assert((tag + plain_content@).skip(tag.len() as int) =~= plain_content@);
    }
    base64_encode(text.as_str().as_bytes())
}

/// Opens stored content of message `message_id`, `decoded` being what the
/// content stands for in base64.
pub fn open_envelope(decoded: Option<Vec<u8>>, encrypted_content: &str, message_id: u64) -> (r:
    Result<String, ChatError>)
    ensures
        text_result(r) == opened(optional_bytes(decoded), encrypted_content@, message_id),
{
    match decoded {
        None => Ok(encrypted_content.to_owned()),
        Some(bytes) => {
            match text_from_utf8(bytes) {
                Err(_) => Err(ChatError::InvalidInput),
                Ok(text) => {
                    let tag = tag_text(message_id);
                    match strip_prefix(text.as_str(), tag.as_str()) {
                        Some(rest) => {
                            assert(text@.skip(tag@.len() as int) =~= rest@);
                            assert(tag@.is_prefix_of(text@)) by {
                                assert(text@.subrange(0, tag@.len() as int) =~= tag@);
                            }
                            Ok(rest.to_owned())
                        },
                        None => Ok(text),
                    }
                },
            }
        },
    }
}

/// Opens stored content of message `message_id`.
pub fn decrypt_message_content(encrypted_content: &str, message_id: u64) -> (r: Result<
    String,
    ChatError,
>)
    ensures
        text_result(r) == opened(base64_bytes(encrypted_content@), encrypted_content@, message_id),
{
    let decoded = base64_decode(encrypted_content);
    open_envelope(decoded, encrypted_content, message_id)
}

/// Where the fault lies when stored content does not open, `decoded` being
/// what the content stands for in base64. There is a fault exactly where
/// opening fails.
pub fn fault_of_envelope(decoded: Option<Vec<u8>>) -> (r: Option<String>)
    ensures
        r.deep_view() == opening_fault(optional_bytes(decoded)),
{
    match decoded {
        Some(bytes) => match text_from_utf8(bytes) {
            Ok(_) => None,
            Err(fault) => Some(fault),
        },
        None => None,
    }
}

/// Where the fault lies when stored content does not open.
pub fn fault_of_content(encrypted_content: &str) -> (r: Option<String>)
    ensures
        r.deep_view() == opening_fault(base64_bytes(encrypted_content@)),
{
    fault_of_envelope(base64_decode(encrypted_content))
}

/// Stored content fails to open exactly where there is a fault to name.
pub proof fn lemma_fault_where_opening_fails(decoded: Option<Seq<u8>>, stored: Seq<char>, id: u64)
    ensures
        opened(decoded, stored, id) is Err <==> opening_fault(decoded) is Some,
        opened(decoded, stored, id) is Err ==> opened(decoded, stored, id) == Err::<
            Seq<char>,
            ChatError,
        >(ChatError::InvalidInput),
{
}

} // verus!
