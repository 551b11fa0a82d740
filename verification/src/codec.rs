//! The encodings that the proxy leaves to other crates and to std: JSON,
//! `Debug` quoting, Base64, HTML form bodies, the URL pattern of a proxied
//! request line, and lossy UTF-8 decoding. Each function here makes one call;
//! what the call returns is named by a spec function, and nothing else is
//! claimed of it unless said below.
use vstd::prelude::*;
use vstd::string::*;

verus! {

/// What `serde_json::to_string` gives for a list of strings: the JSON array of
/// the strings, in order.
pub uninterp spec fn json_texts(items: Seq<Seq<char>>) -> Seq<char>;

/// What `format!("{:?}", s)` gives for a string: the quoted, escaped text.
pub uninterp spec fn debug_text(s: Seq<char>) -> Seq<char>;

/// What `base64::decode` gives for a text: the decoded bytes, or `None` when
/// the text is not valid Base64 in the standard alphabet.
pub uninterp spec fn base64_decoded(text: Seq<char>) -> Option<Seq<u8>>;

/// What `url::form_urlencoded::parse(..).into_owned()` yields for a body: the
/// (name, value) pairs, decoded, in order.
pub uninterp spec fn form_pairs(body: Seq<u8>) -> Seq<(Seq<char>, Seq<char>)>;

/// What the pattern `(\w*?)://(.*?)/(.*)` captures in `url`: the scheme, the
/// host and the path, or `None` when it does not match.
pub uninterp spec fn url_parts(url: Seq<char>) -> Option<(Seq<char>, Seq<char>, Seq<char>)>;

/// What `String::from_utf8_lossy` gives for bytes.
pub uninterp spec fn lossy_text(bytes: Seq<u8>) -> Seq<char>;

/// `serde_json::to_string` on a list of strings. serde_json documents that
/// serialization fails only when a `Serialize` impl fails or a map has
/// non-string keys; neither can happen for strings, so the call succeeds and
/// its text is `json_texts` of the items.
#[verifier::external_body]
pub(crate) fn json_of_texts(items: &Vec<String>) -> (r: String)
    ensures
        r@ == json_texts(items.deep_view()),
{
    serde_json::to_string(items).unwrap()
}

/// The `Debug` rendering of a string (`format!("{:?}", s)`): `debug_text` of
/// its characters. The escaping rules are not stated.
#[verifier::external_body]
pub(crate) fn debug_of(s: &str) -> (r: String)
    ensures
        r@ == debug_text(s@),
{
    format!("{:?}", s)
}

/// `base64::decode` (version 0.13, standard alphabet): `base64_decoded` of
/// the text, with the `DecodeError` turned into `None`. The call panics when
/// the text's length plus 3 overflows `usize`, which `requires` rules out.
/// What counts as valid Base64 is not stated.
#[verifier::external_body]
pub(crate) fn decode_base64(text: &str) -> (r: Option<Vec<u8>>)
    requires
        text.spec_bytes().len() + 3 <= usize::MAX,
    ensures
        match r {
            Some(bytes) => base64_decoded(text@) == Some(bytes@),
            None => base64_decoded(text@) is None,
        },
{
    base64::decode(text).ok()
}

/// `url::form_urlencoded::parse(body).into_owned()`, collected: `form_pairs`
/// of the body. Percent-decoding and the treatment of bytes that are not
/// UTF-8 are not stated.
#[verifier::external_body]
pub(crate) fn parse_form(body: &[u8]) -> (r: Vec<(String, String)>)
    ensures
        r.deep_view() == form_pairs(body@),
{
    url::form_urlencoded::parse(body).into_owned().collect()
}

/// `regex::Regex::new(r"(\w*?)://(.*?)/(.*)")` then `captures(url)`, with the
/// three groups taken as strings: `url_parts` of the text. The pattern is
/// valid, so `Regex::new` succeeds; every group takes part in every match, so
/// each `get` succeeds when the pattern matches. How the pattern matches is
/// not stated.
#[verifier::external_body]
pub(crate) fn url_captures(url: &str) -> (r: Option<(String, String, String)>)
    ensures
        match r {
            Some((scheme, host, path)) => url_parts(url@) == Some((scheme@, host@, path@)),
            None => url_parts(url@) is None,
        },
{
    let re = regex::Regex::new(r"(\w*?)://(.*?)/(.*)").unwrap();
    re.captures(url).map(
        |caps| (caps[1].to_string(), caps[2].to_string(), caps[3].to_string()),
    )
}

/// `String::from_utf8_lossy`, made owned: `lossy_text` of the bytes. std
/// documents that bytes that are valid UTF-8 come back unchanged; how other
/// bytes are replaced is not stated.
#[verifier::external_body]
pub(crate) fn lossy_utf8(bytes: &[u8]) -> (r: String)
    ensures
        r@ == lossy_text(bytes@),
        vstd::utf8::valid_utf8(bytes@) ==> r@ == vstd::utf8::decode_utf8(bytes@),
{
    String::from_utf8_lossy(bytes).into_owned()
}

/// `String::push`: `c` is added at the end.
#[verifier::external_body]
pub(crate) fn push_char(s: &mut String, c: char)
    ensures
        final(s)@ == old(s)@.push(c),
{
    s.push(c)
}

} // verus!
