//! DNS over HTTPS (RFC 8484): the `dns` parameter of a GET request, and
//! what a request is answered.
use vstd::prelude::*;

use base64::engine::general_purpose::URL_SAFE_NO_PAD;
use base64::Engine;

use crate::message::{decode_error_name, parse_message, Message};
use crate::singleflight::{shared_error_name, SharedResolveError};

verus! {

/// What `URL_SAFE_NO_PAD.encode` makes of some bytes.
pub uninterp spec fn base64_url_encode(bytes: Seq<u8>) -> Seq<char>;

/// What `URL_SAFE_NO_PAD.decode` makes of a text: the bytes, or `None`
/// where it refuses the text.
pub uninterp spec fn base64_url_decode(text: Seq<char>) -> Option<Seq<u8>>;

/// The text that `URL_SAFE_NO_PAD.decode` reports for a text it refuses
/// (its error's `Display`, which depends on the text alone).
pub uninterp spec fn base64_url_decode_error(text: Seq<char>) -> Seq<char>;

/// `URL_SAFE_NO_PAD.encode(bytes)` (base64 crate): the bytes in the URL-safe
/// alphabet without padding. Claimed: the result is `base64_url_encode` of
/// the bytes. The crate panics when the encoded length overflows `usize`,
/// which `requires` rules out.
#[verifier::external_body]
pub(crate) fn url_safe_no_pad_encode(bytes: &[u8]) -> (r: String)
    requires
        bytes@.len() / 3 * 4 + 3 <= usize::MAX,
    ensures
        r@ == base64_url_encode(bytes@),
{
    URL_SAFE_NO_PAD.encode(bytes)
}

/// `URL_SAFE_NO_PAD.decode(text)` (base64 crate), with a refusal turned
/// into the text the crate's error displays. Claimed: it succeeds exactly
/// when `base64_url_decode` of the text is some bytes, and then gives those
/// bytes; otherwise the error's text is `base64_url_decode_error` of the
/// text.
#[verifier::external_body]
fn url_safe_no_pad_decode(text: &str) -> (r: Result<Vec<u8>, String>)
    ensures
        match r {
            Ok(v) => base64_url_decode(text@) == Some(v@),
            Err(t) => base64_url_decode(text@) is None && t@ == base64_url_decode_error(text@),
        },
{
    match URL_SAFE_NO_PAD.decode(text) {
        Ok(v) => Ok(v),
        Err(e) => Err(e.to_string()),
    }
}

/// What an HTTP request to the DoH endpoint is answered.
pub enum DohReply {
    /// 200, with a DNS message (`application/dns-message`) as the body.
    Dns(Vec<u8>),
    /// 400, with this text as the body.
    BadRequest(String),
}

pub enum DohReplyView {
    Dns(Seq<u8>),
    BadRequest(Seq<char>),
}

impl View for DohReply {
    type V = DohReplyView;

    open spec fn view(&self) -> DohReplyView {
        match self {
            DohReply::Dns(b) => DohReplyView::Dns(b@),
            DohReply::BadRequest(t) => DohReplyView::BadRequest(t@),
        }
    }
}

impl DohReply {
    /// The HTTP status of the reply.
    pub fn status(&self) -> (s: u16)
        ensures
            s == match self {
                DohReply::Dns(_) => 200u16,
                DohReply::BadRequest(_) => 400u16,
            },
    {
        match self {
            DohReply::Dns(_) => 200,
            DohReply::BadRequest(_) => 400,
        }
    }
}

/// The DNS message carried by a GET request's `dns` parameter (base64url,
/// unpadded). Where the parameter does not decode, the request is answered
/// 400 with "Invalid dns parameter: " and the decoder's error text.
pub fn dns_param(dns: &str) -> (r: Result<Vec<u8>, DohReply>)
    ensures
        match r {
            Ok(v) => base64_url_decode(dns@) == Some(v@),
            Err(reply) => base64_url_decode(dns@) is None && reply@ == DohReplyView::BadRequest(
                "Invalid dns parameter: "@ + base64_url_decode_error(dns@),
            ),
        },
{
    match url_safe_no_pad_decode(dns) {
        Ok(bytes) => Ok(bytes),
        Err(detail) => {
            let mut text = String::from_str("Invalid dns parameter: ");
            text.append(detail.as_str());
            let reply = DohReply::BadRequest(text);
            assert(reply@ == DohReplyView::BadRequest("Invalid dns parameter: "@ + detail@));
            Err(reply)
        },
    }
}

/// The request carried by a DoH body: the decoded message, or a 400 reply
/// naming the decoding error.
pub fn doh_request(body: &[u8]) -> (r: Result<Message, DohReply>)
    ensures
        match parse_message(body@) {
            Ok(m) => r matches Ok(msg) && msg@ == m,
            Err(e) => r matches Err(reply) && reply@ == DohReplyView::BadRequest(decode_error_name(e)),
        },
{
    match Message::decode(body) {
        Ok(m) => Ok(m),
        Err(e) => Err(DohReply::BadRequest(String::from_str(e.describe()))),
    }
}

/// The reply to a resolved request: the response message with 200, or a
/// 400 naming the error.
pub fn doh_reply(outcome: Result<Vec<u8>, SharedResolveError>) -> (r: DohReply)
    ensures
        match outcome {
            Ok(b) => r@ == DohReplyView::Dns(b@),
            Err(e) => r@ == DohReplyView::BadRequest(shared_error_name(e)),
        },
{
    match outcome {
        Ok(b) => DohReply::Dns(b),
        Err(e) => DohReply::BadRequest(String::from_str(e.describe())),
    }
}

} // verus!
