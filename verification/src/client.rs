//! The client side: building a query, reading the command line, and
//! showing a response.
use vstd::prelude::*;

use crate::doh::{base64_url_encode, url_safe_no_pad_encode};
use crate::message::formatter::{format_message, message_text};
use crate::message::{message_wire, parse_message, qtype_from_u16, query_view, DecodeError, Message, QType};

verus! {

// ---------- Text ----------

/// What `str::to_uppercase` makes of a text (Unicode uppercase mapping).
pub uninterp spec fn unicode_uppercase(s: Seq<char>) -> Seq<char>;

/// `str::to_uppercase`: the text with each character mapped to uppercase
/// by Unicode's rules. Claimed: the result is `unicode_uppercase` of the text.
#[verifier::external_body]
fn to_uppercase(s: &str) -> (r: String)
    ensures
        r@ == unicode_uppercase(s@),
{
    s.to_uppercase()
}

/// `c` with an ASCII capital letter mapped to its small letter.
pub open spec fn ascii_lower_char(c: char) -> char {
    if 65 <= (c as u32) <= 90 {
        ((c as u32) + 32) as char
    } else {
        c
    }
}

/// The text with each ASCII capital letter made small; other characters
/// are kept.
pub open spec fn ascii_lowercase(s: Seq<char>) -> Seq<char> {
    s.map_values(|c: char| ascii_lower_char(c))
}

/// `str::to_ascii_lowercase`: as its documentation says, 'A' to 'Z' are
/// mapped to 'a' to 'z' and every other character is kept. Claimed: the
/// result is `ascii_lowercase` of the text.
#[verifier::external_body]
fn to_ascii_lowercase(s: &str) -> (r: String)
    ensures
        r@ == ascii_lowercase(s@),
{
    s.to_ascii_lowercase()
}

/// Whether two texts are the same.
pub fn text_eq(a: &str, b: &str) -> (r: bool)
    ensures
        r == (a@ == b@),
{
    let n = a.unicode_len();
    if n != b.unicode_len() {
        return false;
    }
    let mut i: usize = 0;
    while i < n
        invariant
            n == a@.len(),
            n == b@.len(),
            i <= n,
            forall|k: int| 0 <= k < i ==> a@[k] == b@[k],
        decreases n - i,
    {
        if a.get_char(i) != b.get_char(i) {
            return false;
        }
        i = i + 1;
    }
    assert(a@ =~= b@);
    true
}

// ---------- The command line ----------

/// How a DoH request is sent.
#[derive(Debug, Clone, Copy, PartialEq, Eq, Structural)]
pub enum DohMethod {
    Post,
    Get,
}

/// The method a command-line argument asks for: POST when none is given,
/// else "post" or "get" in any ASCII case; `None` for anything else.
pub open spec fn method_for_arg(arg: Option<Seq<char>>) -> Option<DohMethod> {
    match arg {
        None => Some(DohMethod::Post),
        Some(s) => if ascii_lowercase(s) == "post"@ {
            Some(DohMethod::Post)
        } else if ascii_lowercase(s) == "get"@ {
            Some(DohMethod::Get)
        } else {
            None
        },
    }
}

pub fn doh_method_from_arg(arg: Option<&str>) -> (m: Option<DohMethod>)
    ensures
        m == method_for_arg(
            match arg {
                Some(s) => Some(s@),
                None => None,
            },
        ),
{
    match arg {
        None => Some(DohMethod::Post),
        Some(s) => {
            let l = to_ascii_lowercase(s);
            if text_eq(l.as_str(), "post") {
                Some(DohMethod::Post)
            } else if text_eq(l.as_str(), "get") {
                Some(DohMethod::Get)
            } else {
                None
            }
        },
    }
}

/// The record type a command-line argument asks for: AAAA, NS, MX, TXT or
/// ANY, in any case; A for anything else or for no argument.
pub open spec fn qtype_for_arg(arg: Option<Seq<char>>) -> QType {
    match arg {
        None => QType::A,
        Some(t) => {
            let u = unicode_uppercase(t);
            if u == "AAAA"@ {
                QType::AAAA
            } else if u == "NS"@ {
                QType::NS
            } else if u == "MX"@ {
                QType::MX
            } else if u == "TXT"@ {
                QType::TXT
            } else if u == "ANY"@ {
                QType::ANY
            } else {
                QType::A
            }
        },
    }
}

pub fn qtype_from_arg(arg: Option<&str>) -> (t: QType)
    ensures
        t == qtype_for_arg(
            match arg {
                Some(s) => Some(s@),
                None => None,
            },
        ),
{
    match arg {
        None => QType::A,
        Some(s) => {
            let u = to_uppercase(s);
            let u = u.as_str();
            if text_eq(u, "AAAA") {
                QType::AAAA
            } else if text_eq(u, "NS") {
                QType::NS
            } else if text_eq(u, "MX") {
                QType::MX
            } else if text_eq(u, "TXT") {
                QType::TXT
            } else if text_eq(u, "ANY") {
                QType::ANY
            } else {
                QType::A
            }
        },
    }
}

// ---------- Queries and responses ----------

/// The wire form of a recursive query for `name` with the type numbered
/// `qtype`.
pub fn encode_query(id: u16, name: &str, qtype: u16) -> (out: Vec<u8>)
    ensures
        out@ == message_wire(query_view(id, name@, qtype_from_u16(qtype))),
{
    let message = Message::new_query(id, name, QType::from_u16(qtype));
    message.encode()
}

/// A wire-format message as text, or the reason it does not decode.
pub fn format_wire_message(bytes: &[u8]) -> (r: Result<String, DecodeError>)
    ensures
        match parse_message(bytes@) {
            Ok(m) => r matches Ok(s) && s@ == message_text(m),
            Err(e) => r == Err::<String, DecodeError>(e),
        },
{
    let message = Message::decode(bytes)?;
    Ok(format_message(&message))
}

/// The URL of a DoH GET request: `url` with the query in its `dns`
/// parameter, base64url-encoded without padding.
pub fn doh_get_url(url: &str, body: &[u8]) -> (u: String)
    requires
        body@.len() / 3 * 4 + 3 <= usize::MAX,
    ensures
        u@ == url@ + "?dns="@ + base64_url_encode(body@),
{
    let dns = url_safe_no_pad_encode(body);
    let mut u = String::from_str(url);
    u.append("?dns=");
    u.append(dns.as_str());
    u
}

} // verus!
