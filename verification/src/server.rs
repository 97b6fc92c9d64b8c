//! What the server answers: the response to a request, given the outcome
//! of resolving its first question, cut down to fit a UDP datagram.
use vstd::prelude::*;

use crate::message::record_types::{name_text, OptView};
use crate::message::{
    copy_questions, message_encodable, message_wire, questions_view, records_encodable,
    records_view, Header, Message, MessageView, Opcode, QType, RData, RDataView, Rcode,
};
use crate::message::wire::{be16, u16_at};
use crate::resolver::first_of_type;
use crate::singleflight::{SharedResolveError, SharedResult};

verus! {

/// The name (as text) and type of the request's first question; a request
/// with no question gets `NoData`.
pub fn question_of(request: &Message) -> (r: Result<(String, QType), SharedResolveError>)
    ensures
        request.questions@.len() == 0 ==> r == Err::<(String, QType), SharedResolveError>(
            SharedResolveError::NoData,
        ),
        request.questions@.len() > 0 ==> (r matches Ok((name, qtype)) && name@ == name_text(
            request.questions@[0].name@,
        ) && qtype == request.questions@[0].qtype),
{
    if request.questions.len() == 0 {
        return Err(SharedResolveError::NoData);
    }
    let question = &request.questions[0];
    Ok((question.name.to_string(), question.qtype))
}

/// The response skeleton: the request's id, TC and RD flags, QR and RA set,
/// no error, the request's questions and no records.
pub open spec fn default_response(request: MessageView) -> MessageView {
    MessageView {
        header: Header {
            id: request.header.id,
            qr: true,
            opcode: Opcode::Query,
            aa: false,
            tc: request.header.tc,
            rd: request.header.rd,
            ra: true,
            rcode: Rcode::NoError,
            qdcount: 0,
            ancount: 0,
            nscount: 0,
            arcount: 0,
        },
        questions: request.questions,
        answers: seq![],
        authorities: seq![],
        additionals: seq![],
    }
}

pub fn get_default_res(request: &Message) -> (m: Message)
    ensures
        m@ == default_response(request@),
{
    let m = Message {
        header: Header {
            id: request.header.id,
            qr: true,
            opcode: Opcode::Query,
            aa: false,
            tc: request.header.tc,
            rd: request.header.rd,
            ra: true,
            rcode: Rcode::NoError,
            qdcount: 0,
            ancount: 0,
            nscount: 0,
            arcount: 0,
        },
        questions: copy_questions(&request.questions),
        answers: Vec::new(),
        authorities: Vec::new(),
        additionals: Vec::new(),
    };
    assert(m@.answers =~= Seq::<crate::message::RrView>::empty());
    assert(m@.authorities =~= Seq::<crate::message::RrView>::empty());
    assert(m@.additionals =~= Seq::<crate::message::RrView>::empty());
    m
}

pub open spec fn with_rcode(m: MessageView, rcode: Rcode) -> MessageView {
    MessageView { header: Header { rcode, ..m.header }, ..m }
}

/// The response to `request` for a resolution outcome: the records as the
/// answer section; NXDOMAIN for `NxDomain`; an empty NOERROR answer for
/// `NoData`; SERVFAIL for any other failure.
pub open spec fn outcome_response(request: MessageView, outcome: Result<Seq<crate::message::RrView>, SharedResolveError>) -> MessageView {
    let base = default_response(request);
    match outcome {
        Ok(records) => MessageView { answers: records, ..base },
        Err(SharedResolveError::NxDomain) => with_rcode(base, Rcode::NxDomain),
        Err(SharedResolveError::NoData) => base,
        Err(_) => with_rcode(base, Rcode::ServFail),
    }
}

pub open spec fn outcome_view(o: SharedResult) -> Result<Seq<crate::message::RrView>, SharedResolveError> {
    match o {
        Ok(v) => Ok(records_view(v@)),
        Err(e) => Err(e),
    }
}

pub fn response_for(request: &Message, outcome: SharedResult) -> (m: Message)
    ensures
        m@ == outcome_response(request@, outcome_view(outcome)),
{
    let mut response = get_default_res(request);
    match outcome {
        Ok(records) => response.answers = records,
        Err(SharedResolveError::NxDomain) => response.header.rcode = Rcode::NxDomain,
        Err(SharedResolveError::NoData) => {},  // NOERROR with an empty answer section
        Err(_) => response.header.rcode = Rcode::ServFail,
    }
    response
}

/// The largest UDP reply the request allows: the payload size of its first
/// OPT-typed additional record when that record holds OPT data, else 512.
pub open spec fn udp_limit_of(request: MessageView) -> int {
    match first_of_type(request.additionals, QType::OPT, 0) {
        Some(i) => match request.additionals[i].rdata {
            RDataView::OPT(o) => o.udp_payload_size as int,
            _ => 512,
        },
        None => 512,
    }
}

pub fn udp_limit(request: &Message) -> (n: usize)
    ensures
        n as int == udp_limit_of(request@),
{
    let mut i: usize = 0;
    while i < request.additionals.len()
        invariant
            i <= request.additionals@.len(),
            first_of_type(request@.additionals, QType::OPT, 0) == first_of_type(
                request@.additionals,
                QType::OPT,
                i as int,
            ),
        decreases request.additionals@.len() - i,
    {
        if request.additionals[i].rtype == QType::OPT {
            return match &request.additionals[i].rdata {
                RData::OPT(opt) => opt.udp_payload_size as usize,
                _ => 512,
            };
        }
        i = i + 1;
    }
    512
}

/// One truncation step: set TC and drop the last additional record, else
/// the last authority record, else the last answer.
pub open spec fn shrink(m: MessageView) -> MessageView {
    let h = Header { tc: true, ..m.header };
    if m.additionals.len() > 0 {
        MessageView { header: h, additionals: m.additionals.drop_last(), ..m }
    } else if m.authorities.len() > 0 {
        MessageView { header: h, authorities: m.authorities.drop_last(), ..m }
    } else {
        MessageView { header: h, answers: m.answers.drop_last(), ..m }
    }
}

pub open spec fn record_count(m: MessageView) -> nat {
    m.answers.len() + m.authorities.len() + m.additionals.len()
}

/// The first encoding, shrinking step by step, that is at most `limit`
/// bytes; none if even the message without records is too long.
pub open spec fn fit_udp(m: MessageView, limit: int) -> Option<Seq<u8>>
    decreases record_count(m),
{
    if message_wire(m).len() <= limit {
        Some(message_wire(m))
    } else if record_count(m) == 0 {
        None
    } else {
        fit_udp(shrink(m), limit)
    }
}

/// The bytes sent for a response: over TCP the whole encoding; over UDP the
/// first shrunk encoding that fits the limit, or, if none does, the whole
/// encoding after all.
pub open spec fn reply_bytes(response: MessageView, limit: int, is_udp: bool) -> Seq<u8> {
    if !is_udp {
        message_wire(response)
    } else {
        match fit_udp(response, limit) {
            Some(b) => b,
            None => message_wire(response),
        }
    }
}

pub fn fit_to_limit(response: Message, limit: usize, is_udp: bool) -> (out: Vec<u8>)
    requires
        message_encodable(response@),
    ensures
        out@ == reply_bytes(response@, limit as int, is_udp),
{
    let bytes = response.encode();
    if !is_udp {
        return bytes;
    }
    let ghost full = response@;
    let mut resp = response;
    loop
        invariant_except_break
            message_encodable(resp@),
            fit_udp(full, limit as int) == fit_udp(resp@, limit as int),
        invariant
            bytes@ == message_wire(full),
            full == response@,
            is_udp,
        ensures
            fit_udp(full, limit as int) is None,
        decreases record_count(resp@),
    {
        let current = resp.encode();
        if current.len() <= limit {
            assert(fit_udp(resp@, limit as int) == Some(current@));
            return current;
        }
        let ghost before = resp@;
        resp.header.tc = true;
        if resp.additionals.len() > 0 {
            resp.additionals.pop();
        } else if resp.authorities.len() > 0 {
            resp.authorities.pop();
        } else if resp.answers.len() > 0 {
            resp.answers.pop();
        } else {
            assert(record_count(before) == 0);
            assert(fit_udp(before, limit as int) is None);
            break ;
        }
        proof {
            assert(resp@.answers =~= shrink(before).answers);
            assert(resp@.authorities =~= shrink(before).authorities);
            assert(resp@.additionals =~= shrink(before).additionals);
            assert(resp@ =~= shrink(before));
        }
    }
    bytes
}


/// The reply to `request` for a resolution outcome: see `outcome_response`
/// for the response and `reply_bytes` for how it is cut to fit UDP.
pub fn build_reply(request: &Message, outcome: SharedResult, is_udp: bool) -> (out: Vec<u8>)
    requires
        outcome matches Ok(v) ==> records_encodable(records_view(v@)),
    ensures
        out@ == reply_bytes(
            outcome_response(request@, outcome_view(outcome)),
            udp_limit_of(request@),
            is_udp,
        ),
{
    let response = response_for(request, outcome);
    let limit = udp_limit(request);
    fit_to_limit(response, limit, is_udp)
}

/// The SERVFAIL reply sent when the server is too busy: the request's id,
/// RD flag and questions, QR and RA set, and no records.
pub open spec fn servfail_view(request: MessageView) -> MessageView {
    MessageView {
        header: Header {
            id: request.header.id,
            qr: true,
            opcode: Opcode::Query,
            aa: false,
            tc: false,
            rd: request.header.rd,
            ra: true,
            rcode: Rcode::ServFail,
            qdcount: request.questions.len() as u16,
            ancount: 0,
            nscount: 0,
            arcount: 0,
        },
        questions: request.questions,
        answers: seq![],
        authorities: seq![],
        additionals: seq![],
    }
}

pub fn servfail_response(request: Message) -> (m: Message)
    ensures
        m@ == servfail_view(request@),
{
    let m = Message {
        header: Header {
            id: request.header.id,
            qr: true,
            opcode: Opcode::Query,
            aa: false,
            tc: false,
            rd: request.header.rd,
            ra: true,
            rcode: Rcode::ServFail,
            qdcount: request.questions.len() as u16,
            ancount: 0,
            nscount: 0,
            arcount: 0,
        },
        questions: request.questions,
        answers: Vec::new(),
        authorities: Vec::new(),
        additionals: Vec::new(),
    };
    assert(m@.answers =~= Seq::<crate::message::RrView>::empty());
    assert(m@.authorities =~= Seq::<crate::message::RrView>::empty());
    assert(m@.additionals =~= Seq::<crate::message::RrView>::empty());
    m
}

/// The bytes of the SERVFAIL reply to a request given as bytes; `None` when
/// the request does not decode (there is nothing sensible to reply to).
pub fn servfail_reply(data: &[u8]) -> (out: Option<Vec<u8>>)
    ensures
        match crate::message::parse_message(data@) {
            Ok(req) => out matches Some(b) && b@ == message_wire(servfail_view(req)),
            Err(_) => out is None,
        },
{
    let request = match Message::decode(data) {
        Ok(m) => m,
        Err(_) => return None,
    };
    let response = servfail_response(request);
    Some(response.encode())
}

// ---------- What a UDP reply keeps ----------

/// `r` is `m` cut down: TC set, the same questions, and a leading part of
/// each record section.
pub open spec fn truncation_of(r: MessageView, m: MessageView) -> bool {
    &&& r.header == (Header { tc: true, ..m.header })
    &&& r.questions == m.questions
    &&& r.answers.len() <= m.answers.len() && r.answers == m.answers.take(r.answers.len() as int)
    &&& r.authorities.len() <= m.authorities.len() && r.authorities == m.authorities.take(
        r.authorities.len() as int,
    )
    &&& r.additionals.len() <= m.additionals.len() && r.additionals == m.additionals.take(
        r.additionals.len() as int,
    )
}

/// `m` with every record dropped (and TC set if there were any).
pub open spec fn without_records(m: MessageView) -> MessageView {
    MessageView {
        header: if record_count(m) > 0 {
            Header { tc: true, ..m.header }
        } else {
            m.header
        },
        answers: seq![],
        authorities: seq![],
        additionals: seq![],
        ..m
    }
}

/// A UDP reply is never longer than the limit: it is the whole response
/// when that fits, else a cut-down response with TC set that keeps the
/// questions and a leading part of each section. No reply within the limit
/// exists only when the response without any record is already too long.
pub proof fn law_udp_reply_fits(m: MessageView, limit: int)
    ensures
        fit_udp(m, limit) matches Some(b) ==> b.len() <= limit && (b == message_wire(m) || exists|
            r: MessageView,
        | truncation_of(r, m) && b == #[trigger] message_wire(r)),
        fit_udp(m, limit) is None ==> message_wire(without_records(m)).len() > limit,
    decreases record_count(m),
{
    if message_wire(m).len() <= limit {
    } else if record_count(m) == 0 {
        assert(without_records(m).answers =~= m.answers);
        assert(without_records(m).authorities =~= m.authorities);
        assert(without_records(m).additionals =~= m.additionals);
        assert(without_records(m) == m);
    } else {
        let n = shrink(m);
        law_udp_reply_fits(n, limit);
        assert(truncation_of(n, m)) by {
            assert(m.answers.take(m.answers.len() as int) =~= m.answers);
            assert(m.authorities.take(m.authorities.len() as int) =~= m.authorities);
            assert(m.additionals.take(m.additionals.len() as int) =~= m.additionals);
            if m.additionals.len() > 0 {
                assert(n.additionals =~= m.additionals.take(n.additionals.len() as int));
            } else if m.authorities.len() > 0 {
                assert(n.authorities =~= m.authorities.take(n.authorities.len() as int));
            } else {
                assert(n.answers =~= m.answers.take(n.answers.len() as int));
            }
        }
        match fit_udp(n, limit) {
            Some(b) => {
                if b != message_wire(n) {
                    let r = choose|r: MessageView| truncation_of(r, n) && b == #[trigger] message_wire(r);
                    assert(r.answers =~= m.answers.take(r.answers.len() as int));
                    assert(r.authorities =~= m.authorities.take(r.authorities.len() as int));
                    assert(r.additionals =~= m.additionals.take(r.additionals.len() as int));
                    assert(truncation_of(r, m));
                }
            },
            None => {
                assert(without_records(n) == without_records(m));
            },
        }
    }
}

// ---------- DNS over TCP framing (RFC 1035 4.2.2) ----------

/// The two-byte length that goes before a message on a stream: the
/// message's length cut to 16 bits, most significant byte first.
pub fn tcp_length_prefix(len: usize) -> (p: [u8; 2])
    ensures
        p@ == be16((len % 65536) as u16),
{
    let n: u16 = (len % 65536) as u16;
    [(n / 256) as u8, (n % 256) as u8]
}

/// The length of the message that follows a two-byte prefix on a stream.
pub fn tcp_message_len(prefix: [u8; 2]) -> (n: usize)
    ensures
        n == u16_at(prefix@, 0),
{
    (prefix[0] as usize) * 256 + (prefix[1] as usize)
}

/// Without an OPT record among its additional records, a request's UDP
/// replies are held to the 512 bytes of RFC 1035; with one, to the payload
/// size of the first.
pub proof fn law_udp_limit(request: MessageView)
    ensures
        (forall|i: int| 0 <= i < request.additionals.len() ==> #[trigger] request.additionals[i].rtype
            != QType::OPT) ==> udp_limit_of(request) == 512,
{
    crate::resolver::law_first_of_type(request.additionals, QType::OPT, 0);
}

/// Every response the server builds answers the request: it carries the
/// request's id and questions, has QR and RA set and RD as the request had
/// it; its answers are the records found (none on an error); its code is
/// NXDOMAIN for a name that does not exist, NOERROR for records or for no
/// data, and SERVFAIL for any other failure.
pub proof fn law_response_answers_request(
    request: MessageView,
    outcome: Result<Seq<crate::message::RrView>, SharedResolveError>,
)
    ensures
        ({
            let r = outcome_response(request, outcome);
            &&& r.header.id == request.header.id
            &&& r.header.qr
            &&& r.header.ra
            &&& r.header.rd == request.header.rd
            &&& r.header.opcode == Opcode::Query
            &&& r.questions == request.questions
            &&& r.authorities.len() == 0 && r.additionals.len() == 0
            &&& outcome matches Ok(v) ==> r.answers == v && r.header.rcode == Rcode::NoError
            &&& outcome matches Err(e) ==> r.answers.len() == 0 && r.header.rcode == (match e {
                SharedResolveError::NxDomain => Rcode::NxDomain,
                SharedResolveError::NoData => Rcode::NoError,
                _ => Rcode::ServFail,
            })
        }),
{
}

/// The busy server's reply carries the request's id, RD flag and
/// questions, has QR and RA set, code SERVFAIL and no records.
pub proof fn law_servfail_answers_request(request: MessageView)
    ensures
        ({
            let r = servfail_view(request);
            &&& r.header.id == request.header.id
            &&& r.header.qr && r.header.ra && !r.header.tc
            &&& r.header.rd == request.header.rd
            &&& r.header.rcode == Rcode::ServFail
            &&& r.questions == request.questions
            &&& r.answers.len() == 0 && r.authorities.len() == 0 && r.additionals.len() == 0
        }),
{
}

} // verus!
