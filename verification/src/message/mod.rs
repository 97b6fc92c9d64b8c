//! The DNS wire format (RFC 1035): header, question and resource records.
pub mod codec_laws;
pub mod compress;
pub mod formatter;
pub mod record_types;
pub mod wire;

use vstd::prelude::*;

use vstd::utf8::encode_utf8;

use crate::message::compress::{Labels, NameOffsets};
use crate::message::record_types::{
    enc_name, enc_soa, labels_wire, options_wire, parse_name, parse_opt, parse_soa, parse_txt,
    txt_strings_fit, Name, OptRecord, OptView, SOARecord, SoaView, Table, TxtRecord,
};
use crate::message::wire::{be16, be32, push_u16, push_u32, read_u16, read_u32, u16_at, u32_at};

verus! {

/// Why a wire-format message could not be decoded.
#[derive(Debug, Clone, Copy, PartialEq, Eq, Structural)]
pub enum DecodeError {
    UnexpectedEof,
    LabelTooLong,
    NameTooLong,
    TooManyPointerHops,
    BadPointerOffset,
}

/// The name of each error variant, as the error prints itself.
pub open spec fn decode_error_name(e: DecodeError) -> Seq<char> {
    match e {
        DecodeError::UnexpectedEof => "UnexpectedEof"@,
        DecodeError::LabelTooLong => "LabelTooLong"@,
        DecodeError::NameTooLong => "NameTooLong"@,
        DecodeError::TooManyPointerHops => "TooManyPointerHops"@,
        DecodeError::BadPointerOffset => "BadPointerOffset"@,
    }
}

impl DecodeError {
    /// The variant's name: what the error shows when it is printed.
    pub fn describe(&self) -> (s: &'static str)
        ensures
            s@ == decode_error_name(*self),
    {
        match self {
            DecodeError::UnexpectedEof => "UnexpectedEof",
            DecodeError::LabelTooLong => "LabelTooLong",
            DecodeError::NameTooLong => "NameTooLong",
            DecodeError::TooManyPointerHops => "TooManyPointerHops",
            DecodeError::BadPointerOffset => "BadPointerOffset",
        }
    }
}

// ---------- Header ----------

#[derive(Debug, Clone, Copy, PartialEq, Eq, Structural)]
pub enum Opcode {
    Query,
    IQuery,
    Status,
    Other(u8),
}

pub open spec fn opcode_to_u8(o: Opcode) -> u8 {
    match o {
        Opcode::Query => 0,
        Opcode::IQuery => 1,
        Opcode::Status => 2,
        Opcode::Other(v) => v,
    }
}

pub open spec fn opcode_from_u8(v: u8) -> Opcode {
    if v == 0 {
        Opcode::Query
    } else if v == 1 {
        Opcode::IQuery
    } else if v == 2 {
        Opcode::Status
    } else {
        Opcode::Other(v)
    }
}

impl Opcode {
    pub fn from_u8(v: u8) -> (o: Opcode)
        ensures
            o == opcode_from_u8(v),
    {
        match v {
            0 => Opcode::Query,
            1 => Opcode::IQuery,
            2 => Opcode::Status,
            other => Opcode::Other(other),
        }
    }

    pub fn to_u8(self) -> (v: u8)
        ensures
            v == opcode_to_u8(self),
    {
        match self {
            Opcode::Query => 0,
            Opcode::IQuery => 1,
            Opcode::Status => 2,
            Opcode::Other(v) => v,
        }
    }
}

#[derive(Debug, Clone, Copy, PartialEq, Eq, Structural)]
pub enum Rcode {
    NoError,
    FormErr,
    ServFail,
    NxDomain,
    NotImp,
    Refused,
    Other(u8),
}

pub open spec fn rcode_to_u8(r: Rcode) -> u8 {
    match r {
        Rcode::NoError => 0,
        Rcode::FormErr => 1,
        Rcode::ServFail => 2,
        Rcode::NxDomain => 3,
        Rcode::NotImp => 4,
        Rcode::Refused => 5,
        Rcode::Other(v) => v,
    }
}

pub open spec fn rcode_from_u8(v: u8) -> Rcode {
    if v == 0 {
        Rcode::NoError
    } else if v == 1 {
        Rcode::FormErr
    } else if v == 2 {
        Rcode::ServFail
    } else if v == 3 {
        Rcode::NxDomain
    } else if v == 4 {
        Rcode::NotImp
    } else if v == 5 {
        Rcode::Refused
    } else {
        Rcode::Other(v)
    }
}

impl Rcode {
    pub fn from_u8(v: u8) -> (r: Rcode)
        ensures
            r == rcode_from_u8(v),
    {
        match v {
            0 => Rcode::NoError,
            1 => Rcode::FormErr,
            2 => Rcode::ServFail,
            3 => Rcode::NxDomain,
            4 => Rcode::NotImp,
            5 => Rcode::Refused,
            other => Rcode::Other(other),
        }
    }

    pub fn to_u8(self) -> (v: u8)
        ensures
            v == rcode_to_u8(self),
    {
        match self {
            Rcode::NoError => 0,
            Rcode::FormErr => 1,
            Rcode::ServFail => 2,
            Rcode::NxDomain => 3,
            Rcode::NotImp => 4,
            Rcode::Refused => 5,
            Rcode::Other(v) => v,
        }
    }
}

#[derive(Debug, Clone, Copy)]
pub struct Header {
    pub id: u16,
    pub qr: bool,
    pub opcode: Opcode,
    pub aa: bool,
    pub tc: bool,
    pub rd: bool,
    pub ra: bool,
    pub rcode: Rcode,
    pub qdcount: u16,
    pub ancount: u16,
    pub nscount: u16,
    pub arcount: u16,
}

pub open spec fn flag(b: bool, mask: u16) -> u16 {
    if b {
        mask
    } else {
        0u16
    }
}

/// The second header word: QR, Opcode, AA, TC, RD, RA, Z (zero) and RCODE.
pub open spec fn header_flags(h: Header) -> u16 {
    flag(h.qr, 0x8000) | (((opcode_to_u8(h.opcode) as u16) & 0x0F) << 11u16) | flag(h.aa, 0x400)
        | flag(h.tc, 0x200) | flag(h.rd, 0x100) | flag(h.ra, 0x80) | ((rcode_to_u8(h.rcode) as u16)
        & 0x0F)
}

/// The twelve bytes that encode a header.
pub open spec fn header_bytes(h: Header) -> Seq<u8> {
    be16(h.id) + be16(header_flags(h)) + be16(h.qdcount) + be16(h.ancount) + be16(h.nscount)
        + be16(h.arcount)
}

/// The header whose id, flag word and counts are the given words.
pub open spec fn header_from_words(
    id: u16,
    flags: u16,
    qd: u16,
    an: u16,
    ns: u16,
    ar: u16,
) -> Header {
    Header {
        id,
        qr: (flags >> 15u16) & 1 == 1,
        opcode: opcode_from_u8(((flags >> 11u16) & 0x0F) as u8),
        aa: (flags >> 10u16) & 1 == 1,
        tc: (flags >> 9u16) & 1 == 1,
        rd: (flags >> 8u16) & 1 == 1,
        ra: (flags >> 7u16) & 1 == 1,
        rcode: rcode_from_u8((flags & 0x0F) as u8),
        qdcount: qd,
        ancount: an,
        nscount: ns,
        arcount: ar,
    }
}

/// Decoding a header at `pos`: twelve bytes, or `UnexpectedEof`.
pub open spec fn parse_header(buf: Seq<u8>, pos: int) -> Result<(Header, int), DecodeError> {
    if 0 <= pos && pos + 12 <= buf.len() {
        Ok(
            (
                header_from_words(
                    u16_at(buf, pos),
                    u16_at(buf, pos + 2),
                    u16_at(buf, pos + 4),
                    u16_at(buf, pos + 6),
                    u16_at(buf, pos + 8),
                    u16_at(buf, pos + 10),
                ),
                pos + 12,
            ),
        )
    } else {
        Err(DecodeError::UnexpectedEof)
    }
}

impl Header {
    /// A fresh query header: one question, no records, no flags but RD.
    pub open spec fn new_query_spec(id: u16, recursion_desired: bool) -> Header {
        Header {
            id,
            qr: false,
            opcode: Opcode::Query,
            aa: false,
            tc: false,
            rd: recursion_desired,
            ra: false,
            rcode: Rcode::NoError,
            qdcount: 1,
            ancount: 0,
            nscount: 0,
            arcount: 0,
        }
    }

    pub fn new_query(id: u16, recursion_desired: bool) -> (h: Header)
        ensures
            h == Header::new_query_spec(id, recursion_desired),
    {
        Header {
            id,
            qr: false,
            opcode: Opcode::Query,
            aa: false,
            tc: false,
            rd: recursion_desired,
            ra: false,
            rcode: Rcode::NoError,
            qdcount: 1,
            ancount: 0,
            nscount: 0,
            arcount: 0,
        }
    }

    pub fn encode(&self, out: &mut Vec<u8>)
        ensures
            final(out)@ == old(out)@ + header_bytes(*self),
    {
        push_u16(out, self.id);
        let qr: u16 = if self.qr { 0x8000 } else { 0 };
        let aa: u16 = if self.aa { 0x400 } else { 0 };
        let tc: u16 = if self.tc { 0x200 } else { 0 };
        let rd: u16 = if self.rd { 0x100 } else { 0 };
        let ra: u16 = if self.ra { 0x80 } else { 0 };
        // bits 6-4 are Z (reserved, must be zero)
        let flags: u16 = qr | (((self.opcode.to_u8() as u16) & 0x0F) << 11u16) | aa | tc | rd | ra
            | ((self.rcode.to_u8() as u16) & 0x0F);
        push_u16(out, flags);
        push_u16(out, self.qdcount);
        push_u16(out, self.ancount);
        push_u16(out, self.nscount);
        push_u16(out, self.arcount);
        assert(final(out)@ =~= old(out)@ + header_bytes(*self));
    }

    /// Decodes a header at `*pos`. On success `*pos` is just past it; on
    /// failure the error is `UnexpectedEof` and `*pos` is not specified.
    pub fn decode(buf: &[u8], pos: &mut usize) -> (res: Result<Header, DecodeError>)
        ensures
            match parse_header(buf@, *old(pos) as int) {
                Ok((h, next)) => res == Ok::<Header, DecodeError>(h) && *final(pos) == next,
                Err(e) => res == Err::<Header, DecodeError>(e),
            },
    {
        let id = read_u16(buf, pos)?;
        let flags = read_u16(buf, pos)?;
        let qdcount = read_u16(buf, pos)?;
        let ancount = read_u16(buf, pos)?;
        let nscount = read_u16(buf, pos)?;
        let arcount = read_u16(buf, pos)?;
        Ok(
            Header {
                id,
                qr: (flags >> 15u16) & 1 == 1,
                opcode: Opcode::from_u8(((flags >> 11u16) & 0x0F) as u8),
                aa: (flags >> 10u16) & 1 == 1,
                tc: (flags >> 9u16) & 1 == 1,
                rd: (flags >> 8u16) & 1 == 1,
                ra: (flags >> 7u16) & 1 == 1,
                rcode: Rcode::from_u8((flags & 0x0F) as u8),
                qdcount,
                ancount,
                nscount,
                arcount,
            },
        )
    }
}


// ---------- QType / QClass ----------

#[derive(Debug, Clone, Copy, PartialEq, Eq, Hash, Structural)]
pub enum QType {
    A,
    NS,
    CNAME,
    SOA,
    PTR,
    MX,
    TXT,
    AAAA,
    ANY,
    OPT,
    Other(u16),
}

pub open spec fn qtype_to_u16(t: QType) -> u16 {
    match t {
        QType::A => 1,
        QType::NS => 2,
        QType::CNAME => 5,
        QType::SOA => 6,
        QType::PTR => 12,
        QType::MX => 15,
        QType::TXT => 16,
        QType::AAAA => 28,
        QType::OPT => 41,
        QType::ANY => 255,
        QType::Other(v) => v,
    }
}

/// Note that code 41 reads back as `Other(41)`, not as `OPT`.
pub open spec fn qtype_from_u16(v: u16) -> QType {
    if v == 1 {
        QType::A
    } else if v == 2 {
        QType::NS
    } else if v == 5 {
        QType::CNAME
    } else if v == 6 {
        QType::SOA
    } else if v == 12 {
        QType::PTR
    } else if v == 15 {
        QType::MX
    } else if v == 16 {
        QType::TXT
    } else if v == 28 {
        QType::AAAA
    } else if v == 255 {
        QType::ANY
    } else {
        QType::Other(v)
    }
}

impl QType {
    pub fn to_u16(self) -> (v: u16)
        ensures
            v == qtype_to_u16(self),
    {
        match self {
            QType::A => 1,
            QType::NS => 2,
            QType::CNAME => 5,
            QType::SOA => 6,
            QType::PTR => 12,
            QType::MX => 15,
            QType::TXT => 16,
            QType::AAAA => 28,
            QType::OPT => 41,
            QType::ANY => 255,
            QType::Other(v) => v,
        }
    }

    pub fn from_u16(v: u16) -> (t: QType)
        ensures
            t == qtype_from_u16(v),
    {
        match v {
            1 => QType::A,
            2 => QType::NS,
            5 => QType::CNAME,
            6 => QType::SOA,
            12 => QType::PTR,
            15 => QType::MX,
            16 => QType::TXT,
            28 => QType::AAAA,
            255 => QType::ANY,
            other => QType::Other(other),
        }
    }

    /// The record types that an `ANY` question stands for.
    pub fn any_types() -> (v: Vec<QType>)
        ensures
            v@ == seq![QType::A, QType::AAAA, QType::CNAME, QType::SOA, QType::TXT],
    {
        let v = vec![QType::A, QType::AAAA, QType::CNAME, QType::SOA, QType::TXT];
        assert(v@ =~= seq![QType::A, QType::AAAA, QType::CNAME, QType::SOA, QType::TXT]);
        v
    }
}

#[derive(Debug, Clone, Copy, PartialEq, Eq, Structural)]
pub enum QClass {
    IN,
    Other(u16),
}

pub open spec fn qclass_to_u16(c: QClass) -> u16 {
    match c {
        QClass::IN => 1,
        QClass::Other(v) => v,
    }
}

pub open spec fn qclass_from_u16(v: u16) -> QClass {
    if v == 1 {
        QClass::IN
    } else {
        QClass::Other(v)
    }
}

impl QClass {
    pub fn to_u16(self) -> (v: u16)
        ensures
            v == qclass_to_u16(self),
    {
        match self {
            QClass::IN => 1,
            QClass::Other(v) => v,
        }
    }

    pub fn from_u16(v: u16) -> (c: QClass)
        ensures
            c == qclass_from_u16(v),
    {
        match v {
            1 => QClass::IN,
            other => QClass::Other(other),
        }
    }
}


/// A label on the wire: its byte length (as a `u8`), then its UTF-8 bytes.
pub open spec fn label_wire(label: Seq<char>) -> Seq<u8> {
    seq![encode_utf8(label).len() as u8] + encode_utf8(label)
}

/// Appends `bytes` to `out`.
pub fn push_bytes(out: &mut Vec<u8>, bytes: &[u8])
    ensures
        final(out)@ == old(out)@ + bytes@,
{
    let mut i: usize = 0;
    while i < bytes.len()
        invariant
            i <= bytes@.len(),
            out@ == old(out)@ + bytes@.subrange(0, i as int),
        decreases bytes@.len() - i,
    {
        out.push(bytes[i]);
        i = i + 1;
        assert(out@ =~= old(out)@ + bytes@.subrange(0, i as int));
    }
    assert(bytes@.subrange(0, bytes@.len() as int) =~= bytes@);
}

/// Writes one label: its length octet, then its bytes. The length is cut to
/// its low eight bits, as a `u8` cast does.
pub fn write_label(out: &mut Vec<u8>, label: &str)
    ensures
        final(out)@ == old(out)@ + label_wire(label@),
{
    let bytes = label.as_bytes();
    out.push(bytes.len() as u8);
    push_bytes(out, bytes);
    assert(final(out)@ =~= old(out)@ + label_wire(label@));
}


// ---------- Question ----------

#[derive(Debug)]
pub struct Question {
    pub name: Name,
    pub qtype: QType,
    pub qclass: QClass,
}

pub struct QuestionView {
    pub name: Labels,
    pub qtype: QType,
    pub qclass: QClass,
}

impl View for Question {
    type V = QuestionView;

    open spec fn view(&self) -> QuestionView {
        QuestionView { name: self.name@, qtype: self.qtype, qclass: self.qclass }
    }
}

impl Clone for Question {
    fn clone(&self) -> (r: Question)
        ensures
            r@ == self@,
    {
        Question { name: self.name.clone(), qtype: self.qtype, qclass: self.qclass }
    }
}

pub open spec fn enc_question(st: (Seq<u8>, Table), q: QuestionView) -> (Seq<u8>, Table) {
    let s1 = enc_name(st, q.name);
    (s1.0 + be16(qtype_to_u16(q.qtype)) + be16(qclass_to_u16(q.qclass)), s1.1)
}

pub open spec fn parse_question(buf: Seq<u8>, pos: int) -> Result<(QuestionView, int), DecodeError> {
    match parse_name(buf, pos) {
        Err(e) => Err(e),
        Ok((name, p1)) => if p1 + 4 <= buf.len() {
            Ok(
                (
                    QuestionView {
                        name,
                        qtype: qtype_from_u16(u16_at(buf, p1)),
                        qclass: qclass_from_u16(u16_at(buf, p1 + 2)),
                    },
                    p1 + 4,
                ),
            )
        } else {
            Err(DecodeError::UnexpectedEof)
        },
    }
}

impl Question {
    pub fn encode(&self, out: &mut Vec<u8>, name_offsets: &mut NameOffsets)
        requires
            old(name_offsets).wf(),
        ensures
            final(name_offsets).wf(),
            (final(out)@, final(name_offsets)@) == enc_question(
                (old(out)@, old(name_offsets)@),
                self@,
            ),
    {
        self.name.encode(out, name_offsets);
        let ghost mid = out@;
        push_u16(out, self.qtype.to_u16());
        push_u16(out, self.qclass.to_u16());
        assert(out@ =~= mid + be16(qtype_to_u16(self.qtype)) + be16(qclass_to_u16(self.qclass)));
    }

    /// Decodes a question at `*pos`. On failure `*pos` is not specified.
    pub fn decode(buf: &[u8], pos: &mut usize) -> (res: Result<Question, DecodeError>)
        ensures
            match parse_question(buf@, *old(pos) as int) {
                Ok((v, next)) => res is Ok && res->Ok_0@ == v && *final(pos) == next,
                Err(e) => res == Err::<Question, DecodeError>(e),
            },
    {
        let name = Name::decode(buf, pos)?;
        let qtype = QType::from_u16(read_u16(buf, pos)?);
        let qclass = QClass::from_u16(read_u16(buf, pos)?);
        Ok(Question { name, qtype, qclass })
    }
}

// ---------- Resource record ----------

/// A record's data. Addresses are held as their octets.
#[derive(Debug)]
pub enum RData {
    A([u8; 4]),
    AAAA([u8; 16]),
    NS(Name),
    CNAME(Name),
    SOA(SOARecord),
    TXT(TxtRecord),
    OPT(OptRecord),
    // Fallback for anything we don't specifically model yet (MX, PTR, ...).
    Raw(Vec<u8>),
}

pub enum RDataView {
    A(Seq<u8>),
    AAAA(Seq<u8>),
    NS(Labels),
    CNAME(Labels),
    SOA(SoaView),
    TXT(Labels),
    OPT(OptView),
    Raw(Seq<u8>),
}

impl View for RData {
    type V = RDataView;

    open spec fn view(&self) -> RDataView {
        match self {
            RData::A(b) => RDataView::A(b@),
            RData::AAAA(b) => RDataView::AAAA(b@),
            RData::NS(n) => RDataView::NS(n@),
            RData::CNAME(n) => RDataView::CNAME(n@),
            RData::SOA(s) => RDataView::SOA(s@),
            RData::TXT(t) => RDataView::TXT(t@),
            RData::OPT(o) => RDataView::OPT(o@),
            RData::Raw(b) => RDataView::Raw(b@),
        }
    }
}

impl Clone for RData {
    fn clone(&self) -> (r: RData)
        ensures
            r@ == self@,
    {
        match self {
            RData::A(b) => RData::A(*b),
            RData::AAAA(b) => RData::AAAA(*b),
            RData::NS(n) => RData::NS(n.clone()),
            RData::CNAME(n) => RData::CNAME(n.clone()),
            RData::SOA(s) => RData::SOA(s.clone()),
            RData::TXT(t) => RData::TXT(t.clone()),
            RData::OPT(o) => RData::OPT(o.clone()),
            RData::Raw(b) => RData::Raw(vstd::slice::slice_to_vec(b.as_slice())),
        }
    }
}

/// Record data that can be written: each TXT string fits its length octet.
pub open spec fn rdata_encodable(rd: RDataView) -> bool {
    match rd {
        RDataView::TXT(t) => txt_strings_fit(t),
        _ => true,
    }
}

pub open spec fn enc_rdata(st: (Seq<u8>, Table), rd: RDataView) -> (Seq<u8>, Table) {
    match rd {
        RDataView::A(b) => (st.0 + b, st.1),
        RDataView::AAAA(b) => (st.0 + b, st.1),
        RDataView::NS(n) => enc_name(st, n),
        RDataView::CNAME(n) => enc_name(st, n),
        RDataView::SOA(soa) => enc_soa(st, soa),
        RDataView::TXT(t) => (st.0 + labels_wire(t), st.1),
        RDataView::OPT(o) => (st.0 + options_wire(o.options), st.1),
        RDataView::Raw(b) => (st.0 + b, st.1),
    }
}

/// Whether each TXT string fits its length octet.
pub fn txt_fits(t: &TxtRecord) -> (r: bool)
    ensures
        r == txt_strings_fit(t@),
{
    let mut i: usize = 0;
    while i < t.0.len()
        invariant
            i <= t.0@.len(),
            forall|k: int| 0 <= k < i ==> encode_utf8(#[trigger] t@[k]).len() <= 255,
        decreases t.0@.len() - i,
    {
        if t.0[i].as_str().as_bytes().len() > 255 {
            assert(t@[i as int] == t.0@[i as int]@);
            return false;
        }
        i = i + 1;
    }
    true
}

impl RData {
    /// Whether the data can be written (see `rdata_encodable`).
    pub fn can_encode(&self) -> (r: bool)
        ensures
            r == rdata_encodable(self@),
    {
        match self {
            RData::TXT(t) => txt_fits(t),
            _ => true,
        }
    }

    pub fn encode(&self, out: &mut Vec<u8>, name_offsets: &mut NameOffsets)
        requires
            old(name_offsets).wf(),
            rdata_encodable(self@),
        ensures
            final(name_offsets).wf(),
            (final(out)@, final(name_offsets)@) == enc_rdata(
                (old(out)@, old(name_offsets)@),
                self@,
            ),
    {
        match self {
            RData::A(ip) => push_bytes(out, ip.as_slice()),
            RData::AAAA(ip) => push_bytes(out, ip.as_slice()),
            RData::NS(n) => n.encode(out, name_offsets),
            RData::CNAME(n) => n.encode(out, name_offsets),
            RData::SOA(r) => r.encode(out, name_offsets),
            RData::TXT(txt) => txt.encode(out),
            RData::OPT(opt) => opt.encode(out),
            RData::Raw(bytes) => push_bytes(out, bytes.as_slice()),
        }
    }
}

#[derive(Debug)]
pub struct ResourceRecord {
    pub name: Name,
    pub rtype: QType,
    pub rclass: QClass,
    pub ttl: u32,
    pub rdata: RData,
}

pub struct RrView {
    pub name: Labels,
    pub rtype: QType,
    pub rclass: QClass,
    pub ttl: u32,
    pub rdata: RDataView,
}

impl View for ResourceRecord {
    type V = RrView;

    open spec fn view(&self) -> RrView {
        RrView {
            name: self.name@,
            rtype: self.rtype,
            rclass: self.rclass,
            ttl: self.ttl,
            rdata: self.rdata@,
        }
    }
}

impl Clone for ResourceRecord {
    fn clone(&self) -> (r: ResourceRecord)
        ensures
            r@ == self@,
    {
        ResourceRecord {
            name: self.name.clone(),
            rtype: self.rtype,
            rclass: self.rclass,
            ttl: self.ttl,
            rdata: self.rdata.clone(),
        }
    }
}

/// The fixed fields after a record's owner name: type, class and TTL.
pub open spec fn rr_fixed(rr: RrView) -> Seq<u8> {
    be16(qtype_to_u16(rr.rtype)) + be16(qclass_to_u16(rr.rclass)) + be32(rr.ttl)
}

/// Writing a record: owner name, type, class, TTL, then RDLENGTH (the
/// number of RDATA bytes, cut to a `u16`) and the RDATA. Names in the RDATA
/// are compressed against offsets that count the RDLENGTH field.
pub open spec fn enc_rr(st: (Seq<u8>, Table), rr: RrView) -> (Seq<u8>, Table) {
    let s1 = enc_name(st, rr.name);
    let b1 = s1.0 + rr_fixed(rr);
    let s2 = enc_rdata((b1 + seq![0u8, 0u8], s1.1), rr.rdata);
    let rdata_bytes = s2.0.subrange(b1.len() as int + 2, s2.0.len() as int);
    (b1 + be16(rdata_bytes.len() as u16) + rdata_bytes, s2.1)
}

/// Decoding the RDATA of a record of type `rtype`: `rdlength` bytes at `start`.
pub open spec fn parse_rdata(buf: Seq<u8>, rtype: QType, start: int, rdlength: int) -> Result<
    RDataView,
    DecodeError,
> {
    match rtype {
        QType::A => if rdlength != 4 {
            Err(DecodeError::UnexpectedEof)
        } else {
            Ok(RDataView::A(buf.subrange(start, start + 4)))
        },
        QType::AAAA => if rdlength != 16 {
            Err(DecodeError::UnexpectedEof)
        } else {
            Ok(RDataView::AAAA(buf.subrange(start, start + 16)))
        },
        QType::NS => match parse_name(buf, start) {
            Ok((n, _)) => Ok(RDataView::NS(n)),
            Err(e) => Err(e),
        },
        QType::CNAME => match parse_name(buf, start) {
            Ok((n, _)) => Ok(RDataView::CNAME(n)),
            Err(e) => Err(e),
        },
        QType::SOA => match parse_soa(buf, start) {
            Ok((v, _)) => Ok(RDataView::SOA(v)),
            Err(e) => Err(e),
        },
        QType::TXT => match parse_txt(buf, start, rdlength) {
            Ok((v, _)) => Ok(RDataView::TXT(v)),
            Err(e) => Err(e),
        },
        QType::OPT => if start + 6 > buf.len() {
            Err(DecodeError::UnexpectedEof)
        } else {
            match parse_opt(buf, u16_at(buf, start), u32_at(buf, start + 2), start, rdlength) {
                Ok((v, _)) => Ok(RDataView::OPT(v)),
                Err(e) => Err(e),
            }
        },
        _ => Ok(RDataView::Raw(buf.subrange(start, start + rdlength))),
    }
}

pub open spec fn parse_rr(buf: Seq<u8>, pos: int) -> Result<(RrView, int), DecodeError> {
    match parse_name(buf, pos) {
        Err(e) => Err(e),
        Ok((name, p1)) => if p1 + 10 > buf.len() {
            Err(DecodeError::UnexpectedEof)
        } else {
            let rtype = qtype_from_u16(u16_at(buf, p1));
            let start = p1 + 10;
            let rdlength = u16_at(buf, p1 + 8) as int;
            if start + rdlength > buf.len() {
                Err(DecodeError::UnexpectedEof)
            } else {
                match parse_rdata(buf, rtype, start, rdlength) {
                    Err(e) => Err(e),
                    Ok(rdata) => Ok(
                        (
                            RrView {
                                name,
                                rtype,
                                rclass: qclass_from_u16(u16_at(buf, p1 + 2)),
                                ttl: u32_at(buf, p1 + 4),
                                rdata,
                            },
                            start + rdlength,
                        ),
                    ),
                }
            }
        },
    }
}

/// `[buf[s], .., buf[s + 3]]`.
fn octets4(buf: &[u8], s: usize) -> (r: [u8; 4])
    requires
        s + 4 <= buf@.len(),
    ensures
        r@ == buf@.subrange(s as int, s + 4),
{
    let r = [buf[s], buf[s + 1], buf[s + 2], buf[s + 3]];
    assert(r@ =~= buf@.subrange(s as int, s + 4));
    r
}

/// `buf[s..s + 16]` as an array.
fn octets16(buf: &[u8], s: usize) -> (r: [u8; 16])
    requires
        s + 16 <= buf@.len(),
    ensures
        r@ == buf@.subrange(s as int, s + 16),
{
    let n = buf.len();
    let mut r = [0u8; 16];
    let mut i: usize = 0;
    while i < 16
        invariant
            n == buf@.len(),
            i <= 16,
            s + 16 <= buf@.len(),
            forall|k: int| 0 <= k < i ==> r@[k] == buf@[s + k],
        decreases 16 - i,
    {
        r[i] = buf[s + i];
        i = i + 1;
    }
    assert(r@ =~= buf@.subrange(s as int, s + 16));
    r
}

impl ResourceRecord {
    #[verifier::spinoff_prover]
    #[verifier::rlimit(50)]
    pub fn encode(&self, out: &mut Vec<u8>, name_offsets: &mut NameOffsets)
        requires
            old(name_offsets).wf(),
            rdata_encodable(self.rdata@),
        ensures
            final(name_offsets).wf(),
            (final(out)@, final(name_offsets)@) == enc_rr((old(out)@, old(name_offsets)@), self@),
    {
        self.name.encode(out, name_offsets);
        let ghost after_name = out@;
        push_u16(out, self.rtype.to_u16());
        push_u16(out, self.rclass.to_u16());
        push_u32(out, self.ttl);
        let ghost b1 = out@;
        assert(b1 =~= after_name + rr_fixed(self@));

        // rdlength isn't known until after rdata is written (rdata's own name
        // compression can make its size vary), so reserve two bytes now and
        // patch them once we know how much was actually written.
        let rdlen_pos = out.len();
        push_u16(out, 0u16);
        assert(out@ =~= b1 + seq![0u8, 0u8]);
        let rdata_start = out.len();
        self.rdata.encode(out, name_offsets);
        let ghost s2 = out@;
        let rdlen = (out.len() - rdata_start) as u16;
        let hi = (rdlen >> 8u16) as u8;
        let lo = (rdlen & 0xffu16) as u8;
        assert(hi == (rdlen / 256) as u8 && lo == (rdlen % 256) as u8) by (bit_vector)
            requires
                hi == (rdlen >> 8u16) as u8,
                lo == (rdlen & 0xffu16) as u8,
        ;
        out.set(rdlen_pos, hi);
        out.set(rdlen_pos + 1, lo);
        assert(out@ =~= b1 + be16(rdlen) + s2.subrange(b1.len() as int + 2, s2.len() as int));
    }

    /// Decodes a record at `*pos`. On failure `*pos` is not specified.
    pub fn decode(buf: &[u8], pos: &mut usize) -> (res: Result<ResourceRecord, DecodeError>)
        ensures
            match parse_rr(buf@, *old(pos) as int) {
                Ok((v, next)) => res is Ok && res->Ok_0@ == v && *final(pos) == next,
                Err(e) => res == Err::<ResourceRecord, DecodeError>(e),
            },
    {
        let name = Name::decode(buf, pos)?;
        let rtype = QType::from_u16(read_u16(buf, pos)?);
        let rclass = QClass::from_u16(read_u16(buf, pos)?);
        let ttl = read_u32(buf, pos)?;
        let rdlength = read_u16(buf, pos)? as usize;

        if rdlength > buf.len() - *pos {
            return Err(DecodeError::UnexpectedEof);
        }
        let rdata_start = *pos;

        let rdata = match rtype {
            QType::A => {
                if rdlength != 4 {
                    return Err(DecodeError::UnexpectedEof);
                }
                RData::A(octets4(buf, rdata_start))
            },
            QType::AAAA => {
                if rdlength != 16 {
                    return Err(DecodeError::UnexpectedEof);
                }
                RData::AAAA(octets16(buf, rdata_start))
            },
            QType::NS => {
                // Name may itself use compression pointing elsewhere in the message,
                // so decode it with a cursor starting at rdata_start, independent of rdlength.
                let mut name_pos = rdata_start;
                let n = Name::decode(buf, &mut name_pos)?;
                RData::NS(n)
            },
            QType::CNAME => {
                let mut name_pos = rdata_start;
                let n = Name::decode(buf, &mut name_pos)?;
                RData::CNAME(n)
            },
            QType::SOA => {
                let mut p = rdata_start;
                let soa = SOARecord::decode(buf, &mut p)?;
                RData::SOA(soa)
            },
            QType::TXT => {
                let mut p = rdata_start;
                let txt = TxtRecord::decode(buf, &mut p, rdlength)?;
                RData::TXT(txt)
            },
            QType::OPT => {
                let mut p = rdata_start;
                let class_raw = read_u16(buf, pos)?;
                let ttl_raw = read_u32(buf, pos)?;
                let opt = OptRecord::decode(class_raw, ttl_raw, buf, &mut p, rdlength)?;
                RData::OPT(opt)
            },
            _ => RData::Raw(vstd::slice::slice_to_vec(
                crate::message::record_types::slice_range(buf, rdata_start, rdata_start + rdlength),
            )),
        };

        *pos = rdata_start + rdlength;

        Ok(ResourceRecord { name, rtype, rclass, ttl, rdata })
    }
}


// ---------- Full message ----------

#[derive(Debug)]
pub struct Message {
    pub header: Header,
    pub questions: Vec<Question>,
    pub answers: Vec<ResourceRecord>,
    pub authorities: Vec<ResourceRecord>,
    pub additionals: Vec<ResourceRecord>,
}

pub struct MessageView {
    pub header: Header,
    pub questions: Seq<QuestionView>,
    pub answers: Seq<RrView>,
    pub authorities: Seq<RrView>,
    pub additionals: Seq<RrView>,
}

pub open spec fn questions_view(qs: Seq<Question>) -> Seq<QuestionView> {
    qs.map_values(|q: Question| q@)
}

pub open spec fn records_view(rrs: Seq<ResourceRecord>) -> Seq<RrView> {
    rrs.map_values(|r: ResourceRecord| r@)
}

impl View for Message {
    type V = MessageView;

    open spec fn view(&self) -> MessageView {
        MessageView {
            header: self.header,
            questions: questions_view(self.questions@),
            answers: records_view(self.answers@),
            authorities: records_view(self.authorities@),
            additionals: records_view(self.additionals@),
        }
    }
}

/// A copy of each question.
pub fn copy_questions(qs: &Vec<Question>) -> (r: Vec<Question>)
    ensures
        questions_view(r@) == questions_view(qs@),
{
    let mut r: Vec<Question> = Vec::new();
    let mut i: usize = 0;
    while i < qs.len()
        invariant
            i <= qs@.len(),
            r@.len() == i,
            forall|k: int| 0 <= k < i ==> (#[trigger] r@[k])@ == qs@[k]@,
        decreases qs@.len() - i,
    {
        r.push(qs[i].clone());
        i = i + 1;
    }
    assert(questions_view(r@) =~= questions_view(qs@));
    r
}

/// A copy of each record.
pub fn copy_records(rrs: &[ResourceRecord]) -> (r: Vec<ResourceRecord>)
    ensures
        records_view(r@) == records_view(rrs@),
{
    let mut r: Vec<ResourceRecord> = Vec::new();
    let mut i: usize = 0;
    while i < rrs.len()
        invariant
            i <= rrs@.len(),
            r@.len() == i,
            forall|k: int| 0 <= k < i ==> (#[trigger] r@[k])@ == rrs@[k]@,
        decreases rrs@.len() - i,
    {
        r.push(rrs[i].clone());
        i = i + 1;
    }
    assert(records_view(r@) =~= records_view(rrs@));
    r
}

impl Clone for Message {
    fn clone(&self) -> (r: Message)
        ensures
            r@ == self@,
    {
        Message {
            header: self.header,
            questions: copy_questions(&self.questions),
            answers: copy_records(self.answers.as_slice()),
            authorities: copy_records(self.authorities.as_slice()),
            additionals: copy_records(self.additionals.as_slice()),
        }
    }
}

pub open spec fn enc_questions(st: (Seq<u8>, Table), qs: Seq<QuestionView>) -> (Seq<u8>, Table)
    decreases qs.len(),
{
    if qs.len() == 0 {
        st
    } else {
        enc_question(enc_questions(st, qs.drop_last()), qs.last())
    }
}

pub open spec fn enc_rrs(st: (Seq<u8>, Table), rrs: Seq<RrView>) -> (Seq<u8>, Table)
    decreases rrs.len(),
{
    if rrs.len() == 0 {
        st
    } else {
        enc_rr(enc_rrs(st, rrs.drop_last()), rrs.last())
    }
}

/// Every record's data can be written.
pub open spec fn records_encodable(rrs: Seq<RrView>) -> bool {
    forall|i: int| 0 <= i < rrs.len() ==> rdata_encodable(#[trigger] rrs[i].rdata)
}

pub open spec fn message_encodable(m: MessageView) -> bool {
    records_encodable(m.answers) && records_encodable(m.authorities) && records_encodable(
        m.additionals,
    )
}

/// The header that is written: the message's own, with each count taken
/// from its section's length (cut to a `u16`).
pub open spec fn counted_header(m: MessageView) -> Header {
    Header {
        id: m.header.id,
        qr: m.header.qr,
        opcode: m.header.opcode,
        aa: m.header.aa,
        tc: m.header.tc,
        rd: m.header.rd,
        ra: m.header.ra,
        rcode: m.header.rcode,
        qdcount: m.questions.len() as u16,
        ancount: m.answers.len() as u16,
        nscount: m.authorities.len() as u16,
        arcount: m.additionals.len() as u16,
    }
}

/// The encoder's state after every section: the bytes and the compression table.
pub open spec fn message_enc(m: MessageView) -> (Seq<u8>, Table) {
    let s0 = (header_bytes(counted_header(m)), Seq::<(Labels, u16)>::empty());
    enc_rrs(enc_rrs(enc_rrs(enc_questions(s0, m.questions), m.answers), m.authorities), m.additionals)
}

/// The bytes a message is written as.
pub closed spec fn message_wire(m: MessageView) -> Seq<u8> {
    message_enc(m).0
}

pub proof fn lemma_message_wire(m: MessageView)
    ensures
        message_wire(m) == message_enc(m).0,
{
}

pub open spec fn parse_questions(buf: Seq<u8>, pos: int, n: nat) -> Result<
    (Seq<QuestionView>, int),
    DecodeError,
>
    decreases n,
{
    if n == 0 {
        Ok((seq![], pos))
    } else {
        match parse_question(buf, pos) {
            Err(e) => Err(e),
            Ok((q, p1)) => match parse_questions(buf, p1, (n - 1) as nat) {
                Err(e) => Err(e),
                Ok((qs, p2)) => Ok((seq![q] + qs, p2)),
            },
        }
    }
}

pub open spec fn parse_rrs(buf: Seq<u8>, pos: int, n: nat) -> Result<(Seq<RrView>, int), DecodeError>
    decreases n,
{
    if n == 0 {
        Ok((seq![], pos))
    } else {
        match parse_rr(buf, pos) {
            Err(e) => Err(e),
            Ok((r, p1)) => match parse_rrs(buf, p1, (n - 1) as nat) {
                Err(e) => Err(e),
                Ok((rs, p2)) => Ok((seq![r] + rs, p2)),
            },
        }
    }
}

/// Decoding a whole message: the header, then as many questions and records
/// in each section as the header counts. Bytes after the last record are
/// ignored.
pub open spec fn parse_message(buf: Seq<u8>) -> Result<MessageView, DecodeError> {
    match parse_header(buf, 0) {
        Err(e) => Err(e),
        Ok((h, p0)) => match parse_questions(buf, p0, h.qdcount as nat) {
            Err(e) => Err(e),
            Ok((qs, p1)) => match parse_rrs(buf, p1, h.ancount as nat) {
                Err(e) => Err(e),
                Ok((an, p2)) => match parse_rrs(buf, p2, h.nscount as nat) {
                    Err(e) => Err(e),
                    Ok((ns, p3)) => match parse_rrs(buf, p3, h.arcount as nat) {
                        Err(e) => Err(e),
                        Ok((ar, _)) => Ok(
                            MessageView {
                                header: h,
                                questions: qs,
                                answers: an,
                                authorities: ns,
                                additionals: ar,
                            },
                        ),
                    },
                },
            },
        },
    }
}

/// Whether every record's data can be written.
pub fn records_can_encode(rrs: &[ResourceRecord]) -> (r: bool)
    ensures
        r == records_encodable(records_view(rrs@)),
{
    let mut i: usize = 0;
    while i < rrs.len()
        invariant
            i <= rrs@.len(),
            forall|k: int| 0 <= k < i ==> rdata_encodable(#[trigger] records_view(rrs@)[k].rdata),
        decreases rrs@.len() - i,
    {
        if !rrs[i].rdata.can_encode() {
            assert(!rdata_encodable(records_view(rrs@)[i as int].rdata));
            return false;
        }
        i = i + 1;
    }
    true
}

/// Decodes `count` records at `*pos` onto `out`.
fn decode_records(buf: &[u8], pos: &mut usize, count: u16, out: &mut Vec<ResourceRecord>) -> (res:
    Result<(), DecodeError>)
    ensures
        match parse_rrs(buf@, *old(pos) as int, count as nat) {
            Ok((rs, next)) => res is Ok && records_view(final(out)@) == records_view(old(out)@)
                + rs && *final(pos) == next,
            Err(e) => res == Err::<(), DecodeError>(e),
        },
{
    let ghost p0 = *pos as int;
    let ghost start = records_view(out@);
    let mut i: u16 = 0;
    while i < count
        invariant
            i <= count,
            p0 == *old(pos),
            start == records_view(old(out)@),
            records_view(out@).len() >= start.len(),
            records_view(out@).subrange(0, start.len() as int) == start,
            parse_rrs(buf@, p0, count as nat) == match parse_rrs(
                buf@,
                *pos as int,
                (count - i) as nat,
            ) {
                Ok((rest, next)) => Ok(
                    (records_view(out@).subrange(start.len() as int, records_view(out@).len() as int)
                        + rest, next),
                ),
                Err(e) => Err::<(Seq<RrView>, int), DecodeError>(e),
            },
        decreases count - i,
    {
        let ghost before = records_view(out@);
        let r = ResourceRecord::decode(buf, pos)?;
        out.push(r);
        proof {
            assert(records_view(out@) =~= before.push(r@));
            assert(records_view(out@).subrange(0, start.len() as int) =~= start);
            let done_before = before.subrange(start.len() as int, before.len() as int);
            let done_after = records_view(out@).subrange(
                start.len() as int,
                records_view(out@).len() as int,
            );
            assert(done_after =~= done_before.push(r@));
            let rest = parse_rrs(buf@, *pos as int, (count - i - 1) as nat);
            if rest is Ok {
                assert(done_before + (seq![r@] + rest->Ok_0.0) =~= done_after + rest->Ok_0.0);
            }
        }
        i = i + 1;
    }
    proof {
        assert(records_view(out@) =~= start + records_view(out@).subrange(
            start.len() as int,
            records_view(out@).len() as int,
        ));
    }
    Ok(())
}

/// Encodes each question onto `out`.
fn encode_questions(qs: &Vec<Question>, out: &mut Vec<u8>, name_offsets: &mut NameOffsets)
    requires
        old(name_offsets).wf(),
    ensures
        final(name_offsets).wf(),
        (final(out)@, final(name_offsets)@) == enc_questions(
            (old(out)@, old(name_offsets)@),
            questions_view(qs@),
        ),
{
    let ghost v = questions_view(qs@);
    let mut i: usize = 0;
    while i < qs.len()
        invariant
            i <= qs@.len(),
            v == questions_view(qs@),
            name_offsets.wf(),
            (out@, name_offsets@) == enc_questions((old(out)@, old(name_offsets)@), v.take(i as int)),
        decreases qs@.len() - i,
    {
        assert(v.take(i + 1).drop_last() =~= v.take(i as int));
        qs[i].encode(out, name_offsets);
        i = i + 1;
    }
    assert(v.take(qs@.len() as int) =~= v);
}

/// Encodes each record onto `out`.
fn encode_records(rrs: &Vec<ResourceRecord>, out: &mut Vec<u8>, name_offsets: &mut NameOffsets)
    requires
        old(name_offsets).wf(),
        records_encodable(records_view(rrs@)),
    ensures
        final(name_offsets).wf(),
        (final(out)@, final(name_offsets)@) == enc_rrs(
            (old(out)@, old(name_offsets)@),
            records_view(rrs@),
        ),
{
    let ghost v = records_view(rrs@);
    let mut i: usize = 0;
    while i < rrs.len()
        invariant
            i <= rrs@.len(),
            v == records_view(rrs@),
            records_encodable(v),
            name_offsets.wf(),
            (out@, name_offsets@) == enc_rrs((old(out)@, old(name_offsets)@), v.take(i as int)),
        decreases rrs@.len() - i,
    {
        assert(v.take(i + 1).drop_last() =~= v.take(i as int));
        assert(rdata_encodable(v[i as int].rdata));
        rrs[i].encode(out, name_offsets);
        i = i + 1;
    }
    assert(v.take(rrs@.len() as int) =~= v);
}

/// A recursive query for `name`/`qtype` in class IN, with no records.
pub open spec fn query_view(id: u16, name: Seq<char>, qtype: QType) -> MessageView {
    MessageView {
        header: Header::new_query_spec(id, true),
        questions: seq![QuestionView { name: Name::from_str_spec(name), qtype, qclass: QClass::IN }],
        answers: seq![],
        authorities: seq![],
        additionals: seq![],
    }
}

impl Message {
    pub fn new_query(id: u16, name: &str, qtype: QType) -> (m: Message)
        ensures
            m@ == query_view(id, name@, qtype),
            m.header == Header::new_query_spec(id, true),
            m.questions@.len() == 1,
            m.questions@[0].qtype == qtype,
            m.questions@[0].qclass == QClass::IN,
            m.questions@[0].name@ == Name::from_str_spec(name@),
            m.answers@.len() == 0,
            m.authorities@.len() == 0,
            m.additionals@.len() == 0,
    {
        let question = Question { name: Name::from_str(name), qtype, qclass: QClass::IN };
        let mut questions: Vec<Question> = Vec::new();
        questions.push(question);
        let m = Message {
            header: Header::new_query(id, true),
            questions,
            answers: Vec::new(),
            authorities: Vec::new(),
            additionals: Vec::new(),
        };
        assert(m@ =~= query_view(id, name@, qtype)) by {
            assert(m@.questions =~= query_view(id, name@, qtype).questions);
            assert(m@.answers =~= Seq::<RrView>::empty());
            assert(m@.authorities =~= Seq::<RrView>::empty());
            assert(m@.additionals =~= Seq::<RrView>::empty());
        }
        m
    }

    /// Whether `encode` can be called: every TXT string fits its length octet.
    pub fn can_encode(&self) -> (r: bool)
        ensures
            r == message_encodable(self@),
    {
        records_can_encode(self.answers.as_slice()) && records_can_encode(
            self.authorities.as_slice(),
        ) && records_can_encode(self.additionals.as_slice())
    }

    /// The wire form. The header's counts are taken from the sections
    /// themselves, so the header cannot disagree with what follows it.
    pub fn encode(&self) -> (out: Vec<u8>)
        requires
            message_encodable(self@),
        ensures
            out@ == message_wire(self@),
    {
        let mut out: Vec<u8> = Vec::with_capacity(512);
        let mut header = self.header;
        header.qdcount = self.questions.len() as u16;
        header.ancount = self.answers.len() as u16;
        header.nscount = self.authorities.len() as u16;
        header.arcount = self.additionals.len() as u16;
        assert(header == counted_header(self@));
        header.encode(&mut out);

        let mut name_offsets = NameOffsets::new();
        encode_questions(&self.questions, &mut out, &mut name_offsets);
        encode_records(&self.answers, &mut out, &mut name_offsets);
        encode_records(&self.authorities, &mut out, &mut name_offsets);
        encode_records(&self.additionals, &mut out, &mut name_offsets);
        out
    }

    pub fn decode(buf: &[u8]) -> (res: Result<Message, DecodeError>)
        ensures
            match parse_message(buf@) {
                Ok(v) => res is Ok && res->Ok_0@ == v,
                Err(e) => res == Err::<Message, DecodeError>(e),
            },
    {
        let mut pos: usize = 0;
        let header = Header::decode(buf, &mut pos)?;

        let mut questions: Vec<Question> = Vec::with_capacity(header.qdcount as usize);
        let ghost p0 = pos as int;
        let mut i: u16 = 0;
        while i < header.qdcount
            invariant
                i <= header.qdcount,
                parse_header(buf@, 0) == Ok::<(Header, int), DecodeError>((header, p0)),
                parse_questions(buf@, p0, header.qdcount as nat) == match parse_questions(
                    buf@,
                    pos as int,
                    (header.qdcount - i) as nat,
                ) {
                    Ok((rest, next)) => Ok((questions_view(questions@) + rest, next)),
                    Err(e) => Err::<(Seq<QuestionView>, int), DecodeError>(e),
                },
            decreases header.qdcount - i,
        {
            let ghost before = questions_view(questions@);
            let q = Question::decode(buf, &mut pos)?;
            questions.push(q);
            proof {
                assert(questions_view(questions@) =~= before.push(q@));
                let rest = parse_questions(buf@, pos as int, (header.qdcount - i - 1) as nat);
                if rest is Ok {
                    assert(before + (seq![q@] + rest->Ok_0.0) =~= questions_view(questions@)
                        + rest->Ok_0.0);
                }
            }
            i = i + 1;
        }
        assert(questions_view(questions@) =~= questions_view(questions@) + Seq::<QuestionView>::empty());

        let mut answers: Vec<ResourceRecord> = Vec::with_capacity(header.ancount as usize);
        decode_records(buf, &mut pos, header.ancount, &mut answers)?;
        let mut authorities: Vec<ResourceRecord> = Vec::with_capacity(header.nscount as usize);
        decode_records(buf, &mut pos, header.nscount, &mut authorities)?;
        let mut additionals: Vec<ResourceRecord> = Vec::with_capacity(header.arcount as usize);
        decode_records(buf, &mut pos, header.arcount, &mut additionals)?;
        proof {
            assert(records_view(answers@) =~= Seq::<RrView>::empty() + records_view(answers@));
        }
        Ok(Message { header, questions, answers, authorities, additionals })
    }
}

} // verus!
