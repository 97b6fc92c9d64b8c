//! Messages as human-readable text, in the style of `dig`.
use vstd::prelude::*;
use vstd::seq_lib::lemma_concat_associative;

use crate::message::compress::{strings_view, Labels};
use crate::message::record_types::{name_text, SoaView};
use crate::message::{
    Header, Message, MessageView, Opcode, QClass, QType, Question, QuestionView, RData, RDataView, Rcode,
    ResourceRecord, RrView, questions_view, records_view,
};

verus! {

// ---------- Numbers ----------

/// The lowercase hexadecimal digit for `d` (below 16).
pub open spec fn hex_digit(d: nat) -> char {
    if d == 0 { '0' }
    else if d == 1 { '1' }
    else if d == 2 { '2' }
    else if d == 3 { '3' }
    else if d == 4 { '4' }
    else if d == 5 { '5' }
    else if d == 6 { '6' }
    else if d == 7 { '7' }
    else if d == 8 { '8' }
    else if d == 9 { '9' }
    else if d == 10 { 'a' }
    else if d == 11 { 'b' }
    else if d == 12 { 'c' }
    else if d == 13 { 'd' }
    else if d == 14 { 'e' }
    else { 'f' }
}

/// `n` in decimal, without leading zeros.
pub open spec fn dec(n: nat) -> Seq<char>
    decreases n,
{
    if n < 10 {
        seq![hex_digit(n)]
    } else {
        dec(n / 10) + seq![hex_digit(n % 10)]
    }
}

/// `n` in lowercase hexadecimal, without leading zeros.
pub open spec fn hex(n: nat) -> Seq<char>
    decreases n,
{
    if n < 16 {
        seq![hex_digit(n)]
    } else {
        hex(n / 16) + seq![hex_digit(n % 16)]
    }
}

/// The one-character text of a digit below 16.
fn digit_text(d: u64) -> (s: &'static str)
    requires
        d < 16,
    ensures
        s@ == seq![hex_digit(d as nat)],
{
    proof {
        reveal_strlit("0");
        reveal_strlit("1");
        reveal_strlit("2");
        reveal_strlit("3");
        reveal_strlit("4");
        reveal_strlit("5");
        reveal_strlit("6");
        reveal_strlit("7");
        reveal_strlit("8");
        reveal_strlit("9");
        reveal_strlit("a");
        reveal_strlit("b");
        reveal_strlit("c");
        reveal_strlit("d");
        reveal_strlit("e");
        reveal_strlit("f");
    }
    if d == 0 { "0" }
    else if d == 1 { "1" }
    else if d == 2 { "2" }
    else if d == 3 { "3" }
    else if d == 4 { "4" }
    else if d == 5 { "5" }
    else if d == 6 { "6" }
    else if d == 7 { "7" }
    else if d == 8 { "8" }
    else if d == 9 { "9" }
    else if d == 10 { "a" }
    else if d == 11 { "b" }
    else if d == 12 { "c" }
    else if d == 13 { "d" }
    else if d == 14 { "e" }
    else { "f" }
}

/// Appends `n` in decimal.
pub fn push_dec(out: &mut String, n: u64)
    ensures
        final(out)@ == old(out)@ + dec(n as nat),
    decreases n,
{
    if n >= 10 {
        push_dec(out, n / 10);
    }
    out.append(digit_text(n % 10));
}

/// Appends `n` in lowercase hexadecimal.
pub fn push_hex(out: &mut String, n: u64)
    ensures
        final(out)@ == old(out)@ + hex(n as nat),
    decreases n,
{
    if n >= 16 {
        push_hex(out, n / 16);
    }
    out.append(digit_text(n % 16));
}

// ---------- Joining ----------

/// The parts with `sep` between each two.
pub open spec fn join_with(parts: Seq<Seq<char>>, sep: Seq<char>) -> Seq<char>
    decreases parts.len(),
{
    if parts.len() == 0 {
        seq![]
    } else if parts.len() == 1 {
        parts[0]
    } else {
        join_with(parts.drop_last(), sep) + sep + parts.last()
    }
}

/// Appends the strings joined by `sep`.
pub fn push_joined(out: &mut String, parts: &[String], sep: &str)
    ensures
        final(out)@ == old(out)@ + join_with(strings_view(parts@), sep@),
{
    let ghost ps = strings_view(parts@);
    let ghost start = out@;
    let mut i: usize = 0;
    while i < parts.len()
        invariant
            i <= parts@.len(),
            ps == strings_view(parts@),
            out@ == start + join_with(ps.take(i as int), sep@),
        decreases parts@.len() - i,
    {
        assert(ps.take(i + 1).drop_last() =~= ps.take(i as int));
        assert(ps.take(i + 1).last() == parts@[i as int]@);
        if i > 0 {
            out.append(sep);
        }
        out.append(parts[i].as_str());
        proof {
            if i == 0 {
                assert(ps.take(1) =~= seq![parts@[0]@]);
            }
        }
        i = i + 1;
    }
    assert(ps.take(parts@.len() as int) =~= ps);
}

// ---------- Flags and enumerations ----------

pub open spec fn bool_text(b: bool) -> Seq<char> {
    if b {
        "true"@
    } else {
        "false"@
    }
}

pub fn push_bool(out: &mut String, b: bool)
    ensures
        final(out)@ == old(out)@ + bool_text(b),
{
    if b {
        out.append("true");
    } else {
        out.append("false");
    }
}

/// A name followed by a number in brackets, as `Other(5)` prints.
pub open spec fn other_text(v: nat) -> Seq<char> {
    "Other("@ + dec(v) + ")"@
}

fn push_other(out: &mut String, v: u64)
    ensures
        final(out)@ == old(out)@ + other_text(v as nat),
{
    out.append("Other(");
    push_dec(out, v);
    out.append(")");
    assert(out@ =~= old(out)@ + other_text(v as nat));
}

/// An opcode as it prints.
pub open spec fn opcode_text(o: Opcode) -> Seq<char> {
    match o {
        Opcode::Query => "Query"@,
        Opcode::IQuery => "IQuery"@,
        Opcode::Status => "Status"@,
        Opcode::Other(v) => other_text(v as nat),
    }
}

pub fn push_opcode(out: &mut String, o: Opcode)
    ensures
        final(out)@ == old(out)@ + opcode_text(o),
{
    match o {
        Opcode::Query => out.append("Query"),
        Opcode::IQuery => out.append("IQuery"),
        Opcode::Status => out.append("Status"),
        Opcode::Other(v) => push_other(out, v as u64),
    }
}

/// A response code as it prints.
pub open spec fn rcode_text(r: Rcode) -> Seq<char> {
    match r {
        Rcode::NoError => "NoError"@,
        Rcode::FormErr => "FormErr"@,
        Rcode::ServFail => "ServFail"@,
        Rcode::NxDomain => "NxDomain"@,
        Rcode::NotImp => "NotImp"@,
        Rcode::Refused => "Refused"@,
        Rcode::Other(v) => other_text(v as nat),
    }
}

pub fn push_rcode(out: &mut String, r: Rcode)
    ensures
        final(out)@ == old(out)@ + rcode_text(r),
{
    match r {
        Rcode::NoError => out.append("NoError"),
        Rcode::FormErr => out.append("FormErr"),
        Rcode::ServFail => out.append("ServFail"),
        Rcode::NxDomain => out.append("NxDomain"),
        Rcode::NotImp => out.append("NotImp"),
        Rcode::Refused => out.append("Refused"),
        Rcode::Other(v) => push_other(out, v as u64),
    }
}

/// A record type as it prints.
pub open spec fn qtype_text(t: QType) -> Seq<char> {
    match t {
        QType::A => "A"@,
        QType::NS => "NS"@,
        QType::CNAME => "CNAME"@,
        QType::SOA => "SOA"@,
        QType::PTR => "PTR"@,
        QType::MX => "MX"@,
        QType::TXT => "TXT"@,
        QType::AAAA => "AAAA"@,
        QType::ANY => "ANY"@,
        QType::OPT => "OPT"@,
        QType::Other(v) => other_text(v as nat),
    }
}

pub fn push_qtype(out: &mut String, t: QType)
    ensures
        final(out)@ == old(out)@ + qtype_text(t),
{
    match t {
        QType::A => out.append("A"),
        QType::NS => out.append("NS"),
        QType::CNAME => out.append("CNAME"),
        QType::SOA => out.append("SOA"),
        QType::PTR => out.append("PTR"),
        QType::MX => out.append("MX"),
        QType::TXT => out.append("TXT"),
        QType::AAAA => out.append("AAAA"),
        QType::ANY => out.append("ANY"),
        QType::OPT => out.append("OPT"),
        QType::Other(v) => push_other(out, v as u64),
    }
}

/// A class as it prints.
pub open spec fn qclass_text(c: QClass) -> Seq<char> {
    match c {
        QClass::IN => "IN"@,
        QClass::Other(v) => other_text(v as nat),
    }
}

pub fn push_qclass(out: &mut String, c: QClass)
    ensures
        final(out)@ == old(out)@ + qclass_text(c),
{
    match c {
        QClass::IN => out.append("IN"),
        QClass::Other(v) => push_other(out, v as u64),
    }
}

// ---------- Addresses and raw bytes ----------

/// An IPv4 address in dotted decimal.
pub open spec fn ipv4_text(b: Seq<u8>) -> Seq<char> {
    dec(b[0] as nat) + "."@ + dec(b[1] as nat) + "."@ + dec(b[2] as nat) + "."@ + dec(b[3] as nat)
}

pub fn push_ipv4(out: &mut String, b: &[u8])
    requires
        b@.len() == 4,
    ensures
        final(out)@ == old(out)@ + ipv4_text(b@),
{
    push_dec(out, b[0] as u64);
    out.append(".");
    push_dec(out, b[1] as u64);
    out.append(".");
    push_dec(out, b[2] as u64);
    out.append(".");
    push_dec(out, b[3] as u64);
    assert(out@ =~= old(out)@ + ipv4_text(b@));
}

/// A byte as two lowercase hex digits.
pub open spec fn hex2(b: u8) -> Seq<char> {
    seq![hex_digit((b / 16) as nat), hex_digit((b % 16) as nat)]
}

/// Bytes as a bracketed list of two-digit hex numbers, e.g. `[0a, ff]`.
pub open spec fn byte_list_text(bytes: Seq<u8>) -> Seq<char> {
    "["@ + join_with(bytes.map_values(|b: u8| hex2(b)), ", "@) + "]"@
}

pub fn push_byte_list(out: &mut String, bytes: &[u8])
    ensures
        final(out)@ == old(out)@ + byte_list_text(bytes@),
{
    let ghost ps = bytes@.map_values(|b: u8| hex2(b));
    out.append("[");
    let ghost start = out@;
    let mut i: usize = 0;
    while i < bytes.len()
        invariant
            i <= bytes@.len(),
            ps == bytes@.map_values(|b: u8| hex2(b)),
            out@ == start + join_with(ps.take(i as int), ", "@),
        decreases bytes@.len() - i,
    {
        assert(ps.take(i + 1).drop_last() =~= ps.take(i as int));
        assert(ps.take(i + 1).last() == hex2(bytes@[i as int]));
        if i > 0 {
            out.append(", ");
        }
        let ghost mid = out@;
        out.append(digit_text((bytes[i] / 16) as u64));
        out.append(digit_text((bytes[i] % 16) as u64));
        assert(out@ =~= mid + hex2(bytes@[i as int]));
        proof {
            if i == 0 {
                assert(ps.take(1) =~= seq![hex2(bytes@[0])]);
            }
        }
        i = i + 1;
    }
    assert(ps.take(bytes@.len() as int) =~= ps);
    out.append("]");
}

/// The eight 16-bit groups of an IPv6 address.
pub open spec fn groups(b: Seq<u8>) -> Seq<u16> {
    Seq::new(8, |i: int| ((b[2 * i] as int) * 256 + (b[2 * i + 1] as int)) as u16)
}

/// Groups in hex joined by colons.
pub open spec fn hex_groups(g: Seq<u16>) -> Seq<char> {
    join_with(g.map_values(|x: u16| hex(x as nat)), ":"@)
}

/// An IPv4-mapped address: ten zero bytes, then two 0xff bytes.
pub open spec fn is_v4_mapped(b: Seq<u8>) -> bool {
    &&& forall|i: int| 0 <= i < 10 ==> b[i] == 0
    &&& b[10] == 0xff
    &&& b[11] == 0xff
}

/// Scanning the groups from the left: the start and length of the first
/// longest run of zero groups, and of the run the scan is in.
pub open spec fn zero_scan(g: Seq<u16>) -> (nat, nat, nat, nat)
    decreases g.len(),
{
    if g.len() == 0 {
        (0, 0, 0, 0)
    } else {
        let (bs, bl, cs, cl) = zero_scan(g.drop_last());
        if g.last() == 0 {
            let ncs = if cl == 0 { (g.len() - 1) as nat } else { cs };
            let ncl = cl + 1;
            if ncl > bl {
                (ncs, ncl, ncs, ncl)
            } else {
                (bs, bl, ncs, ncl)
            }
        } else {
            (bs, bl, 0, 0)
        }
    }
}

/// An IPv6 address as text (RFC 5952): an IPv4-mapped address as
/// `::ffff:` and dotted decimal; otherwise the groups in hex, with the
/// first longest run of two or more zero groups written as `::`.
pub open spec fn ipv6_text(b: Seq<u8>) -> Seq<char> {
    if is_v4_mapped(b) {
        "::ffff:"@ + ipv4_text(b.subrange(12, 16))
    } else {
        let g = groups(b);
        let (bs, bl, _, _) = zero_scan(g);
        if bl > 1 {
            hex_groups(g.subrange(0, bs as int)) + "::"@ + hex_groups(g.subrange((bs + bl) as int, 8))
        } else {
            hex_groups(g)
        }
    }
}

proof fn lemma_zero_scan_bounds(g: Seq<u16>)
    ensures
        zero_scan(g).1 <= g.len(),
        zero_scan(g).0 + zero_scan(g).1 <= g.len(),
        zero_scan(g).3 <= g.len(),
        zero_scan(g).2 + zero_scan(g).3 <= g.len(),
        zero_scan(g).3 > 0 ==> zero_scan(g).2 + zero_scan(g).3 == g.len(),
    decreases g.len(),
{
    if g.len() > 0 {
        lemma_zero_scan_bounds(g.drop_last());
    }
}

/// Appends the groups `g[start..end]` in hex, joined by colons.
fn push_hex_groups(out: &mut String, g: &[u16], start: usize, end: usize)
    requires
        start <= end <= g@.len(),
    ensures
        final(out)@ == old(out)@ + hex_groups(g@.subrange(start as int, end as int)),
{
    let ghost begin = out@;
    let mut k: usize = start;
    while k < end
        invariant
            start <= k <= end <= g@.len(),
            out@ == begin + hex_groups(g@.subrange(start as int, k as int)),
        decreases end - k,
    {
        let ghost sub = g@.subrange(start as int, k + 1);
        assert(sub.drop_last() =~= g@.subrange(start as int, k as int));
        assert(sub.map_values(|x: u16| hex(x as nat)).drop_last() =~= g@.subrange(start as int, k as int).map_values(|x: u16| hex(x as nat)));
        if k > start {
            out.append(":");
        }
        push_hex(out, g[k] as u64);
        proof {
            if k == start {
                assert(sub.map_values(|x: u16| hex(x as nat)) =~= seq![hex(g@[k as int] as nat)]);
            }
        }
        k = k + 1;
    }
}

pub fn push_ipv6(out: &mut String, b: &[u8])
    requires
        b@.len() == 16,
    ensures
        final(out)@ == old(out)@ + ipv6_text(b@),
{
    let mut mapped = b[10] == 0xff && b[11] == 0xff;
    let mut j: usize = 0;
    while j < 10
        invariant
            j <= 10,
            b@.len() == 16,
            mapped == (b@[10] == 0xff && b@[11] == 0xff && forall|i: int| 0 <= i < j ==> b@[i] == 0),
        decreases 10 - j,
    {
        if b[j] != 0 {
            mapped = false;
        }
        j = j + 1;
    }
    if mapped {
        out.append("::ffff:");
        let ghost mid = out@;
        push_ipv4(out, &b[12..16]);
        assert(b@.subrange(12, 16) =~= b@.subrange(12, 16));
        return;
    }
    let ghost gs = groups(b@);
    let mut g: Vec<u16> = Vec::new();
    let mut i: usize = 0;
    while i < 8
        invariant
            i <= 8,
            b@.len() == 16,
            gs == groups(b@),
            g@ == gs.take(i as int),
        decreases 8 - i,
    {
        let v: u16 = (b[2 * i] as u16) * 256 + (b[2 * i + 1] as u16);
        g.push(v);
        assert(g@ =~= gs.take(i + 1));
        i = i + 1;
    }
    assert(g@ =~= gs);
    let mut bs: usize = 0;
    let mut bl: usize = 0;
    let mut cs: usize = 0;
    let mut cl: usize = 0;
    let mut k: usize = 0;
    while k < 8
        invariant
            k <= 8,
            g@ == gs,
            gs.len() == 8,
            (bs as nat, bl as nat, cs as nat, cl as nat) == zero_scan(gs.take(k as int)),
        decreases 8 - k,
    {
        proof {
            lemma_zero_scan_bounds(gs.take(k as int));
            assert(gs.take(k + 1).drop_last() =~= gs.take(k as int));
        }
        if g[k] == 0 {
            if cl == 0 {
                cs = k;
            }
            cl = cl + 1;
            if cl > bl {
                bs = cs;
                bl = cl;
            }
        } else {
            cs = 0;
            cl = 0;
        }
        k = k + 1;
    }
    assert(gs.take(8) =~= gs);
    proof {
        lemma_zero_scan_bounds(gs);
    }
    if bl > 1 {
        push_hex_groups(out, g.as_slice(), 0, bs);
        out.append("::");
        push_hex_groups(out, g.as_slice(), bs + bl, 8);
    } else {
        push_hex_groups(out, g.as_slice(), 0, 8);
        assert(gs.subrange(0, 8) =~= gs);
    }
}

// ---------- Records ----------

/// The data of a record as text.
pub open spec fn rdata_text(r: RDataView) -> Seq<char> {
    match r {
        RDataView::A(b) => ipv4_text(b),
        RDataView::AAAA(b) => ipv6_text(b),
        RDataView::NS(n) => name_text(n),
        RDataView::CNAME(n) => name_text(n),
        RDataView::TXT(t) => join_with(t, " "@),
        RDataView::SOA(soa) => name_text(soa.mname) + " "@ + name_text(soa.rname) + " "@ + dec(
            soa.serial as nat,
        ) + " "@ + dec(soa.refresh as nat) + " "@ + dec(soa.retry as nat) + " "@ + dec(
            soa.expire as nat,
        ) + " "@ + dec(soa.minimum as nat),
        RDataView::OPT(opt) => "UDP="@ + dec(opt.udp_payload_size as nat) + " EXT_RCODE="@ + dec(
            opt.extended_rcode as nat,
        ) + " VERSION="@ + dec(opt.version as nat) + " DO="@ + dec(opt.flags as nat) + " OPTIONS="@
            + dec(opt.options.len()),
        RDataView::Raw(b) => byte_list_text(b),
    }
}

pub fn push_rdata(out: &mut String, r: &RData)
    ensures
        final(out)@ == old(out)@ + rdata_text(r@),
{
    match r {
        RData::A(b) => push_ipv4(out, b.as_slice()),
        RData::AAAA(b) => push_ipv6(out, b.as_slice()),
        RData::NS(n) => {
            let t = n.to_string();
            out.append(t.as_str());
        },
        RData::CNAME(n) => {
            let t = n.to_string();
            out.append(t.as_str());
        },
        RData::TXT(t) => push_joined(out, t.0.as_slice(), " "),
        RData::SOA(soa) => {
            let m = soa.mname.to_string();
            out.append(m.as_str());
            out.append(" ");
            let rn = soa.rname.to_string();
            out.append(rn.as_str());
            out.append(" ");
            push_dec(out, soa.serial as u64);
            out.append(" ");
            push_dec(out, soa.refresh as u64);
            out.append(" ");
            push_dec(out, soa.retry as u64);
            out.append(" ");
            push_dec(out, soa.expire as u64);
            out.append(" ");
            push_dec(out, soa.minimum as u64);
            assert(out@ =~= old(out)@ + rdata_text(r@));
        },
        RData::OPT(opt) => {
            out.append("UDP=");
            push_dec(out, opt.udp_payload_size as u64);
            out.append(" EXT_RCODE=");
            push_dec(out, opt.extended_rcode as u64);
            out.append(" VERSION=");
            push_dec(out, opt.version as u64);
            out.append(" DO=");
            push_dec(out, opt.flags as u64);
            out.append(" OPTIONS=");
            push_dec(out, opt.options.len() as u64);
            assert(out@ =~= old(out)@ + rdata_text(r@));
        },
        RData::Raw(b) => push_byte_list(out, b.as_slice()),
    }
}

/// One record as a line: name, TTL, class, type and data, separated by tabs.
pub open spec fn rr_line(rr: RrView) -> Seq<char> {
    name_text(rr.name) + "\t"@ + dec(rr.ttl as nat) + "\t"@ + qclass_text(rr.rclass) + "\t"@ + qtype_text(
        rr.rtype,
    ) + "\t"@ + rdata_text(rr.rdata) + "\n"@
}

/// The lines of several records.
pub open spec fn rr_lines(rs: Seq<RrView>) -> Seq<char>
    decreases rs.len(),
{
    if rs.len() == 0 {
        seq![]
    } else {
        rr_lines(rs.drop_last()) + rr_line(rs.last())
    }
}

/// One question as a line: `;`, name, class and type, separated by tabs.
pub open spec fn question_line(q: QuestionView) -> Seq<char> {
    ";"@ + name_text(q.name) + "\t"@ + qclass_text(q.qclass) + "\t"@ + qtype_text(q.qtype) + "\n"@
}

/// The lines of several questions.
pub open spec fn question_lines(qs: Seq<QuestionView>) -> Seq<char>
    decreases qs.len(),
{
    if qs.len() == 0 {
        seq![]
    } else {
        question_lines(qs.drop_last()) + question_line(qs.last())
    }
}

fn push_rr(out: &mut String, rr: &ResourceRecord)
    ensures
        final(out)@ == old(out)@ + rr_line(rr@),
{
    let n = rr.name.to_string();
    out.append(n.as_str());
    out.append("\t");
    push_dec(out, rr.ttl as u64);
    out.append("\t");
    push_qclass(out, rr.rclass);
    out.append("\t");
    push_qtype(out, rr.rtype);
    out.append("\t");
    push_rdata(out, &rr.rdata);
    out.append("\n");
    assert(out@ =~= old(out)@ + rr_line(rr@));
}

fn push_rrs(out: &mut String, rrs: &Vec<ResourceRecord>)
    ensures
        final(out)@ == old(out)@ + rr_lines(records_view(rrs@)),
{
    let ghost v = records_view(rrs@);
    let ghost start = out@;
    let mut i: usize = 0;
    while i < rrs.len()
        invariant
            i <= rrs@.len(),
            v == records_view(rrs@),
            out@ == start + rr_lines(v.take(i as int)),
        decreases rrs@.len() - i,
    {
        assert(v.take(i + 1).drop_last() =~= v.take(i as int));
        assert(v[i as int] == rrs@[i as int]@);
        push_rr(out, &rrs[i]);
        assert(out@ =~= start + rr_lines(v.take(i + 1)));
        i = i + 1;
    }
    assert(v.take(rrs@.len() as int) =~= v);
}

fn push_questions(out: &mut String, qs: &Vec<Question>)
    ensures
        final(out)@ == old(out)@ + question_lines(questions_view(qs@)),
{
    let ghost v = questions_view(qs@);
    let ghost start = out@;
    let mut i: usize = 0;
    while i < qs.len()
        invariant
            i <= qs@.len(),
            v == questions_view(qs@),
            out@ == start + question_lines(v.take(i as int)),
        decreases qs@.len() - i,
    {
        assert(v.take(i + 1).drop_last() =~= v.take(i as int));
        assert(v[i as int] == qs@[i as int]@);
        let q = &qs[i];
        out.append(";");
        let n = q.name.to_string();
        out.append(n.as_str());
        out.append("\t");
        push_qclass(out, q.qclass);
        out.append("\t");
        push_qtype(out, q.qtype);
        out.append("\n");
        assert(out@ =~= start + question_lines(v.take(i + 1)));
        i = i + 1;
    }
    assert(v.take(qs@.len() as int) =~= v);
}

// ---------- Messages ----------

/// A labelled line: the label, the value, a line break.
pub open spec fn line(label: Seq<char>, value: Seq<char>) -> Seq<char> {
    label + value + "\n"@
}

/// The header block.
pub open spec fn header_text(h: Header) -> Seq<char> {
    ";; HEADER\n"@ + line("  ID:      "@, dec(h.id as nat)) + line("  QR:      "@, bool_text(h.qr)) + line(
        "  OPCODE:  "@,
        opcode_text(h.opcode),
    ) + line("  AA:      "@, bool_text(h.aa)) + line("  TC:      "@, bool_text(h.tc)) + line(
        "  RD:      "@,
        bool_text(h.rd),
    ) + line("  RA:      "@, bool_text(h.ra)) + line("  RCODE:   "@, rcode_text(h.rcode))
}

/// The block with the number of entries in each section.
pub open spec fn counts_text(m: MessageView) -> Seq<char> {
    "\n;; COUNTS\n"@ + line("  Questions:   "@, dec(m.questions.len())) + line(
        "  Answers:     "@,
        dec(m.answers.len()),
    ) + line("  Authority:   "@, dec(m.authorities.len())) + line(
        "  Additional:  "@,
        dec(m.additionals.len()),
    )
}

/// The questions under their title, or nothing when there are none.
pub open spec fn questions_text(qs: Seq<QuestionView>) -> Seq<char> {
    if qs.len() == 0 {
        seq![]
    } else {
        "\n;; QUESTION SECTION\n"@ + question_lines(qs)
    }
}

/// A section of records under its title, or nothing when it is empty.
pub open spec fn section_text(title: Seq<char>, rs: Seq<RrView>) -> Seq<char> {
    if rs.len() == 0 {
        seq![]
    } else {
        title + rr_lines(rs)
    }
}

/// The whole message as text: header, counts, then each non-empty section.
pub open spec fn message_text(m: MessageView) -> Seq<char> {
    header_text(m.header) + counts_text(m) + questions_text(m.questions) + section_text(
        "\n;; ANSWER SECTION\n"@,
        m.answers,
    ) + section_text("\n;; AUTHORITY SECTION\n"@, m.authorities) + section_text(
        "\n;; ADDITIONAL SECTION\n"@,
        m.additionals,
    )
}

fn push_dec_line(out: &mut String, label: &str, n: u64)
    ensures
        final(out)@ == old(out)@ + line(label@, dec(n as nat)),
{
    out.append(label);
    push_dec(out, n);
    out.append("\n");
    assert(out@ =~= old(out)@ + line(label@, dec(n as nat)));
}

fn push_bool_line(out: &mut String, label: &str, b: bool)
    ensures
        final(out)@ == old(out)@ + line(label@, bool_text(b)),
{
    out.append(label);
    push_bool(out, b);
    out.append("\n");
    assert(out@ =~= old(out)@ + line(label@, bool_text(b)));
}

fn push_opcode_line(out: &mut String, label: &str, o: Opcode)
    ensures
        final(out)@ == old(out)@ + line(label@, opcode_text(o)),
{
    out.append(label);
    push_opcode(out, o);
    out.append("\n");
    assert(out@ =~= old(out)@ + line(label@, opcode_text(o)));
}

fn push_rcode_line(out: &mut String, label: &str, r: Rcode)
    ensures
        final(out)@ == old(out)@ + line(label@, rcode_text(r)),
{
    out.append(label);
    push_rcode(out, r);
    out.append("\n");
    assert(out@ =~= old(out)@ + line(label@, rcode_text(r)));
}

fn push_header(out: &mut String, h: &Header)
    ensures
        final(out)@ == old(out)@ + header_text(*h),
{
    let ghost o = old(out)@;
    out.append(";; HEADER\n");
    let ghost p = ";; HEADER\n"@;
    push_dec_line(out, "  ID:      ", h.id as u64);
    proof {
        lemma_concat_associative(o, p, line("  ID:      "@, dec(h.id as nat)));
        p = p + line("  ID:      "@, dec(h.id as nat));
    }
    push_bool_line(out, "  QR:      ", h.qr);
    proof {
        lemma_concat_associative(o, p, line("  QR:      "@, bool_text(h.qr)));
        p = p + line("  QR:      "@, bool_text(h.qr));
    }
    push_opcode_line(out, "  OPCODE:  ", h.opcode);
    proof {
        lemma_concat_associative(o, p, line("  OPCODE:  "@, opcode_text(h.opcode)));
        p = p + line("  OPCODE:  "@, opcode_text(h.opcode));
    }
    push_bool_line(out, "  AA:      ", h.aa);
    proof {
        lemma_concat_associative(o, p, line("  AA:      "@, bool_text(h.aa)));
        p = p + line("  AA:      "@, bool_text(h.aa));
    }
    push_bool_line(out, "  TC:      ", h.tc);
    proof {
        lemma_concat_associative(o, p, line("  TC:      "@, bool_text(h.tc)));
        p = p + line("  TC:      "@, bool_text(h.tc));
    }
    push_bool_line(out, "  RD:      ", h.rd);
    proof {
        lemma_concat_associative(o, p, line("  RD:      "@, bool_text(h.rd)));
        p = p + line("  RD:      "@, bool_text(h.rd));
    }
    push_bool_line(out, "  RA:      ", h.ra);
    proof {
        lemma_concat_associative(o, p, line("  RA:      "@, bool_text(h.ra)));
        p = p + line("  RA:      "@, bool_text(h.ra));
    }
    push_rcode_line(out, "  RCODE:   ", h.rcode);
    proof {
        lemma_concat_associative(o, p, line("  RCODE:   "@, rcode_text(h.rcode)));
        p = p + line("  RCODE:   "@, rcode_text(h.rcode));
    }
    assert(p == header_text(*h));
}

fn push_counts(out: &mut String, msg: &Message)
    ensures
        final(out)@ == old(out)@ + counts_text(msg@),
{
    let ghost o = old(out)@;
    let ghost m = msg@;
    out.append("\n;; COUNTS\n");
    let ghost p = "\n;; COUNTS\n"@;
    push_dec_line(out, "  Questions:   ", msg.questions.len() as u64);
    proof {
        lemma_concat_associative(o, p, line("  Questions:   "@, dec(m.questions.len())));
        p = p + line("  Questions:   "@, dec(m.questions.len()));
    }
    push_dec_line(out, "  Answers:     ", msg.answers.len() as u64);
    proof {
        lemma_concat_associative(o, p, line("  Answers:     "@, dec(m.answers.len())));
        p = p + line("  Answers:     "@, dec(m.answers.len()));
    }
    push_dec_line(out, "  Authority:   ", msg.authorities.len() as u64);
    proof {
        lemma_concat_associative(o, p, line("  Authority:   "@, dec(m.authorities.len())));
        p = p + line("  Authority:   "@, dec(m.authorities.len()));
    }
    push_dec_line(out, "  Additional:  ", msg.additionals.len() as u64);
    proof {
        lemma_concat_associative(o, p, line("  Additional:  "@, dec(m.additionals.len())));
        p = p + line("  Additional:  "@, dec(m.additionals.len()));
    }
    assert(p == counts_text(m));
}

fn push_section(out: &mut String, title: &str, rrs: &Vec<ResourceRecord>)
    ensures
        final(out)@ == old(out)@ + section_text(title@, records_view(rrs@)),
{
    if rrs.len() > 0 {
        out.append(title);
        push_rrs(out, rrs);
        assert(out@ =~= old(out)@ + section_text(title@, records_view(rrs@)));
    } else {
        assert(out@ =~= old(out)@ + section_text(title@, records_view(rrs@)));
    }
}

/// The message as human-readable text.
pub fn format_message(msg: &Message) -> (s: String)
    ensures
        s@ == message_text(msg@),
{
    let ghost m = msg@;
    let mut out = String::new();
    let ghost o = out@;
    push_header(&mut out, &msg.header);
    let ghost p = header_text(m.header);
    push_counts(&mut out, msg);
    proof {
        lemma_concat_associative(o, p, counts_text(m));
        p = p + counts_text(m);
    }
    if msg.questions.len() > 0 {
        out.append("\n;; QUESTION SECTION\n");
        push_questions(&mut out, &msg.questions);
        assert(out@ =~= o + p + questions_text(m.questions));
    } else {
        assert(out@ =~= o + p + questions_text(m.questions));
    }
    proof {
        lemma_concat_associative(o, p, questions_text(m.questions));
        p = p + questions_text(m.questions);
    }
    push_section(&mut out, "\n;; ANSWER SECTION\n", &msg.answers);
    proof {
        lemma_concat_associative(o, p, section_text("\n;; ANSWER SECTION\n"@, m.answers));
        p = p + section_text("\n;; ANSWER SECTION\n"@, m.answers);
    }
    push_section(&mut out, "\n;; AUTHORITY SECTION\n", &msg.authorities);
    proof {
        lemma_concat_associative(o, p, section_text("\n;; AUTHORITY SECTION\n"@, m.authorities));
        p = p + section_text("\n;; AUTHORITY SECTION\n"@, m.authorities);
    }
    push_section(&mut out, "\n;; ADDITIONAL SECTION\n", &msg.additionals);
    proof {
        lemma_concat_associative(o, p, section_text("\n;; ADDITIONAL SECTION\n"@, m.additionals));
        p = p + section_text("\n;; ADDITIONAL SECTION\n"@, m.additionals);
    }
    assert(o =~= Seq::<char>::empty());
    assert(o + p =~= p);
    out
}

// ---------- Laws of the text ----------

/// The number a text of decimal digits stands for.
pub open spec fn decimal_value(s: Seq<char>) -> int
    decreases s.len(),
{
    if s.len() == 0 {
        0
    } else {
        decimal_value(s.drop_last()) * 10 + ((s.last() as int) - ('0' as int))
    }
}

/// The number a text of lowercase hexadecimal digits stands for.
pub open spec fn hex_value(s: Seq<char>) -> int
    decreases s.len(),
{
    if s.len() == 0 {
        0
    } else {
        let c = s.last() as int;
        let d = if c >= ('a' as int) { c - ('a' as int) + 10 } else { c - ('0' as int) };
        hex_value(s.drop_last()) * 16 + d
    }
}

/// The digit characters: '0' to '9', and 'a' to 'f' for hexadecimal.
pub open spec fn is_decimal_digit(c: char) -> bool {
    ('0' as int) <= (c as int) <= ('9' as int)
}

pub open spec fn is_hex_digit(c: char) -> bool {
    is_decimal_digit(c) || ('a' as int) <= (c as int) <= ('f' as int)
}

proof fn lemma_digit_char(k: nat)
    requires
        k < 16,
    ensures
        k < 10 ==> (hex_digit(k) as int) - ('0' as int) == k && is_decimal_digit(hex_digit(k)),
        k >= 10 ==> (hex_digit(k) as int) - ('a' as int) + 10 == k && ('a' as int) <= (hex_digit(k) as int) <= ('f' as int),
        k > 0 ==> hex_digit(k) != '0',
{
}

/// A number is written in decimal: only digits, no leading zero but for
/// zero itself, and the digits stand for the number.
pub proof fn law_decimal_text(n: nat)
    ensures
        dec(n).len() > 0,
        forall|i: int| 0 <= i < dec(n).len() ==> is_decimal_digit(#[trigger] dec(n)[i]),
        n > 0 ==> dec(n)[0] != '0',
        decimal_value(dec(n)) == n,
    decreases n,
{
    lemma_digit_char(n % 10);
    if n < 10 {
        assert(dec(n).drop_last() =~= Seq::<char>::empty());
        assert(dec(n).last() == hex_digit(n));
        assert(decimal_value(dec(n)) == decimal_value(dec(n).drop_last()) * 10 + ((dec(n).last() as int)
            - ('0' as int)));
        assert(decimal_value(Seq::<char>::empty()) == 0);
    } else {
        law_decimal_text(n / 10);
        let d = dec(n);
        assert(d.drop_last() =~= dec(n / 10));
        assert(d.last() == hex_digit(n % 10));
        assert(decimal_value(d) == decimal_value(d.drop_last()) * 10 + ((d.last() as int) - ('0' as int)));
        assert(decimal_value(d) == (n / 10) * 10 + (n % 10) as int);
        assert forall|i: int| 0 <= i < d.len() implies is_decimal_digit(#[trigger] d[i]) by {
            if i < d.len() - 1 {
                assert(d[i] == dec(n / 10)[i]);
            }
        }
        assert(d[0] == dec(n / 10)[0]);
    }
}

/// A number is written in lowercase hexadecimal: only hex digits, no leading
/// zero but for zero itself, and the digits stand for the number.
pub proof fn law_hex_text(n: nat)
    ensures
        hex(n).len() > 0,
        forall|i: int| 0 <= i < hex(n).len() ==> is_hex_digit(#[trigger] hex(n)[i]),
        n > 0 ==> hex(n)[0] != '0',
        hex_value(hex(n)) == n,
    decreases n,
{
    lemma_digit_char(n % 16);
    if n < 16 {
        assert(hex(n).drop_last() =~= Seq::<char>::empty());
        assert(hex(n).last() == hex_digit(n));
        assert(hex_value(Seq::<char>::empty()) == 0);
        assert(hex_value(hex(n)) == hex_value(hex(n).drop_last()) * 16 + (if (hex(n).last() as int) >= (
        'a' as int) {
            (hex(n).last() as int) - ('a' as int) + 10
        } else {
            (hex(n).last() as int) - ('0' as int)
        }));
    } else {
        law_hex_text(n / 16);
        let d = hex(n);
        assert(d.drop_last() =~= hex(n / 16));
        assert(d.last() == hex_digit(n % 16));
        assert(hex_value(d) == hex_value(d.drop_last()) * 16 + (if (d.last() as int) >= ('a' as int) {
            (d.last() as int) - ('a' as int) + 10
        } else {
            (d.last() as int) - ('0' as int)
        }));
        assert(hex_value(d) == (n / 16) * 16 + (n % 16) as int);
        assert forall|i: int| 0 <= i < d.len() implies is_hex_digit(#[trigger] d[i]) by {
            if i < d.len() - 1 {
                assert(d[i] == hex(n / 16)[i]);
            }
        }
        assert(d[0] == hex(n / 16)[0]);
    }
}

/// An IPv4 address is its four octets in decimal, in order, joined by dots.
pub proof fn law_ipv4_text(b: Seq<u8>)
    requires
        b.len() == 4,
    ensures
        ipv4_text(b) == join_with(seq![dec(b[0] as nat), dec(b[1] as nat), dec(b[2] as nat), dec(b[3] as nat)], "."@),
{
    let p = seq![dec(b[0] as nat), dec(b[1] as nat), dec(b[2] as nat), dec(b[3] as nat)];
    assert(p.drop_last().drop_last().drop_last() =~= seq![dec(b[0] as nat)]);
    assert(p.drop_last().drop_last() =~= seq![dec(b[0] as nat), dec(b[1] as nat)]);
    assert(p.drop_last() =~= seq![dec(b[0] as nat), dec(b[1] as nat), dec(b[2] as nat)]);
    assert(join_with(p.drop_last().drop_last().drop_last(), "."@) == dec(b[0] as nat));
    assert(join_with(p.drop_last().drop_last(), "."@) == dec(b[0] as nat) + "."@ + dec(b[1] as nat));
    assert(join_with(p.drop_last(), "."@) == join_with(p.drop_last().drop_last(), "."@) + "."@ + dec(
        b[2] as nat,
    ));
    assert(join_with(p, "."@) == join_with(p.drop_last(), "."@) + "."@ + dec(b[3] as nat));
    assert(ipv4_text(b) =~= join_with(p, "."@));
}

/// An SOA record's text is its primary server and its mailbox, then its
/// serial, refresh, retry, expire and minimum in decimal, in that order
/// (RFC 1035), all separated by single spaces.
#[verifier::spinoff_prover]
#[verifier::rlimit(60)]
pub proof fn law_soa_text(soa: SoaView)
    ensures
        rdata_text(RDataView::SOA(soa)) == name_text(soa.mname) + " "@ + name_text(soa.rname) + " "@
            + join_with(
            seq![
                dec(soa.serial as nat),
                dec(soa.refresh as nat),
                dec(soa.retry as nat),
                dec(soa.expire as nat),
                dec(soa.minimum as nat),
            ],
            " "@,
        ),
{
    let p = seq![
        dec(soa.serial as nat),
        dec(soa.refresh as nat),
        dec(soa.retry as nat),
        dec(soa.expire as nat),
        dec(soa.minimum as nat),
    ];
    let p1 = p.drop_last().drop_last().drop_last().drop_last();
    let p2 = p.drop_last().drop_last().drop_last();
    let p3 = p.drop_last().drop_last();
    let p4 = p.drop_last();
    assert(p1 =~= seq![dec(soa.serial as nat)]);
    assert(p2 =~= seq![dec(soa.serial as nat), dec(soa.refresh as nat)]);
    assert(p3 =~= seq![dec(soa.serial as nat), dec(soa.refresh as nat), dec(soa.retry as nat)]);
    assert(p4 =~= seq![
        dec(soa.serial as nat),
        dec(soa.refresh as nat),
        dec(soa.retry as nat),
        dec(soa.expire as nat),
    ]);
    assert(join_with(p1, " "@) == dec(soa.serial as nat));
    assert(join_with(p2, " "@) == dec(soa.serial as nat) + " "@ + dec(soa.refresh as nat));
    assert(join_with(p3, " "@) == join_with(p2, " "@) + " "@ + dec(soa.retry as nat));
    assert(join_with(p4, " "@) == join_with(p3, " "@) + " "@ + dec(soa.expire as nat));
    assert(join_with(p, " "@) == join_with(p4, " "@) + " "@ + dec(soa.minimum as nat));
    assert(rdata_text(RDataView::SOA(soa)) =~= name_text(soa.mname) + " "@ + name_text(soa.rname)
        + " "@ + join_with(p, " "@));
}

/// A record's line is its name, TTL, class, type and data, in that order,
/// separated by tabs and ended by a line break.
#[verifier::spinoff_prover]
#[verifier::rlimit(60)]
pub proof fn law_record_line(rr: RrView)
    ensures
        rr_line(rr) == join_with(
            seq![
                name_text(rr.name),
                dec(rr.ttl as nat),
                qclass_text(rr.rclass),
                qtype_text(rr.rtype),
                rdata_text(rr.rdata),
            ],
            "\t"@,
        ) + "\n"@,
{
    let p = seq![
        name_text(rr.name),
        dec(rr.ttl as nat),
        qclass_text(rr.rclass),
        qtype_text(rr.rtype),
        rdata_text(rr.rdata),
    ];
    let p1 = p.drop_last().drop_last().drop_last().drop_last();
    let p2 = p.drop_last().drop_last().drop_last();
    let p3 = p.drop_last().drop_last();
    let p4 = p.drop_last();
    assert(p1 =~= seq![name_text(rr.name)]);
    assert(p2 =~= seq![name_text(rr.name), dec(rr.ttl as nat)]);
    assert(p3 =~= seq![name_text(rr.name), dec(rr.ttl as nat), qclass_text(rr.rclass)]);
    assert(p4 =~= seq![
        name_text(rr.name),
        dec(rr.ttl as nat),
        qclass_text(rr.rclass),
        qtype_text(rr.rtype),
    ]);
    assert(join_with(p1, "\t"@) == name_text(rr.name));
    assert(join_with(p2, "\t"@) == name_text(rr.name) + "\t"@ + dec(rr.ttl as nat));
    assert(join_with(p3, "\t"@) == join_with(p2, "\t"@) + "\t"@ + qclass_text(rr.rclass));
    assert(join_with(p4, "\t"@) == join_with(p3, "\t"@) + "\t"@ + qtype_text(rr.rtype));
    assert(join_with(p, "\t"@) == join_with(p4, "\t"@) + "\t"@ + rdata_text(rr.rdata));
    assert(rr_line(rr) =~= join_with(p, "\t"@) + "\n"@);
}

} // verus!
