//! Iterative resolution: from the root servers down referral by referral,
//! following CNAMEs, until the records asked for are found.
use vstd::prelude::*;
use vstd::utf8::encode_utf8;

use crate::message::compress::Labels;
use crate::message::record_types::{name_text, Name};
use crate::message::{records_view, Message, MessageView, QType, RData, RDataView, Rcode, ResourceRecord, RrView};
use crate::net::{dns_server, QueryError, ServerAddr, Transport};
use crate::root_hints::root_server_addrs;

verus! {

#[derive(Debug)]
pub enum ResolveError {
    NxDomain,
    NoData,
    ServFail,
    TooManyHops,
    NoUsableServers,
    Transport(QueryError),
}

/// At most this many queries (referral steps and glue lookups together) in
/// one resolution.
pub const MAX_HOPS: u32 = 20;

// ---------- Comparing names ----------

pub open spec fn ascii_lower(b: u8) -> u8 {
    if 65 <= b <= 90 {
        (b + 32) as u8
    } else {
        b
    }
}

/// Byte strings equal up to ASCII case.
pub open spec fn eq_ignore_ascii_case(x: Seq<u8>, y: Seq<u8>) -> bool {
    &&& x.len() == y.len()
    &&& forall|i: int| 0 <= i < x.len() ==> ascii_lower(#[trigger] x[i]) == ascii_lower(y[i])
}

/// Two names whose texts are equal up to ASCII case.
pub open spec fn names_match(a: Labels, b: Labels) -> bool {
    eq_ignore_ascii_case(encode_utf8(name_text(a)), encode_utf8(name_text(b)))
}

fn to_ascii_lower(b: u8) -> (r: u8)
    ensures
        r == ascii_lower(b),
{
    if 65 <= b && b <= 90 {
        b + 32
    } else {
        b
    }
}

/// `x.eq_ignore_ascii_case(y)` on bytes.
pub fn bytes_eq_ignore_ascii_case(x: &[u8], y: &[u8]) -> (r: bool)
    ensures
        r == eq_ignore_ascii_case(x@, y@),
{
    if x.len() != y.len() {
        return false;
    }
    let mut i: usize = 0;
    while i < x.len()
        invariant
            x@.len() == y@.len(),
            i <= x@.len(),
            forall|k: int| 0 <= k < i ==> ascii_lower(#[trigger] x@[k]) == ascii_lower(y@[k]),
        decreases x@.len() - i,
    {
        if to_ascii_lower(x[i]) != to_ascii_lower(y[i]) {
            return false;
        }
        i = i + 1;
    }
    true
}

/// Whether two names are the same up to ASCII case.
pub fn names_equal_ci(a: &Name, b: &Name) -> (r: bool)
    ensures
        r == names_match(a@, b@),
{
    let sa = a.to_string();
    let sb = b.to_string();
    bytes_eq_ignore_ascii_case(sa.as_str().as_bytes(), sb.as_str().as_bytes())
}

// ---------- Reading one response ----------

/// The records of type `t`, in order.
pub open spec fn records_of_type(rs: Seq<RrView>, t: QType) -> Seq<RrView>
    decreases rs.len(),
{
    if rs.len() == 0 {
        seq![]
    } else if rs.last().rtype == t {
        records_of_type(rs.drop_last(), t).push(rs.last())
    } else {
        records_of_type(rs.drop_last(), t)
    }
}

/// The index of the first record of type `t` from `i` on.
pub open spec fn first_of_type(rs: Seq<RrView>, t: QType, i: int) -> Option<int>
    decreases rs.len() - i,
{
    if i < 0 || i >= rs.len() {
        None
    } else if rs[i].rtype == t {
        Some(i)
    } else {
        first_of_type(rs, t, i + 1)
    }
}

/// The targets of the NS records, in order.
pub open spec fn ns_targets(rs: Seq<RrView>) -> Seq<Labels>
    decreases rs.len(),
{
    if rs.len() == 0 {
        seq![]
    } else {
        match rs.last().rdata {
            RDataView::NS(n) => ns_targets(rs.drop_last()).push(n),
            _ => ns_targets(rs.drop_last()),
        }
    }
}

/// The addresses that the A records in `adds` give for the name `ns`.
pub open spec fn glue_for(ns: Labels, adds: Seq<RrView>) -> Seq<Seq<u8>>
    decreases adds.len(),
{
    if adds.len() == 0 {
        seq![]
    } else {
        let rest = glue_for(ns, adds.drop_last());
        if names_match(adds.last().name, ns) {
            match adds.last().rdata {
                RDataView::A(ip) => rest.push(ip),
                _ => rest,
            }
        } else {
            rest
        }
    }
}

/// The glue addresses for each name server in turn.
pub open spec fn glue(nss: Seq<Labels>, adds: Seq<RrView>) -> Seq<Seq<u8>>
    decreases nss.len(),
{
    if nss.len() == 0 {
        seq![]
    } else {
        glue(nss.drop_last(), adds) + glue_for(nss.last(), adds)
    }
}

/// Where a response leaves the walk.
pub enum Step {
    /// The records of the type asked for.
    Answer(Vec<ResourceRecord>),
    /// The name is an alias: resolve this name instead.
    Cname(String),
    /// A referral: the delegated name servers, and the glue addresses given for them.
    Referral(Vec<Name>, Vec<ServerAddr>),
}

pub enum StepView {
    Answer(Seq<RrView>),
    Cname(Seq<char>),
    Referral(Seq<Labels>, Seq<Seq<u8>>),
}

pub open spec fn servers_ips(v: Seq<ServerAddr>) -> Seq<Seq<u8>> {
    v.map_values(|a: ServerAddr| a.ip@)
}

pub open spec fn names_view(v: Seq<Name>) -> Seq<Labels> {
    v.map_values(|n: Name| n@)
}

impl View for Step {
    type V = StepView;

    open spec fn view(&self) -> StepView {
        match self {
            Step::Answer(v) => StepView::Answer(records_view(v@)),
            Step::Cname(s) => StepView::Cname(s@),
            Step::Referral(ns, servers) => StepView::Referral(names_view(ns@), servers_ips(servers@)),
        }
    }
}

/// What a response to a question of type `qtype` means for the walk: an
/// NXDOMAIN ends it; any other error code is a server failure; answers of
/// the type asked for are the result; failing those, the first CNAME-typed
/// answer redirects (or, if its data is not a name, there is no data);
/// answers of neither kind, or no answers and no authority records, mean no
/// data; otherwise the NS records in the authority section refer onwards
/// (none of them is a server failure), with their glue from the additional
/// section.
pub open spec fn response_step(resp: MessageView, qtype: QType) -> Result<StepView, ResolveError> {
    if resp.header.rcode == Rcode::NxDomain {
        Err(ResolveError::NxDomain)
    } else if resp.header.rcode != Rcode::NoError {
        Err(ResolveError::ServFail)
    } else if resp.answers.len() > 0 {
        let matched = records_of_type(resp.answers, qtype);
        if matched.len() > 0 {
            Ok(StepView::Answer(matched))
        } else {
            match first_of_type(resp.answers, QType::CNAME, 0) {
                Some(i) => match resp.answers[i].rdata {
                    RDataView::CNAME(target) => Ok(StepView::Cname(name_text(target))),
                    _ => Err(ResolveError::NoData),
                },
                None => Err(ResolveError::NoData),
            }
        }
    } else if resp.authorities.len() == 0 {
        Err(ResolveError::NoData)
    } else {
        let ns = ns_targets(resp.authorities);
        if ns.len() == 0 {
            Err(ResolveError::ServFail)
        } else {
            Ok(StepView::Referral(ns, glue(ns, resp.additionals)))
        }
    }
}

/// The step's meaning, and every server address in it is on port 53.
pub open spec fn step_matches(r: Result<Step, ResolveError>, resp: MessageView, qtype: QType) -> bool {
    match (r, response_step(resp, qtype)) {
        (Ok(s), Ok(v)) => s@ == v && (s matches Step::Referral(_, servers) ==> forall|i: int|
            0 <= i < servers@.len() ==> (#[trigger] servers@[i]).port == 53),
        (Err(e), Err(e2)) => e == e2,
        _ => false,
    }
}

fn records_with_type(rs: &Vec<ResourceRecord>, qtype: QType) -> (r: Vec<ResourceRecord>)
    ensures
        records_view(r@) == records_of_type(records_view(rs@), qtype),
{
    let ghost v = records_view(rs@);
    let mut out: Vec<ResourceRecord> = Vec::new();
    let mut i: usize = 0;
    while i < rs.len()
        invariant
            i <= rs@.len(),
            v == records_view(rs@),
            records_view(out@) == records_of_type(v.take(i as int), qtype),
        decreases rs@.len() - i,
    {
        assert(v.take(i + 1).drop_last() =~= v.take(i as int));
        assert(v.take(i + 1).last() == rs@[i as int]@);
        if rs[i].rtype == qtype {
            let ghost before = out@;
            out.push(rs[i].clone());
            assert(records_view(out@) =~= records_view(before).push(rs@[i as int]@));
        }
        i = i + 1;
    }
    assert(v.take(rs@.len() as int) =~= v);
    out
}

fn first_index_of_type(rs: &Vec<ResourceRecord>, t: QType) -> (r: Option<usize>)
    ensures
        r matches Some(i) ==> first_of_type(records_view(rs@), t, 0) == Some(i as int) && i < rs@.len(),
        r is None ==> first_of_type(records_view(rs@), t, 0) is None,
{
    let ghost v = records_view(rs@);
    let mut i: usize = 0;
    while i < rs.len()
        invariant
            i <= rs@.len(),
            v == records_view(rs@),
            first_of_type(v, t, 0) == first_of_type(v, t, i as int),
        decreases rs@.len() - i,
    {
        if rs[i].rtype == t {
            return Some(i);
        }
        i = i + 1;
    }
    None
}

fn ns_names_of(rs: &Vec<ResourceRecord>) -> (r: Vec<Name>)
    ensures
        names_view(r@) == ns_targets(records_view(rs@)),
{
    let ghost v = records_view(rs@);
    let mut out: Vec<Name> = Vec::new();
    let mut i: usize = 0;
    while i < rs.len()
        invariant
            i <= rs@.len(),
            v == records_view(rs@),
            names_view(out@) == ns_targets(v.take(i as int)),
        decreases rs@.len() - i,
    {
        assert(v.take(i + 1).drop_last() =~= v.take(i as int));
        assert(v.take(i + 1).last() == rs@[i as int]@);
        match &rs[i].rdata {
            RData::NS(n) => {
                let ghost before = out@;
                out.push(n.clone());
                assert(names_view(out@) =~= names_view(before).push(n@));
            },
            _ => {},
        }
        i = i + 1;
    }
    assert(v.take(rs@.len() as int) =~= v);
    out
}

/// The glue addresses (port 53) for each name server, in order.
pub fn glued_addrs(ns_names: &Vec<Name>, additionals: &Vec<ResourceRecord>) -> (out: Vec<ServerAddr>)
    ensures
        servers_ips(out@) == glue(names_view(ns_names@), records_view(additionals@)),
        forall|i: int| 0 <= i < out@.len() ==> (#[trigger] out@[i]).port == 53,
{
    let ghost nv = names_view(ns_names@);
    let ghost av = records_view(additionals@);
    let mut out: Vec<ServerAddr> = Vec::new();
    let mut i: usize = 0;
    while i < ns_names.len()
        invariant
            i <= ns_names@.len(),
            nv == names_view(ns_names@),
            av == records_view(additionals@),
            servers_ips(out@) == glue(nv.take(i as int), av),
            forall|k: int| 0 <= k < out@.len() ==> (#[trigger] out@[k]).port == 53,
        decreases ns_names@.len() - i,
    {
        let ghost at_start = servers_ips(out@);
        let ns_name = &ns_names[i];
        let mut j: usize = 0;
        while j < additionals.len()
            invariant
                j <= additionals@.len(),
                av == records_view(additionals@),
                servers_ips(out@) == at_start + glue_for(ns_name@, av.take(j as int)),
                forall|k: int| 0 <= k < out@.len() ==> (#[trigger] out@[k]).port == 53,
            decreases additionals@.len() - j,
        {
            assert(av.take(j + 1).drop_last() =~= av.take(j as int));
            assert(av.take(j + 1).last() == additionals@[j as int]@);
            let add = &additionals[j];
            if names_equal_ci(&add.name, ns_name) {
                match &add.rdata {
                    RData::A(ip) => {
                        let ghost before = out@;
                        out.push(dns_server(*ip));
                        assert(servers_ips(out@) =~= servers_ips(before).push(ip@));
                        assert(servers_ips(out@) =~= at_start + glue_for(ns_name@, av.take(j + 1)));
                    },
                    _ => {},
                }
            }
            j = j + 1;
        }
        assert(av.take(additionals@.len() as int) =~= av);
        assert(nv.take(i + 1).drop_last() =~= nv.take(i as int));
        assert(nv.take(i + 1).last() == ns_name@);
        i = i + 1;
    }
    assert(nv.take(ns_names@.len() as int) =~= nv);
    out
}

/// Reads a response to a question of type `qtype`: see `response_step`.
pub fn classify_response(resp: &Message, qtype: QType) -> (r: Result<Step, ResolveError>)
    ensures
        step_matches(r, resp@, qtype),
{
    match resp.header.rcode {
        Rcode::NxDomain => return Err(ResolveError::NxDomain),
        Rcode::NoError => {},
        _ => return Err(ResolveError::ServFail),
    }
    if resp.answers.len() > 0 {
        let matched = records_with_type(&resp.answers, qtype);
        if matched.len() > 0 {
            return Ok(Step::Answer(matched));
        }
        if let Some(i) = first_index_of_type(&resp.answers, QType::CNAME) {
            if let RData::CNAME(target) = &resp.answers[i].rdata {
                return Ok(Step::Cname(target.to_string()));
            }
        }
        return Err(ResolveError::NoData);
    }
    // Empty answer section: this should be a referral (NS in authority).
    if resp.authorities.len() == 0 {
        return Err(ResolveError::NoData);
    }
    let ns_names = ns_names_of(&resp.authorities);
    if ns_names.len() == 0 {
        return Err(ResolveError::ServFail);
    }
    let next_servers = glued_addrs(&ns_names, &resp.additionals);
    Ok(Step::Referral(ns_names, next_servers))
}


// ---------- The walk ----------

/// `rand::random::<u16>()`: a fresh random query id. Nothing is claimed of
/// the value.
#[verifier::external_body]
fn random_id() -> u16 {
    rand::random::<u16>()
}

/// Every record is of type `qtype`, and there is at least one.
pub open spec fn answers_for(v: Seq<ResourceRecord>, qtype: QType) -> bool {
    &&& v.len() > 0
    &&& forall|i: int| 0 <= i < v.len() ==> (#[trigger] v[i]).rtype == qtype
}

pub enum IterResult {
    Answer(Vec<ResourceRecord>),
    Cname(String),
}

/// Asks each server in turn, each time with a fresh random id, until one
/// answers. With no servers the error is `NoUsableServers`; otherwise it is
/// the transport error of the last server tried.
pub fn query_first_available<T: Transport>(
    transport: &T,
    servers: &Vec<ServerAddr>,
    name: &str,
    qtype: QType,
) -> (r: Result<Message, ResolveError>)
    ensures
        servers@.len() == 0 ==> r matches Err(ResolveError::NoUsableServers),
        servers@.len() > 0 ==> (r is Ok || r matches Err(ResolveError::Transport(_))),
{
    let mut last_err = ResolveError::NoUsableServers;
    let mut i: usize = 0;
    while i < servers.len()
        invariant
            i <= servers@.len(),
            i == 0 ==> last_err matches ResolveError::NoUsableServers,
            i > 0 ==> last_err matches ResolveError::Transport(_),
        decreases servers@.len() - i,
    {
        let id = random_id();
        let query = Message::new_query(id, name, qtype);
        match server_try(transport.query(servers[i], &query)) {
            ServerTry::Done(resp) => return Ok(resp),
            ServerTry::Next(e) => {
                last_err = e;
            },
        }
        i = i + 1;
    }
    Err(last_err)
}

/// The addresses held by the A records, in order.
pub open spec fn a_ips(rs: Seq<RrView>) -> Seq<Seq<u8>>
    decreases rs.len(),
{
    if rs.len() == 0 {
        seq![]
    } else {
        match rs.last().rdata {
            RDataView::A(ip) => a_ips(rs.drop_last()).push(ip),
            _ => a_ips(rs.drop_last()),
        }
    }
}

/// Adds port-53 addresses for the A records among `records`, in order,
/// after what `out` already holds.
fn push_a_addrs(records: &Vec<ResourceRecord>, out: &mut Vec<ServerAddr>)
    ensures
        final(out)@.len() >= old(out)@.len(),
        final(out)@.subrange(0, old(out)@.len() as int) == old(out)@,
        servers_ips(final(out)@.subrange(old(out)@.len() as int, final(out)@.len() as int)) == a_ips(
            records_view(records@),
        ),
        forall|i: int| old(out)@.len() <= i < final(out)@.len() ==> (#[trigger] final(out)@[i]).port == 53,
{
    let ghost o = out@;
    let ghost rv = records_view(records@);
    let mut i: usize = 0;
    assert(out@.subrange(0, o.len() as int) =~= o);
    assert(servers_ips(out@.subrange(o.len() as int, out@.len() as int)) =~= a_ips(rv.take(0)));
    while i < records.len()
        invariant
            i <= records@.len(),
            rv == records_view(records@),
            out@.len() >= o.len(),
            out@.subrange(0, o.len() as int) == o,
            servers_ips(out@.subrange(o.len() as int, out@.len() as int)) == a_ips(rv.take(i as int)),
            forall|k: int| o.len() <= k < out@.len() ==> (#[trigger] out@[k]).port == 53,
        decreases records@.len() - i,
    {
        assert(rv.take(i + 1).drop_last() =~= rv.take(i as int));
        assert(rv.take(i + 1).last() == records@[i as int]@);
        let ghost before = out@;
        if let RData::A(ip) = &records[i].rdata {
            out.push(dns_server(*ip));
            assert(out@.subrange(0, o.len() as int) =~= before.subrange(0, o.len() as int));
            assert(servers_ips(out@.subrange(o.len() as int, out@.len() as int)) =~= servers_ips(
                before.subrange(o.len() as int, before.len() as int),
            ).push(ip@));
        }
        i = i + 1;
    }
    assert(rv.take(records@.len() as int) =~= rv);
}

/// What one round of the walk does with what a reply meant.
pub enum RoundAction {
    /// The walk ends with this result.
    Finish(Result<IterResult, ResolveError>),
    /// Ask these servers next (the glue of a referral).
    Ask(Vec<ServerAddr>),
    /// A referral without glue: look up these name servers' addresses.
    LookupNs(Vec<Name>),
}

/// The decision of one round: an error, an answer or an alias ends the
/// walk with it; a referral with glue goes on to the glued servers; one
/// without glue goes on to look up its name servers.
pub fn round_action(step: Result<Step, ResolveError>) -> (a: RoundAction)
    ensures
        match step {
            Err(e) => a == RoundAction::Finish(Err(e)),
            Ok(Step::Answer(v)) => a == RoundAction::Finish(Ok(IterResult::Answer(v))),
            Ok(Step::Cname(t)) => a == RoundAction::Finish(Ok(IterResult::Cname(t))),
            Ok(Step::Referral(ns, glued)) => if glued@.len() > 0 {
                a == RoundAction::Ask(glued)
            } else {
                a == RoundAction::LookupNs(ns)
            },
        },
{
    match step {
        Err(e) => RoundAction::Finish(Err(e)),
        Ok(Step::Answer(v)) => RoundAction::Finish(Ok(IterResult::Answer(v))),
        Ok(Step::Cname(t)) => RoundAction::Finish(Ok(IterResult::Cname(t))),
        Ok(Step::Referral(ns, glued)) => if glued.len() > 0 {
            RoundAction::Ask(glued)
        } else {
            RoundAction::LookupNs(ns)
        },
    }
}

/// After looking up name servers' addresses: go on to the addresses found,
/// or, when none was found, fail with `ServFail`.
pub fn after_lookups(found: Vec<ServerAddr>) -> (r: Result<Vec<ServerAddr>, ResolveError>)
    ensures
        found@.len() == 0 ==> r matches Err(ResolveError::ServFail),
        found@.len() > 0 ==> r == Ok::<Vec<ServerAddr>, ResolveError>(found),
{
    if found.len() == 0 {
        Err(ResolveError::ServFail)
    } else {
        Ok(found)
    }
}

/// What a server's reply means for the search among servers: a response
/// ends it; a transport error is kept as the latest and the next server
/// is asked.
pub enum ServerTry {
    Done(Message),
    Next(ResolveError),
}

pub fn server_try(r: Result<Message, QueryError>) -> (t: ServerTry)
    ensures
        match r {
            Ok(m) => t == ServerTry::Done(m),
            Err(e) => t == ServerTry::Next(ResolveError::Transport(e)),
        },
{
    match r {
        Ok(m) => ServerTry::Done(m),
        Err(e) => ServerTry::Next(ResolveError::Transport(e)),
    }
}

/// One full iterative walk (root -> ... -> authoritative) for a single name,
/// without following CNAMEs itself (the caller does that). `hops` is shared
/// across the whole resolution, including nested glue lookups, so a
/// pathological zone can't make us loop forever. Each round adds one hop
/// and asks the current servers (see `query_first_available`); what the
/// reply means is `classify_response`, and what the round does with it is
/// `round_action` and `after_lookups`. A round that would make the count
/// exceed `MAX_HOPS` ends the walk with `TooManyHops` before asking anyone.
pub fn resolve_iterative<T: Transport>(
    transport: &T,
    name: &str,
    qtype: QType,
    hops: &mut u32,
) -> (r: Result<IterResult, ResolveError>)
    requires
        *old(hops) < u32::MAX,
    ensures
        *old(hops) >= MAX_HOPS ==> (r matches Err(ResolveError::TooManyHops) && *final(hops) == *old(
            hops,
        ) + 1),
        *old(hops) < MAX_HOPS ==> *old(hops) < *final(hops) <= 2 * MAX_HOPS + 2 - *old(hops),
        r is Ok ==> *final(hops) <= MAX_HOPS,
        r matches Ok(IterResult::Answer(v)) ==> answers_for(v@, qtype),
        !(r matches Err(ResolveError::NoUsableServers)),
    decreases MAX_HOPS - *old(hops),
{
    if *hops >= MAX_HOPS {
        *hops = *hops + 1;
        return Err(ResolveError::TooManyHops);
    }
    let ghost o = *hops as int;
    let mut servers: Vec<ServerAddr> = root_server_addrs();
    loop
        invariant
            o == *old(hops),
            o < MAX_HOPS,
            o <= *hops <= MAX_HOPS,
            servers@.len() > 0,
        decreases MAX_HOPS - *hops,
    {
        *hops = *hops + 1;
        if *hops > MAX_HOPS {
            return Err(ResolveError::TooManyHops);
        }
        let ghost after_step = *hops;
        let resp = query_first_available(transport, &servers, name, qtype)?;
        let step = classify_response(&resp, qtype);
        let ghost g = step;
        match round_action(step) {
            RoundAction::Finish(r) => {
                proof {
                    if r is Ok && r->Ok_0 is Answer {
                        let records = r->Ok_0->Answer_0;
                        let matched = records_of_type(resp@.answers, qtype);
                        lemma_records_of_type(resp@.answers, qtype);
                        assert(g matches Ok(Step::Answer(v)) && v == records);
                        assert forall|i: int| 0 <= i < records@.len() implies (#[trigger] records@[i]).rtype
                            == qtype by {
                            assert(records_view(records@)[i] == matched[i]);
                        }
                    }
                }
                return r;
            },
            RoundAction::Ask(next) => {
                servers = next;
            },
            RoundAction::LookupNs(ns_names) => {
                let mut next_servers: Vec<ServerAddr> = Vec::new();
                // No glue for any NS name (e.g. out-of-bailiwick). Resolve one
                // nameserver's A record via its own nested iterative walk,
                // sharing the same hop budget so this can't be used to loop.
                let mut i: usize = 0;
                while i < ns_names.len()
                    invariant_except_break
                        next_servers@.len() == 0,
                    invariant
                        o == *old(hops),
                        o < MAX_HOPS,
                        o + 1 <= *hops <= 2 * MAX_HOPS - o,
                        after_step <= *hops,
                        i <= ns_names@.len(),
                    ensures
                        next_servers@.len() > 0 ==> *hops <= MAX_HOPS,
                        after_step <= *hops,
                    decreases ns_names@.len() - i,
                {
                    *hops = *hops + 1;
                    if *hops > MAX_HOPS {
                        return Err(ResolveError::TooManyHops);
                    }
                    let ns_text = ns_names[i].to_string();
                    let nested = resolve_iterative(transport, ns_text.as_str(), QType::A, hops);
                    if let Ok(IterResult::Answer(records)) = nested {
                        push_a_addrs(&records, &mut next_servers);
                    }
                    if next_servers.len() > 0 {
                        break ;
                    }
                    i = i + 1;
                }
                servers = after_lookups(next_servers)?;
            },
        }
    }
}

/// What the CNAME chase does with one walk's result: an answer ends it;
/// an alias is followed, counting one more redirection, unless that makes
/// more than ten, which ends the chase.
pub enum ChaseStep {
    Done(Vec<ResourceRecord>),
    Follow(String, u32),
    GiveUp,
}

pub fn chase_step(chases: u32, r: IterResult) -> (c: ChaseStep)
    requires
        chases <= 10,
    ensures
        match r {
            IterResult::Answer(v) => c == ChaseStep::Done(v),
            IterResult::Cname(t) => if chases + 1 > 10 {
                c == ChaseStep::GiveUp
            } else {
                c == ChaseStep::Follow(t, (chases + 1) as u32)
            },
        },
{
    match r {
        IterResult::Answer(records) => ChaseStep::Done(records),
        IterResult::Cname(next_name) => {
            if chases + 1 > 10 {
                ChaseStep::GiveUp
            } else {
                ChaseStep::Follow(next_name, chases + 1)
            }
        },
    }
}

/// Resolves `qname`/`qtype` from the root down, following CNAMEs (at most
/// ten of them): each walk is `resolve_iterative` on the current name, with
/// one hop count shared by all of them, and what follows a walk is
/// `chase_step`; the eleventh redirection ends in `TooManyHops`. Whatever
/// the servers answer, a success holds only records of the type asked for,
/// and at least one.
pub fn resolve<T: Transport>(transport: &T, qname: &str, qtype: QType) -> (r: Result<
    Vec<ResourceRecord>,
    ResolveError,
>)
    ensures
        r matches Ok(v) ==> answers_for(v@, qtype),
        !(r matches Err(ResolveError::NoUsableServers)),
{
    let mut current_name = String::from_str(qname);
    let mut hops: u32 = 0;
    let mut cname_chases: u32 = 0;
    loop
        invariant
            hops <= MAX_HOPS,
            cname_chases <= 10,
        decreases 10 - cname_chases,
    {
        let result = resolve_iterative(transport, current_name.as_str(), qtype, &mut hops)?;
        let ghost g = result;
        match chase_step(cname_chases, result) {
            ChaseStep::Done(records) => {
                assert(g matches IterResult::Answer(v) && v == records);
                return Ok(records);
            },
            ChaseStep::Follow(next_name, n) => {
                cname_chases = n;
                current_name = next_name;
            },
            ChaseStep::GiveUp => {
                return Err(ResolveError::TooManyHops);
            },
        }
    }
}

pub proof fn lemma_records_of_type(rs: Seq<RrView>, t: QType)
    ensures
        forall|i: int| 0 <= i < records_of_type(rs, t).len() ==> (#[trigger] records_of_type(rs, t)[i]).rtype == t,
    decreases rs.len(),
{
    if rs.len() > 0 {
        lemma_records_of_type(rs.drop_last(), t);
    }
}

/// Whether a record is of type `t`.
pub open spec fn of_type(t: QType) -> spec_fn(RrView) -> bool {
    |r: RrView| r.rtype == t
}

/// The records of a type are exactly the records whose type it is, in the
/// order they came: none dropped, none added.
pub proof fn law_records_of_type_keeps_all(rs: Seq<RrView>, t: QType)
    ensures
        records_of_type(rs, t) == rs.filter(of_type(t)),
        forall|i: int| 0 <= i < rs.len() && rs[i].rtype == t ==> records_of_type(rs, t).contains(
            #[trigger] rs[i],
        ),
        forall|r: RrView| #[trigger] records_of_type(rs, t).contains(r) ==> rs.contains(r) && r.rtype == t,
    decreases rs.len(),
{
    reveal(Seq::filter);
    if rs.len() > 0 {
        law_records_of_type_keeps_all(rs.drop_last(), t);
        assert(rs.filter(of_type(t)) == if (of_type(t))(rs.last()) {
            rs.drop_last().filter(of_type(t)).push(rs.last())
        } else {
            rs.drop_last().filter(of_type(t))
        });
    }
    let f = rs.filter(of_type(t));
    assert forall|i: int| 0 <= i < rs.len() && rs[i].rtype == t implies records_of_type(rs, t).contains(
        #[trigger] rs[i],
    ) by {
        rs.lemma_filter_contains(of_type(t), i);
    }
    assert forall|r: RrView| #[trigger] records_of_type(rs, t).contains(r) implies rs.contains(r)
        && r.rtype == t by {
        rs.lemma_filter_contains_rev(of_type(t), r);
        let j = choose|j: int| 0 <= j < f.len() && f[j] == r;
        rs.lemma_filter_pred(of_type(t), j);
    }
}

/// A reply's answer step holds every answer of the type asked for, in
/// order, and nothing else.
pub proof fn law_answer_step_keeps_the_rrset(resp: MessageView, qtype: QType)
    ensures
        response_step(resp, qtype) matches Ok(StepView::Answer(v)) ==> v == resp.answers.filter(
            of_type(qtype),
        ),
{
    law_records_of_type_keeps_all(resp.answers, qtype);
}

/// Whether a record is an A record whose owner is the name `ns` (up to
/// ASCII case).
pub open spec fn is_glue_for(ns: Labels) -> spec_fn(RrView) -> bool {
    |r: RrView| names_match(r.name, ns) && r.rdata is A
}

/// The glue for a name server is the address of every A record in the
/// additional section whose owner is that name server, in order, and no
/// other.
pub proof fn law_glue_is_every_matching_address(ns: Labels, adds: Seq<RrView>)
    ensures
        glue_for(ns, adds) == adds.filter(is_glue_for(ns)).map_values(|r: RrView| r.rdata->A_0),
    decreases adds.len(),
{
    reveal(Seq::filter);
    if adds.len() > 0 {
        law_glue_is_every_matching_address(ns, adds.drop_last());
        let f0 = adds.drop_last().filter(is_glue_for(ns));
        assert(adds.filter(is_glue_for(ns)) == if (is_glue_for(ns))(adds.last()) {
            f0.push(adds.last())
        } else {
            f0
        });
        if (is_glue_for(ns))(adds.last()) {
            assert(f0.push(adds.last()).map_values(|r: RrView| r.rdata->A_0) =~= f0.map_values(
                |r: RrView| r.rdata->A_0,
            ).push(adds.last().rdata->A_0));
        }
    } else {
        assert(adds.filter(is_glue_for(ns)).map_values(|r: RrView| r.rdata->A_0) =~= Seq::<
            Seq<u8>,
        >::empty());
    }
}

/// Whether a record holds a name server's name.
pub open spec fn is_ns_data(r: RrView) -> bool {
    r.rdata is NS
}

/// A referral's name servers are the targets of every NS record in the
/// authority section, in order, and no other.
pub proof fn law_referral_names_every_ns(rs: Seq<RrView>)
    ensures
        ns_targets(rs) == rs.filter(|r: RrView| is_ns_data(r)).map_values(|r: RrView| r.rdata->NS_0),
    decreases rs.len(),
{
    reveal(Seq::filter);
    let p = |r: RrView| is_ns_data(r);
    if rs.len() > 0 {
        law_referral_names_every_ns(rs.drop_last());
        let f0 = rs.drop_last().filter(p);
        assert(rs.filter(p) == if p(rs.last()) {
            f0.push(rs.last())
        } else {
            f0
        });
        if p(rs.last()) {
            assert(f0.push(rs.last()).map_values(|r: RrView| r.rdata->NS_0) =~= f0.map_values(
                |r: RrView| r.rdata->NS_0,
            ).push(rs.last().rdata->NS_0));
        }
    } else {
        assert(rs.filter(p).map_values(|r: RrView| r.rdata->NS_0) =~= Seq::<Labels>::empty());
    }
}

/// The first record of a type, if any, is the one at the smallest index
/// from `i` on with that type.
pub proof fn law_first_of_type(rs: Seq<RrView>, t: QType, i: int)
    requires
        0 <= i,
    ensures
        first_of_type(rs, t, i) matches Some(k) ==> i <= k < rs.len() && rs[k].rtype == t && forall|
            j: int,
        | i <= j < k ==> #[trigger] rs[j].rtype != t,
        first_of_type(rs, t, i) is None ==> forall|j: int| i <= j < rs.len() ==> #[trigger] rs[j].rtype
            != t,
    decreases rs.len() - i,
{
    if i < rs.len() && rs[i].rtype != t {
        law_first_of_type(rs, t, i + 1);
    }
}

} // verus!
