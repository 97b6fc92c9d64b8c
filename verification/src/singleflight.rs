//! The outcome that a deduplicated resolution shares with everyone waiting
//! on it.
use vstd::prelude::*;

use crate::cache::{assoc_get, assoc_has, assoc_index, assoc_put, key_of, keys_unique, lemma_assoc_put, name_key};
use crate::message::{qtype_to_u16, QType, ResourceRecord};
use crate::resolver::ResolveError;

verus! {

/// A copyable, simplified error for broadcasting a resolution outcome to
/// waiting followers: transport-level detail collapses into one variant.
#[derive(Debug, Clone, Copy, PartialEq, Eq, Structural)]
pub enum SharedResolveError {
    NxDomain,
    NoData,
    ServFail,
    TooManyHops,
    NoUsableServers,
    Transport,
}

pub open spec fn shared_error(e: ResolveError) -> SharedResolveError {
    match e {
        ResolveError::NxDomain => SharedResolveError::NxDomain,
        ResolveError::NoData => SharedResolveError::NoData,
        ResolveError::ServFail => SharedResolveError::ServFail,
        ResolveError::TooManyHops => SharedResolveError::TooManyHops,
        ResolveError::NoUsableServers => SharedResolveError::NoUsableServers,
        ResolveError::Transport(_) => SharedResolveError::Transport,
    }
}

impl From<ResolveError> for SharedResolveError {
    fn from(e: ResolveError) -> (r: Self) {
        match e {
            ResolveError::NxDomain => SharedResolveError::NxDomain,
            ResolveError::NoData => SharedResolveError::NoData,
            ResolveError::ServFail => SharedResolveError::ServFail,
            ResolveError::TooManyHops => SharedResolveError::TooManyHops,
            ResolveError::NoUsableServers => SharedResolveError::NoUsableServers,
            ResolveError::Transport(_) => SharedResolveError::Transport,
        }
    }
}

impl vstd::std_specs::convert::FromSpecImpl<ResolveError> for SharedResolveError {
    open spec fn obeys_from_spec() -> bool {
        true
    }

    open spec fn from_spec(e: ResolveError) -> SharedResolveError {
        shared_error(e)
    }
}

pub type SharedResult = Result<Vec<ResourceRecord>, SharedResolveError>;

/// The shared form of a resolver outcome: the records as they are, or the
/// error collapsed by `shared_error`.
pub fn share_outcome(r: Result<Vec<ResourceRecord>, ResolveError>) -> (s: SharedResult)
    ensures
        match r {
            Ok(v) => s == Ok::<Vec<ResourceRecord>, SharedResolveError>(v),
            Err(e) => s == Err::<Vec<ResourceRecord>, SharedResolveError>(shared_error(e)),
        },
{
    match r {
        Ok(v) => Ok(v),
        Err(e) => Err(SharedResolveError::from(e)),
    }
}

/// The name of each error variant, as the error prints itself.
pub open spec fn shared_error_name(e: SharedResolveError) -> Seq<char> {
    match e {
        SharedResolveError::NxDomain => "NxDomain"@,
        SharedResolveError::NoData => "NoData"@,
        SharedResolveError::ServFail => "ServFail"@,
        SharedResolveError::TooManyHops => "TooManyHops"@,
        SharedResolveError::NoUsableServers => "NoUsableServers"@,
        SharedResolveError::Transport => "Transport"@,
    }
}

impl SharedResolveError {
    /// The variant's name: what the error shows when it is printed.
    pub fn describe(&self) -> (s: &'static str)
        ensures
            s@ == shared_error_name(*self),
    {
        match self {
            SharedResolveError::NxDomain => "NxDomain",
            SharedResolveError::NoData => "NoData",
            SharedResolveError::ServFail => "ServFail",
            SharedResolveError::TooManyHops => "TooManyHops",
            SharedResolveError::NoUsableServers => "NoUsableServers",
            SharedResolveError::Transport => "Transport",
        }
    }
}

// ---------- Who resolves and who waits ----------

/// What a caller is told when it asks to resolve a name: to do the work
/// itself, or to wait for the resolution already in flight, each known by
/// its ticket.
#[derive(Debug, Clone, Copy, PartialEq, Eq, Structural)]
pub enum Role {
    Leader(u64),
    Follower(u64),
}

pub type FlightKey = (Seq<char>, u16);

/// The resolutions in flight, by key (name without trailing dots, in
/// lowercase, and type code), each with the ticket its waiters share.
pub struct InFlight {
    entries: Vec<(String, u16, u64)>,
    next_ticket: u64,
}

pub struct InFlightView {
    pub entries: Seq<(FlightKey, u64)>,
    pub next_ticket: u64,
}

impl View for InFlight {
    type V = InFlightView;

    closed spec fn view(&self) -> InFlightView {
        InFlightView {
            entries: self.entries@.map_values(|e: (String, u16, u64)| ((e.0@, e.1), e.2)),
            next_ticket: self.next_ticket,
        }
    }
}

/// The key a request is deduplicated by.
pub open spec fn flight_key(name: Seq<char>, qtype: QType) -> FlightKey {
    (name_key(name), qtype_to_u16(qtype))
}

/// Joining: an entry in flight for the key makes the caller a follower of
/// it; otherwise the caller leads, under a fresh ticket, and the key is
/// in flight from then on.
pub open spec fn join_step(f: InFlightView, key: FlightKey) -> (InFlightView, Role) {
    match assoc_get(f.entries, key) {
        Some(t) => (f, Role::Follower(t)),
        None => (
            InFlightView {
                entries: f.entries.push((key, f.next_ticket)),
                next_ticket: (if f.next_ticket == u64::MAX { 0 } else { f.next_ticket + 1 }) as u64,
            },
            Role::Leader(f.next_ticket),
        ),
    }
}

/// Leaving: the key's entry, if there is one, is no longer in flight.
pub open spec fn leave_step(f: InFlightView, key: FlightKey) -> InFlightView {
    if assoc_has(f.entries, key) {
        InFlightView { entries: f.entries.remove(assoc_index(f.entries, key)), next_ticket: f.next_ticket }
    } else {
        f
    }
}

impl InFlight {
    pub open spec fn wf(&self) -> bool {
        keys_unique(self@.entries)
    }

    pub fn new() -> (f: InFlight)
        ensures
            f.wf(),
            f@.entries.len() == 0,
    {
        InFlight { entries: Vec::new(), next_ticket: 0 }
    }

    fn find(&self, name: &String, t: u16) -> (r: Option<usize>)
        requires
            self.wf(),
        ensures
            match r {
                Some(i) => i < self@.entries.len() && assoc_has(self@.entries, (name@, t))
                    && assoc_index(self@.entries, (name@, t)) == i as int,
                None => !assoc_has(self@.entries, (name@, t)),
            },
    {
        let mut i: usize = 0;
        while i < self.entries.len()
            invariant
                self.wf(),
                i <= self.entries@.len(),
                self@.entries.len() == self.entries@.len(),
                forall|k: int| 0 <= k < i ==> #[trigger] self@.entries[k].0 != (name@, t),
            decreases self.entries@.len() - i,
        {
            if self.entries[i].1 == t && self.entries[i].0 == *name {
                proof {
                    let s = self@.entries;
                    assert(s[i as int].0 == (name@, t));
                    let j = assoc_index(s, (name@, t));
                    assert(s[j].0 == (name@, t));
                }
                return Some(i);
            }
            i = i + 1;
        }
        None
    }

    /// Asks to resolve `name`/`qtype`: see `join_step`.
    pub fn join(&mut self, name: &str, qtype: QType) -> (r: Role)
        requires
            old(self).wf(),
        ensures
            final(self).wf(),
            (final(self)@, r) == join_step(old(self)@, flight_key(name@, qtype)),
    {
        let key = key_of(name);
        let t = qtype.to_u16();
        match self.find(&key, t) {
            Some(i) => Role::Follower(self.entries[i].2),
            None => {
                let ticket = self.next_ticket;
                let ghost before = self@.entries;
                self.entries.push((key, t, ticket));
                self.next_ticket = ticket.wrapping_add(1);
                assert(self@.entries =~= before.push(((name_key(name@), t), ticket)));
                proof {
                    assert forall|i: int, j: int|
                        0 <= i < self@.entries.len() && 0 <= j < self@.entries.len() && i != j implies #[trigger] self@.entries[i].0
                        != #[trigger] self@.entries[j].0 by {
                        if i < before.len() && j < before.len() {
                        } else if i < before.len() {
                            assert(before[i].0 != (name_key(name@), t));
                        } else {
                            assert(before[j].0 != (name_key(name@), t));
                        }
                    }
                }
                Role::Leader(ticket)
            },
        }
    }

    /// Marks `name`/`qtype` as no longer in flight: see `leave_step`.
    pub fn leave(&mut self, name: &str, qtype: QType)
        requires
            old(self).wf(),
        ensures
            final(self).wf(),
            final(self)@ == leave_step(old(self)@, flight_key(name@, qtype)),
    {
        let key = key_of(name);
        let t = qtype.to_u16();
        if let Some(i) = self.find(&key, t) {
            let ghost before = self@.entries;
            self.entries.remove(i);
            assert(self@.entries =~= before.remove(i as int));
            proof {
                let s = self@.entries;
                assert forall|a: int, b: int|
                    0 <= a < s.len() && 0 <= b < s.len() && a != b implies #[trigger] s[a].0
                    != #[trigger] s[b].0 by {
                    let a2 = if a < i { a } else { a + 1 };
                    let b2 = if b < i { b } else { b + 1 };
                    assert(s[a] == before[a2]);
                    assert(s[b] == before[b2]);
                }
            }
        }
    }
}

/// Concurrent identical lookups share one resolution: of two joins for the
/// same key with no leave between, the second follows the first's ticket
/// (and changes nothing); joining keeps every other key's entry as it was.
pub proof fn law_identical_joins_share(f: InFlightView, k: FlightKey, other: FlightKey)
    requires
        keys_unique(f.entries),
    ensures
        ({
            let (f1, r1) = join_step(f, k);
            let (f2, r2) = join_step(f1, k);
            &&& keys_unique(f1.entries)
            &&& (r1 matches Role::Leader(t) ==> r2 == Role::Follower(t))
            &&& (r1 matches Role::Follower(t) ==> r2 == Role::Follower(t))
            &&& f2 == f1
            &&& (other != k ==> assoc_get(f1.entries, other) == assoc_get(f.entries, other))
        }),
{
    let t = f.next_ticket;
    if !assoc_has(f.entries, k) {
        assert(assoc_put(f.entries, k, t) == f.entries.push((k, t)));
        lemma_assoc_put(f.entries, k, t, k);
        lemma_assoc_put(f.entries, k, t, other);
    }
}

/// Distinct names are not deduplicated against each other: whether a join
/// leads does not depend on a join for another key just before it.
pub proof fn law_distinct_keys_independent(f: InFlightView, k1: FlightKey, k2: FlightKey)
    requires
        keys_unique(f.entries),
        k1 != k2,
    ensures
        (join_step(join_step(f, k1).0, k2).1 is Leader) == (join_step(f, k2).1 is Leader),
{
    law_identical_joins_share(f, k1, k2);
}

/// Once the leader leaves, the next join for the key leads a new
/// resolution; other keys stay as they were.
pub proof fn law_leave_then_join_leads(f: InFlightView, k: FlightKey, other: FlightKey)
    requires
        keys_unique(f.entries),
    ensures
        join_step(leave_step(f, k), k).1 is Leader,
        other != k ==> assoc_get(leave_step(f, k).entries, other) == assoc_get(f.entries, other),
{
    if assoc_has(f.entries, k) {
        let i = assoc_index(f.entries, k);
        assert(f.entries[i].0 == k);
        let s = leave_step(f, k).entries;
        assert(s == f.entries.remove(i));
        if assoc_has(s, k) {
            let j = assoc_index(s, k);
            assert(s[j].0 == k);
            let j2 = if j < i { j } else { j + 1 };
            assert(s[j] == f.entries[j2]);
        }
        assert(!assoc_has(s, k));
        if other != k {
            if assoc_has(f.entries, other) {
                let a = assoc_index(f.entries, other);
                assert(f.entries[a].0 == other);
                let a2 = if a < i { a } else { a - 1 };
                assert(s[a2] == f.entries[a]);
                assert(assoc_has(s, other));
                let b = assoc_index(s, other);
                assert(s[b].0 == other);
                let b2 = if b < i { b } else { b + 1 };
                assert(s[b] == f.entries[b2]);
            } else {
                if assoc_has(s, other) {
                    let b = assoc_index(s, other);
                    assert(s[b].0 == other);
                    let b2 = if b < i { b } else { b + 1 };
                    assert(s[b] == f.entries[b2]);
                }
            }
        }
    }
}

} // verus!
