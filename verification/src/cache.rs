//! The resolver's cache: final answers (and negative answers) per name and
//! type, and the servers of zones it has been referred to, each kept until
//! its TTL runs out.
use vstd::prelude::*;
use vstd::utf8::encode_utf8;

use crate::message::compress::Labels;
use crate::message::compress::strings_view;
use crate::message::record_types::{trim_dots, Name};
use crate::message::{copy_records, qtype_to_u16, records_view, QType, Rcode, ResourceRecord, RrView};
use crate::client::ascii_lowercase;
use crate::net::ServerAddr;
use crate::resolver::{bytes_eq_ignore_ascii_case, eq_ignore_ascii_case};

verus! {

// ---------- Outside pieces: the clock and Unicode case mapping ----------

#[verifier::external_type_specification]
#[verifier::external_body]
pub struct ExInstant(std::time::Instant);

/// `Instant::now()`: the moment the cache's clock starts. Nothing is claimed
/// of it.
#[verifier::external_body]
fn instant_now() -> std::time::Instant {
    std::time::Instant::now()
}

/// `origin.elapsed()`: the time since the clock started. The reading
/// depends on the clock, so nothing is claimed of it.
#[verifier::external_body]
fn elapsed_since(origin: &std::time::Instant) -> core::time::Duration {
    origin.elapsed()
}

/// `d.as_millis()`, as a `u64`. Nothing is claimed of the value.
#[verifier::external_body]
fn whole_millis(d: core::time::Duration) -> u64 {
    d.as_millis() as u64
}

/// What `str::to_lowercase` makes of a text (Unicode lowercase mapping).
pub uninterp spec fn unicode_lowercase(s: Seq<char>) -> Seq<char>;

/// Every character is ASCII.
pub open spec fn is_ascii_text(s: Seq<char>) -> bool {
    forall|i: int| 0 <= i < s.len() ==> (s[i] as u32) < 128
}

/// `str::to_lowercase`: the text with each character mapped to lowercase by
/// Unicode's rules, under which the ASCII capitals 'A' to 'Z' become 'a' to
/// 'z' and every other ASCII character stays. Claimed: the result is
/// `unicode_lowercase` of the text, and for ASCII text it is that text with
/// its capitals made small.
#[verifier::external_body]
fn to_lowercase(s: &str) -> (r: String)
    ensures
        r@ == unicode_lowercase(s@),
        is_ascii_text(s@) ==> r@ == ascii_lowercase(s@),
{
    s.to_lowercase()
}

// ---------- Association lists ----------

pub open spec fn assoc_has<K, V>(s: Seq<(K, V)>, k: K) -> bool {
    exists|i: int| 0 <= i < s.len() && #[trigger] s[i].0 == k
}

pub open spec fn assoc_index<K, V>(s: Seq<(K, V)>, k: K) -> int {
    choose|i: int| 0 <= i < s.len() && #[trigger] s[i].0 == k
}

/// The value held for `k`.
pub open spec fn assoc_get<K, V>(s: Seq<(K, V)>, k: K) -> Option<V> {
    if assoc_has(s, k) {
        Some(s[assoc_index(s, k)].1)
    } else {
        None
    }
}

/// `s` with `v` held for `k`: the entry replaced where it is, or appended.
pub open spec fn assoc_put<K, V>(s: Seq<(K, V)>, k: K, v: V) -> Seq<(K, V)> {
    if assoc_has(s, k) {
        s.update(assoc_index(s, k), (k, v))
    } else {
        s.push((k, v))
    }
}

pub open spec fn keys_unique<K, V>(s: Seq<(K, V)>) -> bool {
    forall|i: int, j: int| 0 <= i < s.len() && 0 <= j < s.len() && i != j ==> #[trigger] s[i].0
        != #[trigger] s[j].0
}

/// What a put leaves: the new value under its key, the others as they were.
pub proof fn lemma_assoc_put<K, V>(s: Seq<(K, V)>, k: K, v: V, k2: K)
    requires
        keys_unique(s),
    ensures
        keys_unique(assoc_put(s, k, v)),
        assoc_get(assoc_put(s, k, v), k2) == if k2 == k {
            Some(v)
        } else {
            assoc_get(s, k2)
        },
{
    let t = assoc_put(s, k, v);
    if assoc_has(s, k) {
        let i = assoc_index(s, k);
        assert(t[i].0 == k);
        if k2 == k {
            assert(assoc_has(t, k2));
            assert(assoc_index(t, k2) == i);
        } else {
            if assoc_has(s, k2) {
                let j = assoc_index(s, k2);
                assert(t[j] == s[j]);
                assert(assoc_has(t, k2));
                assert(assoc_index(t, k2) == j);
            } else {
                assert(!assoc_has(t, k2));
            }
        }
    } else {
        assert(t[s.len() as int].0 == k);
        if k2 == k {
            assert(assoc_has(t, k2));
            assert(assoc_index(t, k2) == s.len());
        } else {
            if assoc_has(s, k2) {
                let j = assoc_index(s, k2);
                assert(t[j] == s[j]);
                assert(assoc_index(t, k2) == j);
            } else {
                assert(!assoc_has(t, k2));
            }
        }
    }
}

// ---------- Keys ----------

/// The key a name is filed under: without trailing dots, in lowercase (for
/// ASCII text, just its capitals made small).
pub open spec fn name_key(name: Seq<char>) -> Seq<char> {
    if is_ascii_text(trim_dots(name)) {
        ascii_lowercase(trim_dots(name))
    } else {
        unicode_lowercase(trim_dots(name))
    }
}

/// `name` without its trailing dots.
fn trim_trailing_dots(name: &str) -> (r: &str)
    ensures
        r@ == trim_dots(name@),
{
    let mut end = name.unicode_len();
    assert(name@.subrange(0, end as int) =~= name@);
    while end > 0 && name.get_char(end - 1) == '.'
        invariant
            end <= name@.len(),
            trim_dots(name@) == trim_dots(name@.subrange(0, end as int)),
        decreases end,
    {
        assert(name@.subrange(0, end as int).drop_last() =~= name@.subrange(0, end - 1));
        end = end - 1;
    }
    name.substring_char(0, end)
}

/// The key `name` is filed under.
pub fn key_of(name: &str) -> (k: String)
    ensures
        k@ == name_key(name@),
{
    to_lowercase(trim_trailing_dots(name))
}

// ---------- The cache ----------

pub enum CacheHit {
    Positive(Vec<ResourceRecord>),
    Negative(Rcode),
}

pub enum HitView {
    Positive(Seq<RrView>),
    Negative(Rcode),
}

impl View for CacheHit {
    type V = HitView;

    open spec fn view(&self) -> HitView {
        match self {
            CacheHit::Positive(v) => HitView::Positive(records_view(v@)),
            CacheHit::Negative(r) => HitView::Negative(*r),
        }
    }
}

struct PositiveEntry {
    name: String,
    qtype: u16,
    records: Vec<ResourceRecord>,
    expires_at: u64,
}

struct NegativeEntry {
    name: String,
    qtype: u16,
    rcode: Rcode,
    expires_at: u64,
}

struct ZoneEntry {
    zone: String,
    servers: Vec<ServerAddr>,
    expires_at: u64,
}

/// Two layers, mirroring what a real resolver keeps:
/// - `answers`/`negative`: the final RRset (or NXDOMAIN/NoData) for a name+type.
/// - `zones`: which servers are authoritative for a zone we've already been
///   referred to, so a later query under that zone doesn't have to restart at
///   the root.
/// Times are milliseconds on the cache's own clock.
pub struct Cache {
    origin: std::time::Instant,
    answers: Vec<PositiveEntry>,
    negative: Vec<NegativeEntry>,
    zones: Vec<ZoneEntry>,
}

pub type AnswerKey = (Seq<char>, u16);

pub struct CacheView {
    pub answers: Seq<(AnswerKey, (Seq<RrView>, u64))>,
    pub negative: Seq<(AnswerKey, (Rcode, u64))>,
    pub zones: Seq<(Seq<char>, (Seq<ServerAddr>, u64))>,
}

impl View for Cache {
    type V = CacheView;

    closed spec fn view(&self) -> CacheView {
        CacheView {
            answers: self.answers@.map_values(
                |e: PositiveEntry| ((e.name@, e.qtype), (records_view(e.records@), e.expires_at)),
            ),
            negative: self.negative@.map_values(
                |e: NegativeEntry| ((e.name@, e.qtype), (e.rcode, e.expires_at)),
            ),
            zones: self.zones@.map_values(|e: ZoneEntry| (e.zone@, (e.servers@, e.expires_at))),
        }
    }
}

/// When an entry stored at `now` for `ttl_secs` seconds runs out (the sum
/// stops at `u64::MAX`).
pub open spec fn expiry(now: u64, ttl_secs: u32) -> u64 {
    if now + ttl_secs * 1000 <= u64::MAX {
        (now + ttl_secs * 1000) as u64
    } else {
        u64::MAX
    }
}

fn expiry_of(now: u64, ttl_secs: u32) -> (e: u64)
    ensures
        e == expiry(now, ttl_secs),
{
    now.saturating_add((ttl_secs as u64) * 1000)
}

/// The smallest TTL in a non-empty RRset.
pub open spec fn min_ttl(rs: Seq<RrView>) -> u32
    decreases rs.len(),
{
    if rs.len() <= 1 {
        rs[0].ttl
    } else {
        let m = min_ttl(rs.drop_last());
        if rs.last().ttl < m {
            rs.last().ttl
        } else {
            m
        }
    }
}

/// The positive entry under `key`, if it is still alive at `now`.
pub open spec fn live_positive(c: CacheView, key: AnswerKey, now: u64) -> Option<Seq<RrView>> {
    match assoc_get(c.answers, key) {
        Some((rs, exp)) if exp > now => Some(rs),
        _ => None,
    }
}

/// The negative entry under `key`, if it is still alive at `now`.
pub open spec fn live_negative(c: CacheView, key: AnswerKey, now: u64) -> Option<Rcode> {
    match assoc_get(c.negative, key) {
        Some((rc, exp)) if exp > now => Some(rc),
        _ => None,
    }
}

/// What the cache holds for a key at `now`: a live positive entry first,
/// else a live negative entry.
pub open spec fn lookup(c: CacheView, key: AnswerKey, now: u64) -> Option<HitView> {
    match live_positive(c, key, now) {
        Some(rs) => Some(HitView::Positive(rs)),
        None => match live_negative(c, key, now) {
            Some(rc) => Some(HitView::Negative(rc)),
            None => None,
        },
    }
}

impl Cache {
    pub open spec fn wf(&self) -> bool {
        &&& keys_unique(self@.answers)
        &&& keys_unique(self@.negative)
        &&& keys_unique(self@.zones)
    }

    pub fn new() -> (c: Cache)
        ensures
            c.wf(),
            c@.answers.len() == 0,
            c@.negative.len() == 0,
            c@.zones.len() == 0,
    {
        Cache {
            origin: instant_now(),
            answers: Vec::new(),
            negative: Vec::new(),
            zones: Vec::new(),
        }
    }

    /// Milliseconds on the cache's clock. Nothing is claimed of the reading.
    pub fn now(&self) -> u64 {
        whole_millis(elapsed_since(&self.origin))
    }

    fn find_answer(&self, key: &String, t: u16) -> (r: Option<usize>)
        requires
            self.wf(),
        ensures
            match r {
                Some(i) => i < self@.answers.len() && assoc_has(self@.answers, (key@, t))
                    && assoc_index(self@.answers, (key@, t)) == i as int,
                None => !assoc_has(self@.answers, (key@, t)),
            },
    {
        let mut i: usize = 0;
        while i < self.answers.len()
            invariant
                self.wf(),
                i <= self.answers@.len(),
                self@.answers.len() == self.answers@.len(),
                forall|k: int| 0 <= k < i ==> #[trigger] self@.answers[k].0 != (key@, t),
            decreases self.answers@.len() - i,
        {
            if self.answers[i].qtype == t && self.answers[i].name == *key {
                proof {
                    let s = self@.answers;
                    assert(s[i as int].0 == (key@, t));
                    let j = assoc_index(s, (key@, t));
                    assert(s[j].0 == (key@, t));
                }
                return Some(i);
            }
            i = i + 1;
        }
        None
    }

    fn find_negative(&self, key: &String, t: u16) -> (r: Option<usize>)
        requires
            self.wf(),
        ensures
            match r {
                Some(i) => i < self@.negative.len() && assoc_has(self@.negative, (key@, t))
                    && assoc_index(self@.negative, (key@, t)) == i as int,
                None => !assoc_has(self@.negative, (key@, t)),
            },
    {
        let mut i: usize = 0;
        while i < self.negative.len()
            invariant
                self.wf(),
                i <= self.negative@.len(),
                self@.negative.len() == self.negative@.len(),
                forall|k: int| 0 <= k < i ==> #[trigger] self@.negative[k].0 != (key@, t),
            decreases self.negative@.len() - i,
        {
            if self.negative[i].qtype == t && self.negative[i].name == *key {
                proof {
                    let s = self@.negative;
                    assert(s[i as int].0 == (key@, t));
                    let j = assoc_index(s, (key@, t));
                    assert(s[j].0 == (key@, t));
                }
                return Some(i);
            }
            i = i + 1;
        }
        None
    }

    /// What the cache holds for `name`/`qtype` at time `now`.
    pub fn get_answer_at(&self, name: &str, qtype: QType, now: u64) -> (r: Option<CacheHit>)
        requires
            self.wf(),
        ensures
            match lookup(self@, (name_key(name@), qtype_to_u16(qtype)), now) {
                Some(h) => r matches Some(hit) && hit@ == h,
                None => r is None,
            },
    {
        let key = key_of(name);
        let t = qtype.to_u16();
        if let Some(i) = self.find_answer(&key, t) {
            let entry = &self.answers[i];
            if entry.expires_at > now {
                return Some(CacheHit::Positive(copy_records(entry.records.as_slice())));
            }
        }
        if let Some(i) = self.find_negative(&key, t) {
            let entry = &self.negative[i];
            if entry.expires_at > now {
                return Some(CacheHit::Negative(entry.rcode));
            }
        }
        None
    }

    /// What the cache holds for `name`/`qtype` now, by the cache's clock:
    /// what `get_answer_at` gives at some reading of that clock.
    pub fn get_answer(&self, name: &str, qtype: QType) -> (r: Option<CacheHit>)
        requires
            self.wf(),
        ensures
            exists|now: u64| #[trigger]
                hit_is(r, lookup(self@, (name_key(name@), qtype_to_u16(qtype)), now)),
    {
        let now = self.now();
        let r = self.get_answer_at(name, qtype, now);
        assert(hit_is(r, lookup(self@, (name_key(name@), qtype_to_u16(qtype)), now)));
        r
    }

    /// Files `records` as the answer for `name`/`qtype` at time `now`, to
    /// live for the smallest TTL among them. An empty RRset is not filed.
    pub fn put_answer_at(&mut self, name: &str, qtype: QType, records: &[ResourceRecord], now: u64)
        requires
            old(self).wf(),
        ensures
            final(self).wf(),
            records@.len() == 0 ==> final(self)@ == old(self)@,
            records@.len() > 0 ==> final(self)@ == with_answer(
                old(self)@,
                (name_key(name@), qtype_to_u16(qtype)),
                records_view(records@),
                now,
            ),
    {
        if records.len() == 0 {
            return;
        }
        let ttl = min_ttl_of(records);
        let entry = PositiveEntry {
            name: key_of(name),
            qtype: qtype.to_u16(),
            records: copy_records(records),
            expires_at: expiry_of(now, ttl),
        };
        let ghost key = (entry.name@, entry.qtype);
        let ghost val = (records_view(records@), expiry(now, ttl));
        let ghost old_answers = self@.answers;
        proof {
            lemma_assoc_put(old_answers, key, val, key);
        }
        match self.find_answer(&entry.name, entry.qtype) {
            Some(i) => {
                self.answers[i] = entry;
                assert(self@.answers =~= assoc_put(old_answers, key, val));
            },
            None => {
                self.answers.push(entry);
                assert(self@.answers =~= assoc_put(old_answers, key, val));
            },
        }
        assert(keys_unique(self@.answers));
    }

    /// Files a negative answer (`rcode`) for `name`/`qtype` at time `now`, to
    /// live `ttl_secs` seconds.
    pub fn put_negative_at(&mut self, name: &str, qtype: QType, rcode: Rcode, ttl_secs: u32, now: u64)
        requires
            old(self).wf(),
        ensures
            final(self).wf(),
            final(self)@ == with_negative(
                old(self)@,
                (name_key(name@), qtype_to_u16(qtype)),
                rcode,
                ttl_secs,
                now,
            ),
    {
        let entry = NegativeEntry {
            name: key_of(name),
            qtype: qtype.to_u16(),
            rcode,
            expires_at: expiry_of(now, ttl_secs),
        };
        let ghost key = (entry.name@, entry.qtype);
        let ghost val = (rcode, expiry(now, ttl_secs));
        let ghost old_negative = self@.negative;
        proof {
            lemma_assoc_put(old_negative, key, val, key);
        }
        match self.find_negative(&entry.name, entry.qtype) {
            Some(i) => {
                self.negative[i] = entry;
                assert(self@.negative =~= assoc_put(old_negative, key, val));
            },
            None => {
                self.negative.push(entry);
                assert(self@.negative =~= assoc_put(old_negative, key, val));
            },
        }
    }
}

/// `r` is what the cache answers when its contents give `h`.
pub open spec fn hit_is(r: Option<CacheHit>, h: Option<HitView>) -> bool {
    match h {
        Some(v) => r matches Some(hit) && hit@ == v,
        None => r is None,
    }
}

/// The cache after an RRset `rs` is filed under `key` at `now`.
pub open spec fn with_answer(c: CacheView, key: AnswerKey, rs: Seq<RrView>, now: u64) -> CacheView {
    CacheView {
        answers: assoc_put(c.answers, key, (rs, expiry(now, min_ttl(rs)))),
        negative: c.negative,
        zones: c.zones,
    }
}

/// The cache after a negative answer is filed under `key` at `now`.
pub open spec fn with_negative(c: CacheView, key: AnswerKey, rcode: Rcode, ttl_secs: u32, now: u64) -> CacheView {
    CacheView {
        answers: c.answers,
        negative: assoc_put(c.negative, key, (rcode, expiry(now, ttl_secs))),
        zones: c.zones,
    }
}

/// The smallest TTL among `records` (which are not empty).
fn min_ttl_of(records: &[ResourceRecord]) -> (m: u32)
    requires
        records@.len() > 0,
    ensures
        m == min_ttl(records_view(records@)),
{
    let ghost rs = records_view(records@);
    let mut m: u32 = records[0].ttl;
    let mut i: usize = 1;
    assert(rs.take(1).len() == 1);
    while i < records.len()
        invariant
            1 <= i <= records@.len(),
            rs == records_view(records@),
            m == min_ttl(rs.take(i as int)),
        decreases records@.len() - i,
    {
        assert(rs.take(i + 1).drop_last() =~= rs.take(i as int));
        assert(rs.take(i + 1).last() == records@[i as int]@);
        if records[i].ttl < m {
            m = records[i].ttl;
        }
        i = i + 1;
    }
    assert(rs.take(records@.len() as int) =~= rs);
    m
}

// ---------- Zones ----------

/// The labels of a zone key: its text split at each dot, with the empty
/// pieces left out (so trailing dots and doubled dots add nothing).
pub open spec fn zone_labels(z: Seq<char>) -> Labels {
    keep_nonempty(Name::from_str_spec(z))
}

/// The labels that are not empty, in order.
pub open spec fn keep_nonempty(ls: Labels) -> Labels
    decreases ls.len(),
{
    if ls.len() == 0 {
        ls
    } else if ls.last().len() > 0 {
        keep_nonempty(ls.drop_last()).push(ls.last())
    } else {
        keep_nonempty(ls.drop_last())
    }
}

/// Two labels whose UTF-8 bytes are equal up to ASCII case.
pub open spec fn label_eq_ci(a: Seq<char>, b: Seq<char>) -> bool {
    eq_ignore_ascii_case(encode_utf8(a), encode_utf8(b))
}

/// The zone's labels are the last labels of the query name, up to ASCII case.
pub open spec fn zone_matches(zl: Labels, ql: Labels) -> bool {
    &&& zl.len() <= ql.len()
    &&& forall|j: int| 0 <= j < zl.len() ==> label_eq_ci(#[trigger] zl[j], ql[ql.len() - zl.len() + j])
}

/// Each label lowercased as `str::to_lowercase` does.
pub open spec fn lower_labels(ls: Labels) -> Labels {
    ls.map_values(|l: Seq<char>| unicode_lowercase(l))
}

pub type ZoneRow = (Seq<char>, (Seq<ServerAddr>, u64));

/// A zone entry that is still alive at `now` and encloses the query name.
pub open spec fn zone_live_match(e: ZoneRow, ql: Labels, now: u64) -> bool {
    e.1.1 > now && zone_matches(zone_labels(e.0), ql)
}

/// Among the live zones enclosing the query name, the first (in the cache's
/// order) with the most labels: its label count and its servers.
pub open spec fn best_zone(zs: Seq<ZoneRow>, ql: Labels, now: u64) -> Option<(nat, Seq<ServerAddr>)>
    decreases zs.len(),
{
    if zs.len() == 0 {
        None
    } else {
        let b = best_zone(zs.drop_last(), ql, now);
        let e = zs.last();
        if zone_live_match(e, ql, now) {
            let n = zone_labels(e.0).len();
            match b {
                Some((m, _)) if n <= m => b,
                _ => Some((n, e.1.0)),
            }
        } else {
            b
        }
    }
}

/// The cache after `servers` are filed for the zone with key `zone` at `now`.
pub open spec fn with_zone(c: CacheView, zone: Seq<char>, servers: Seq<ServerAddr>, ttl_secs: u32, now: u64) -> CacheView {
    CacheView {
        answers: c.answers,
        negative: c.negative,
        zones: assoc_put(c.zones, zone, (servers, expiry(now, ttl_secs))),
    }
}

/// The labels of a zone key.
fn zone_labels_of(z: &str) -> (r: Vec<String>)
    ensures
        strings_view(r@) == zone_labels(z@),
{
    let n = Name::from_str(z);
    let ghost ls = n@;
    let mut r: Vec<String> = Vec::new();
    let mut i: usize = 0;
    assert(ls.take(0) =~= Seq::<Seq<char>>::empty());
    while i < n.0.len()
        invariant
            i <= n.0@.len(),
            ls == n@,
            ls.len() == n.0@.len(),
            strings_view(r@) == keep_nonempty(ls.take(i as int)),
        decreases n.0@.len() - i,
    {
        assert(ls.take(i + 1).drop_last() =~= ls.take(i as int));
        assert(ls.take(i + 1).last() == ls[i as int]);
        assert(ls[i as int] == n.0@[i as int]@);
        let ghost before = r@;
        if !n.0[i].as_str().is_empty() {
            r.push(n.0[i].clone());
            assert(strings_view(r@) =~= strings_view(before).push(n.0@[i as int]@));
        }
        i = i + 1;
    }
    assert(ls.take(n.0@.len() as int) =~= ls);
    r
}

/// Whether the zone labels `zl` end the query labels `ql`, up to ASCII case.
fn zone_is_suffix(zl: &[String], ql: &[String]) -> (r: bool)
    ensures
        r == zone_matches(strings_view(zl@), strings_view(ql@)),
{
    if zl.len() > ql.len() {
        return false;
    }
    let qlen = ql.len();
    let off = qlen - zl.len();
    let mut j: usize = 0;
    while j < zl.len()
        invariant
            qlen == ql@.len(),
            j <= zl@.len(),
            zl@.len() <= ql@.len(),
            off == ql@.len() - zl@.len(),
            forall|k: int| 0 <= k < j ==> label_eq_ci(
                #[trigger] strings_view(zl@)[k],
                strings_view(ql@)[ql@.len() - zl@.len() + k],
            ),
        decreases zl@.len() - j,
    {
        let same = bytes_eq_ignore_ascii_case(zl[j].as_str().as_bytes(), ql[off + j].as_str().as_bytes());
        if !same {
            assert(!label_eq_ci(strings_view(zl@)[j as int], strings_view(ql@)[off + j]));
            return false;
        }
        j = j + 1;
    }
    true
}

/// A copy of a server list.
fn copy_servers(v: &[ServerAddr]) -> (r: Vec<ServerAddr>)
    ensures
        r@ == v@,
{
    let mut r: Vec<ServerAddr> = Vec::new();
    let mut i: usize = 0;
    while i < v.len()
        invariant
            i <= v@.len(),
            r@ == v@.take(i as int),
        decreases v@.len() - i,
    {
        r.push(v[i]);
        assert(v@.take(i + 1) =~= v@.take(i as int).push(v@[i as int]));
        i = i + 1;
    }
    assert(v@.take(v@.len() as int) =~= v@);
    r
}

/// The labels of a name, each lowercased.
fn lowercase_labels(name: &Name) -> (r: Vec<String>)
    ensures
        strings_view(r@) == lower_labels(name@),
{
    let mut r: Vec<String> = Vec::new();
    let mut i: usize = 0;
    while i < name.0.len()
        invariant
            i <= name.0@.len(),
            r@.len() == i,
            forall|k: int| 0 <= k < i ==> (#[trigger] r@[k])@ == unicode_lowercase(name.0@[k]@),
        decreases name.0@.len() - i,
    {
        r.push(to_lowercase(name.0[i].as_str()));
        i = i + 1;
    }
    assert(strings_view(r@) =~= lower_labels(name@));
    r
}

impl Cache {
    fn find_zone(&self, key: &String) -> (r: Option<usize>)
        requires
            self.wf(),
        ensures
            match r {
                Some(i) => i < self@.zones.len() && assoc_has(self@.zones, key@)
                    && assoc_index(self@.zones, key@) == i as int,
                None => !assoc_has(self@.zones, key@),
            },
    {
        let mut i: usize = 0;
        while i < self.zones.len()
            invariant
                self.wf(),
                i <= self.zones@.len(),
                self@.zones.len() == self.zones@.len(),
                forall|k: int| 0 <= k < i ==> #[trigger] self@.zones[k].0 != key@,
            decreases self.zones@.len() - i,
        {
            if self.zones[i].zone == *key {
                proof {
                    let s = self@.zones;
                    assert(s[i as int].0 == key@);
                    let j = assoc_index(s, key@);
                    assert(s[j].0 == key@);
                }
                return Some(i);
            }
            i = i + 1;
        }
        None
    }

    /// Files `servers` for the zone `zone_name` at time `now`, to live
    /// `ttl_secs` seconds. An empty list is not filed.
    pub fn put_zone_at(&mut self, zone_name: &str, servers: Vec<ServerAddr>, ttl_secs: u32, now: u64)
        requires
            old(self).wf(),
        ensures
            final(self).wf(),
            servers@.len() == 0 ==> final(self)@ == old(self)@,
            servers@.len() > 0 ==> final(self)@ == with_zone(
                old(self)@,
                name_key(zone_name@),
                servers@,
                ttl_secs,
                now,
            ),
    {
        if servers.len() == 0 {
            return;
        }
        let entry = ZoneEntry {
            zone: key_of(zone_name),
            servers,
            expires_at: expiry_of(now, ttl_secs),
        };
        let ghost key = entry.zone@;
        let ghost val = (entry.servers@, expiry(now, ttl_secs));
        let ghost old_zones = self@.zones;
        proof {
            lemma_assoc_put(old_zones, key, val, key);
        }
        let found = self.find_zone(&entry.zone);
        match found {
            Some(i) => {
                self.zones[i] = entry;
                assert(self@.zones =~= assoc_put(old_zones, key, val));
            },
            None => {
                self.zones.push(entry);
                assert(self@.zones =~= assoc_put(old_zones, key, val));
            },
        }
    }

    /// The servers of the most specific zone still alive at `now` that
    /// encloses `qname`, e.g. for "www.example.com" a cached "example.com"
    /// over a cached "com"; `None` when no such zone is cached.
    pub fn best_zone_servers_at(&self, qname: &Name, now: u64) -> (r: Option<Vec<ServerAddr>>)
        ensures
            match best_zone(self@.zones, lower_labels(qname@), now) {
                Some((_, s)) => r matches Some(v) && v@ == s,
                None => r is None,
            },
    {
        let qlabels = lowercase_labels(qname);
        let ghost ql = lower_labels(qname@);
        let ghost zs = self@.zones;
        let mut best: Option<(usize, Vec<ServerAddr>)> = None;
        let mut i: usize = 0;
        while i < self.zones.len()
            invariant
                i <= self.zones@.len(),
                zs == self@.zones,
                zs.len() == self.zones@.len(),
                strings_view(qlabels@) == ql,
                match best_zone(zs.take(i as int), ql, now) {
                    Some((n, s)) => best matches Some(b) && b.0 == n && b.1@ == s,
                    None => best is None,
                },
            decreases self.zones@.len() - i,
        {
            let entry = &self.zones[i];
            assert(zs.take(i + 1).drop_last() =~= zs.take(i as int));
            assert(zs.take(i + 1).last() == zs[i as int]);
            if entry.expires_at > now {
                let zlabels = zone_labels_of(entry.zone.as_str());
                if zone_is_suffix(zlabels.as_slice(), qlabels.as_slice()) {
                    let n = zlabels.len();
                    let better = match &best {
                        Some(b) => n > b.0,
                        None => true,
                    };
                    if better {
                        best = Some((n, copy_servers(entry.servers.as_slice())));
                    }
                }
            }
            i = i + 1;
        }
        assert(zs.take(self.zones@.len() as int) =~= zs);
        match best {
            Some(b) => Some(b.1),
            None => None,
        }
    }
}

impl Cache {
    /// Files an answer now, by the cache's clock (see `put_answer_at`).
    pub fn put_answer(&mut self, name: &str, qtype: QType, records: &[ResourceRecord])
        requires
            old(self).wf(),
        ensures
            final(self).wf(),
            records@.len() == 0 ==> final(self)@ == old(self)@,
            records@.len() > 0 ==> exists|now: u64|
                final(self)@ == #[trigger] with_answer(
                    old(self)@,
                    (name_key(name@), qtype_to_u16(qtype)),
                    records_view(records@),
                    now,
                ),
    {
        let now = self.now();
        self.put_answer_at(name, qtype, records, now);
    }

    /// Files a negative answer now, by the cache's clock (see `put_negative_at`).
    pub fn put_negative(&mut self, name: &str, qtype: QType, rcode: Rcode, ttl_secs: u32)
        requires
            old(self).wf(),
        ensures
            final(self).wf(),
            exists|now: u64|
                final(self)@ == #[trigger] with_negative(
                    old(self)@,
                    (name_key(name@), qtype_to_u16(qtype)),
                    rcode,
                    ttl_secs,
                    now,
                ),
    {
        let now = self.now();
        self.put_negative_at(name, qtype, rcode, ttl_secs, now);
    }

    /// Files a zone's servers now, by the cache's clock (see `put_zone_at`).
    pub fn put_zone(&mut self, zone_name: &str, servers: Vec<ServerAddr>, ttl_secs: u32)
        requires
            old(self).wf(),
        ensures
            final(self).wf(),
            servers@.len() == 0 ==> final(self)@ == old(self)@,
            servers@.len() > 0 ==> exists|now: u64|
                final(self)@ == #[trigger] with_zone(
                    old(self)@,
                    name_key(zone_name@),
                    servers@,
                    ttl_secs,
                    now,
                ),
    {
        let now = self.now();
        self.put_zone_at(zone_name, servers, ttl_secs, now);
    }

    /// The servers of the most specific live zone enclosing `qname` now, by
    /// the cache's clock (see `best_zone_servers_at`).
    pub fn best_zone_servers(&self, qname: &Name) -> (r: Option<Vec<ServerAddr>>)
        ensures
            exists|now: u64| #[trigger] zone_result_is(r, best_zone(self@.zones, lower_labels(qname@), now)),
    {
        let now = self.now();
        let r = self.best_zone_servers_at(qname, now);
        assert(zone_result_is(r, best_zone(self@.zones, lower_labels(qname@), now)));
        r
    }
}

/// `r` is the server list of the zone `b` picks, or `None` when it picks none.
pub open spec fn zone_result_is(r: Option<Vec<ServerAddr>>, b: Option<(nat, Seq<ServerAddr>)>) -> bool {
    match b {
        Some((_, s)) => r matches Some(v) && v@ == s,
        None => r is None,
    }
}

// ---------- Laws ----------

/// An answer filed at `t` is what a lookup of its key gives until it expires
/// (the smallest TTL of the RRset, in seconds, after `t`); after that the
/// lookup falls back to whatever negative entry was there. Other keys are
/// not touched.
pub proof fn law_answer_then_lookup(c: CacheView, key: AnswerKey, rs: Seq<RrView>, t: u64, key2: AnswerKey, now: u64)
    requires
        keys_unique(c.answers),
        rs.len() > 0,
    ensures
        now < expiry(t, min_ttl(rs)) ==> lookup(with_answer(c, key, rs, t), key, now) == Some(HitView::Positive(rs)),
        now >= expiry(t, min_ttl(rs)) ==> lookup(with_answer(c, key, rs, t), key, now) == match live_negative(c, key, now) {
            Some(rc) => Some(HitView::Negative(rc)),
            None => None,
        },
        key2 != key ==> lookup(with_answer(c, key, rs, t), key2, now) == lookup(c, key2, now),
{
    lemma_assoc_put(c.answers, key, (rs, expiry(t, min_ttl(rs))), key);
    lemma_assoc_put(c.answers, key, (rs, expiry(t, min_ttl(rs))), key2);
}

/// A negative answer filed at `t` is what a lookup of its key gives until
/// its TTL runs out, unless a live positive answer for the key is there,
/// which comes first. Other keys are not touched.
pub proof fn law_negative_then_lookup(
    c: CacheView,
    key: AnswerKey,
    rcode: Rcode,
    ttl_secs: u32,
    t: u64,
    key2: AnswerKey,
    now: u64,
)
    requires
        keys_unique(c.negative),
    ensures
        live_positive(c, key, now) is None && now < expiry(t, ttl_secs) ==> lookup(
            with_negative(c, key, rcode, ttl_secs, t),
            key,
            now,
        ) == Some(HitView::Negative(rcode)),
        live_positive(c, key, now) is None && now >= expiry(t, ttl_secs) ==> lookup(
            with_negative(c, key, rcode, ttl_secs, t),
            key,
            now,
        ) is None,
        live_positive(c, key, now) matches Some(rs) ==> lookup(
            with_negative(c, key, rcode, ttl_secs, t),
            key,
            now,
        ) == Some(HitView::Positive(rs)),
        key2 != key ==> lookup(with_negative(c, key, rcode, ttl_secs, t), key2, now) == lookup(c, key2, now),
{
    lemma_assoc_put(c.negative, key, (rcode, expiry(t, ttl_secs)), key);
    lemma_assoc_put(c.negative, key, (rcode, expiry(t, ttl_secs)), key2);
}

/// The zone picked for a query name is a live zone that encloses it, and no
/// live zone enclosing it has more labels; none is picked only when no live
/// zone encloses it.
pub proof fn law_most_specific_zone(zs: Seq<ZoneRow>, ql: Labels, now: u64)
    ensures
        match best_zone(zs, ql, now) {
            Some((n, s)) => {
                &&& exists|i: int|
                    0 <= i < zs.len() && #[trigger] zone_live_match(zs[i], ql, now) && zs[i].1.0 == s
                        && zone_labels(zs[i].0).len() == n
                &&& forall|j: int|
                    0 <= j < zs.len() && #[trigger] zone_live_match(zs[j], ql, now) ==> zone_labels(
                        zs[j].0,
                    ).len() <= n
            },
            None => forall|j: int| 0 <= j < zs.len() ==> !#[trigger] zone_live_match(zs[j], ql, now),
        },
    decreases zs.len(),
{
    if zs.len() > 0 {
        let init = zs.drop_last();
        law_most_specific_zone(init, ql, now);
        let last = zs.len() - 1;
        assert(zs[last] == zs.last());
        assert forall|j: int| 0 <= j < last implies zs[j] == #[trigger] init[j] by {}
        match best_zone(init, ql, now) {
            Some((m, sm)) => {
                let i = choose|i: int|
                    0 <= i < init.len() && #[trigger] zone_live_match(init[i], ql, now) && init[i].1.0 == sm
                        && zone_labels(init[i].0).len() == m;
                assert(zs[i] == init[i]);
                if zone_live_match(zs.last(), ql, now) && zone_labels(zs.last().0).len() > m {
                    assert(zone_live_match(zs[last], ql, now));
                    assert forall|j: int|
                        0 <= j < zs.len() && #[trigger] zone_live_match(zs[j], ql, now) implies zone_labels(
                        zs[j].0,
                    ).len() <= zone_labels(zs.last().0).len() by {
                        if j < last {
                            assert(zone_live_match(init[j], ql, now));
                        }
                    }
                } else {
                    assert(zone_live_match(zs[i], ql, now));
                    assert forall|j: int|
                        0 <= j < zs.len() && #[trigger] zone_live_match(zs[j], ql, now) implies zone_labels(
                        zs[j].0,
                    ).len() <= m by {
                        if j < last {
                            assert(zone_live_match(init[j], ql, now));
                        }
                    }
                }
            },
            None => {
                if zone_live_match(zs.last(), ql, now) {
                    assert(zone_live_match(zs[last], ql, now));
                    assert forall|j: int|
                        0 <= j < zs.len() && #[trigger] zone_live_match(zs[j], ql, now) implies zone_labels(
                        zs[j].0,
                    ).len() <= zone_labels(zs.last().0).len() by {
                        if j < last {
                            assert(zone_live_match(init[j], ql, now));
                        }
                    }
                } else {
                    assert forall|j: int| 0 <= j < zs.len() implies !#[trigger] zone_live_match(zs[j], ql, now) by {
                        if j < last {
                            assert(!zone_live_match(init[j], ql, now));
                        }
                    }
                }
            },
        }
    }
}

/// Once a zone is filed, until it expires every name it encloses gets a
/// zone at least as specific as it.
pub proof fn law_filed_zone_is_used(
    c: CacheView,
    zone: Seq<char>,
    servers: Seq<ServerAddr>,
    ttl_secs: u32,
    t: u64,
    ql: Labels,
    now: u64,
)
    requires
        keys_unique(c.zones),
        zone_matches(zone_labels(zone), ql),
        now < expiry(t, ttl_secs),
    ensures
        best_zone(with_zone(c, zone, servers, ttl_secs, t).zones, ql, now) matches Some((n, _)) && n
            >= zone_labels(zone).len(),
{
    let zs = with_zone(c, zone, servers, ttl_secs, t).zones;
    lemma_assoc_put(c.zones, zone, (servers, expiry(t, ttl_secs)), zone);
    let i = assoc_index(zs, zone);
    assert(zs[i].0 == zone);
    assert(zs[i].1 == (servers, expiry(t, ttl_secs)));
    assert(zone_live_match(zs[i], ql, now));
    law_most_specific_zone(zs, ql, now);
}

/// A trailing dot does not change the key a name is filed under.
pub proof fn law_key_ignores_trailing_dot(name: Seq<char>)
    ensures
        name_key(name.push('.')) == name_key(name),
{
    assert(name.push('.').drop_last() =~= name);
}

proof fn lemma_trim_dots_prefix(s: Seq<char>)
    ensures
        trim_dots(s).len() <= s.len(),
        forall|i: int| 0 <= i < trim_dots(s).len() ==> trim_dots(s)[i] == s[i],
    decreases s.len(),
{
    if s.len() > 0 && s.last() == '.' {
        let d = s.drop_last();
        lemma_trim_dots_prefix(d);
        assert(trim_dots(s) == trim_dots(d));
        assert forall|i: int| 0 <= i < trim_dots(s).len() implies trim_dots(s)[i] == s[i] by {
            assert(trim_dots(d)[i] == d[i]);
            assert(d[i] == s[i]);
        }
    }
}

/// For names written in ASCII, the key ignores ASCII case and nothing
/// else: two such names share a key exactly when, without their trailing
/// dots, they are equal once their capitals are made small.
pub proof fn law_ascii_keys_ignore_case(a: Seq<char>, b: Seq<char>)
    requires
        is_ascii_text(a),
        is_ascii_text(b),
    ensures
        name_key(a) == ascii_lowercase(trim_dots(a)),
        (name_key(a) == name_key(b)) == (ascii_lowercase(trim_dots(a)) == ascii_lowercase(
            trim_dots(b),
        )),
{
    lemma_trim_dots_prefix(a);
    lemma_trim_dots_prefix(b);
    assert forall|i: int| 0 <= i < trim_dots(a).len() implies (trim_dots(a)[i] as u32) < 128 by {
        assert(trim_dots(a)[i] == a[i]);
    }
    assert forall|i: int| 0 <= i < trim_dots(b).len() implies (trim_dots(b)[i] as u32) < 128 by {
        assert(trim_dots(b)[i] == b[i]);
    }
}

/// The TTL an RRset is filed for is the smallest of its members' TTLs: no
/// member's TTL is smaller, and some member's TTL is exactly that.
pub proof fn law_rrset_ttl_is_smallest(rs: Seq<RrView>)
    requires
        rs.len() > 0,
    ensures
        forall|i: int| 0 <= i < rs.len() ==> min_ttl(rs) <= #[trigger] rs[i].ttl,
        exists|i: int| 0 <= i < rs.len() && min_ttl(rs) == #[trigger] rs[i].ttl,
    decreases rs.len(),
{
    if rs.len() == 1 {
        assert(min_ttl(rs) == rs[0].ttl);
    } else {
        let d = rs.drop_last();
        law_rrset_ttl_is_smallest(d);
        assert forall|i: int| 0 <= i < rs.len() implies min_ttl(rs) <= #[trigger] rs[i].ttl by {
            if i < rs.len() - 1 {
                assert(rs[i] == d[i]);
                assert(min_ttl(d) <= d[i].ttl);
            }
        }
        if rs.last().ttl < min_ttl(d) {
            assert(min_ttl(rs) == rs[rs.len() - 1].ttl);
        } else {
            let j = choose|j: int| 0 <= j < d.len() && min_ttl(d) == #[trigger] d[j].ttl;
            assert(rs[j] == d[j]);
            assert(min_ttl(rs) == rs[j].ttl);
        }
    }
}

/// TTLs are seconds and the cache's clock counts milliseconds: an entry
/// filed at `now` for `ttl_secs` runs out `1000 * ttl_secs` milliseconds
/// later, or at the end of the clock's range if that comes first.
pub proof fn law_ttl_is_seconds(now: u64, ttl_secs: u32)
    ensures
        now + 1000 * ttl_secs <= u64::MAX ==> expiry(now, ttl_secs) == now + 1000 * ttl_secs,
        now + 1000 * ttl_secs > u64::MAX ==> expiry(now, ttl_secs) == u64::MAX,
{
}

} // verus!
