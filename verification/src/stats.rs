//! The traffic ledger: cumulative byte counts and last-activity times per
//! address, with crediting, time-based expiry and ranking.

use crate::clock::now_utc_nanos;
use vstd::prelude::*;

verus! {

/// Seven days in nanoseconds: entries idle for longer than this are expired.
pub const EXPIRY_WINDOW_NANOS: i128 = 604_800_000_000_000;

/// The seconds between two expiries: a day.
pub const EXPIRY_INTERVAL_SECS: u64 = 86_400;

/// How many addresses a report lists.
pub const REPORT_LIMIT: usize = 80;

/// An IP address as its numeric value.
#[derive(Clone, Copy, Debug, PartialEq, Eq, Structural)]
pub enum IpAddress {
    V4(u32),
    V6(u128),
}

/// What the ledger knows of one address. Times are nanoseconds since the
/// Unix epoch.
#[derive(Clone, Copy, Debug, PartialEq, Eq, Structural)]
pub struct PacketStats {
    pub byte_count: u64,
    pub last_updated: i128,
}

/// One ledger line.
#[derive(Clone, Copy, Debug, PartialEq, Eq, Structural)]
pub struct StatsRecord {
    pub ip: IpAddress,
    pub stats: PacketStats,
}

/// The ledger: its records in the order in which their addresses first had
/// traffic. No address has two records.
pub struct StatsLedger {
    records: Vec<StatsRecord>,
}

impl View for StatsLedger {
    type V = Seq<StatsRecord>;

    closed spec fn view(&self) -> Seq<StatsRecord> {
        self.records@
    }
}

/// Some record of `s` is for `ip`.
pub open spec fn holds(s: Seq<StatsRecord>, ip: IpAddress) -> bool {
    exists|i: int| 0 <= i < s.len() && (#[trigger] s[i]).ip == ip
}

/// The index of a record for `ip`, where there is one.
pub open spec fn slot_of(s: Seq<StatsRecord>, ip: IpAddress) -> int {
    choose|i: int| 0 <= i < s.len() && (#[trigger] s[i]).ip == ip
}

/// No address has two records.
pub open spec fn distinct_ips(s: Seq<StatsRecord>) -> bool {
    forall|i: int, j: int| 0 <= i < j < s.len() ==> (#[trigger] s[i]).ip != (#[trigger] s[j]).ip
}

/// The bytes credited to `ip`: zero for an address without a record.
pub open spec fn bytes_of(s: Seq<StatsRecord>, ip: IpAddress) -> int {
    if holds(s, ip) {
        s[slot_of(s, ip)].stats.byte_count as int
    } else {
        0
    }
}

/// When `ip` last had traffic.
pub open spec fn seen_at(s: Seq<StatsRecord>, ip: IpAddress) -> Option<i128> {
    if holds(s, ip) {
        Some(s[slot_of(s, ip)].stats.last_updated)
    } else {
        None
    }
}

/// The record of `ip` after `bytes` more at time `now`.
pub open spec fn credited_record(s: Seq<StatsRecord>, ip: IpAddress, bytes: u64, now: i128) -> StatsRecord {
    StatsRecord {
        ip,
        stats: PacketStats { byte_count: (bytes_of(s, ip) + bytes) as u64, last_updated: now },
    }
}

/// The ledger after crediting `bytes` to `ip` at time `now`: the record of
/// `ip` is replaced in place, or a new one is appended.
pub open spec fn credited(s: Seq<StatsRecord>, ip: IpAddress, bytes: u64, now: i128) -> Seq<StatsRecord> {
    if holds(s, ip) {
        s.update(slot_of(s, ip), credited_record(s, ip, bytes, now))
    } else {
        s.push(credited_record(s, ip, bytes, now))
    }
}

/// A record last updated at or after `now` minus seven days.
pub open spec fn is_fresh(r: StatsRecord, now: i128) -> bool {
    r.stats.last_updated as int >= now as int - EXPIRY_WINDOW_NANOS as int
}

pub open spec fn fresh_at(now: i128) -> spec_fn(StatsRecord) -> bool {
    |r: StatsRecord| is_fresh(r, now)
}

/// The records that survive an expiry at time `now`, in their order.
pub open spec fn unexpired(s: Seq<StatsRecord>, now: i128) -> Seq<StatsRecord> {
    s.filter(fresh_at(now))
}

/// Where a record with `count` bytes goes into the ranking `r`: behind the
/// last record with at least as many bytes.
pub open spec fn rank_slot(r: Seq<StatsRecord>, count: u64) -> int
    decreases r.len(),
{
    if r.len() == 0 {
        0
    } else if r.last().stats.byte_count >= count {
        r.len() as int
    } else {
        rank_slot(r.drop_last(), count)
    }
}

/// The records by falling byte count; records with equal counts keep the
/// order they have in `s`.
pub open spec fn ranking(s: Seq<StatsRecord>) -> Seq<StatsRecord>
    decreases s.len(),
{
    if s.len() == 0 {
        Seq::empty()
    } else {
        let r = ranking(s.drop_last());
        r.insert(rank_slot(r, s.last().stats.byte_count), s.last())
    }
}

/// Byte counts never rise along `r`.
pub open spec fn descending(r: Seq<StatsRecord>) -> bool {
    forall|i: int, j: int|
        0 <= i < j < r.len() ==> (#[trigger] r[i]).stats.byte_count >= (#[trigger] r[j]).stats.byte_count
}

/// The rows of a report: address and byte count of each record.
pub open spec fn report_rows(r: Seq<StatsRecord>) -> Seq<(IpAddress, u64)> {
    Seq::new(r.len(), |i: int| (r[i].ip, r[i].stats.byte_count))
}

/// The report of the `limit` heaviest addresses.
pub open spec fn top_rows(s: Seq<StatsRecord>, limit: int) -> Seq<(IpAddress, u64)> {
    report_rows(ranking(s).take(if limit < s.len() { limit } else { s.len() as int }))
}

/// Where `s` holds no address twice and index `i` is for `ip`, `i` is the
/// slot of `ip`.
pub proof fn lemma_slot_unique(s: Seq<StatsRecord>, ip: IpAddress, i: int)
    requires
        distinct_ips(s),
        0 <= i < s.len(),
        s[i].ip == ip,
    ensures
        holds(s, ip),
        slot_of(s, ip) == i,
{
    let k = slot_of(s, ip);
    assert(0 <= k < s.len() && s[k].ip == ip);
    if k < i {
        assert(s[k].ip != s[i].ip);
    } else if i < k {
        assert(s[i].ip != s[k].ip);
    }
}

/// Crediting changes the record of its address and nothing else: the count
/// grows by `bytes`, the time becomes `now`, and no address gains a second
/// record.
pub proof fn lemma_credited(s: Seq<StatsRecord>, ip: IpAddress, bytes: u64, now: i128, other: IpAddress)
    requires
        distinct_ips(s),
    ensures
        distinct_ips(credited(s, ip, bytes, now)),
        holds(credited(s, ip, bytes, now), ip),
        bytes_of(s, ip) + bytes <= u64::MAX ==> bytes_of(credited(s, ip, bytes, now), ip) == bytes_of(s, ip)
            + bytes,
        seen_at(credited(s, ip, bytes, now), ip) == Some(now),
        other != ip ==> holds(credited(s, ip, bytes, now), other) == holds(s, other),
        other != ip ==> bytes_of(credited(s, ip, bytes, now), other) == bytes_of(s, other),
        other != ip ==> seen_at(credited(s, ip, bytes, now), other) == seen_at(s, other),
{
    let t = credited(s, ip, bytes, now);
    let rec = credited_record(s, ip, bytes, now);
    let at: int = if holds(s, ip) { slot_of(s, ip) } else { s.len() as int };
    assert(0 <= at < t.len() && t[at] == rec);
    assert forall|k: int| 0 <= k < s.len() implies (#[trigger] t[k]).ip == s[k].ip by {}
    assert forall|i: int, j: int| 0 <= i < j < t.len() implies (#[trigger] t[i]).ip != (#[trigger] t[j]).ip by {
        if j < s.len() {
            assert(s[i].ip != s[j].ip);
        } else {
            assert(t[i].ip == s[i].ip);
        }
    }
    lemma_slot_unique(t, ip, at);
    if other != ip {
        if holds(s, other) {
            let k = slot_of(s, other);
            assert(t[k] == s[k]);
            lemma_slot_unique(t, other, k);
        }
        if holds(t, other) {
            let k = slot_of(t, other);
            assert(k < s.len());
            assert(t[k] == s[k]);
            lemma_slot_unique(s, other, k);
        }
    }
}

/// One credit: `bytes` for `ip` at time `at`.
pub struct Credit {
    pub ip: IpAddress,
    pub bytes: u64,
    pub at: i128,
}

/// The ledger after the credits of `credits`, first to last.
pub open spec fn replay(s: Seq<StatsRecord>, credits: Seq<Credit>) -> Seq<StatsRecord>
    decreases credits.len(),
{
    if credits.len() == 0 {
        s
    } else {
        let c = credits.last();
        credited(replay(s, credits.drop_last()), c.ip, c.bytes, c.at)
    }
}

/// The bytes that `credits` give to `ip`.
pub open spec fn credited_sum(credits: Seq<Credit>, ip: IpAddress) -> int
    decreases credits.len(),
{
    if credits.len() == 0 {
        0
    } else if credits.last().ip == ip {
        credited_sum(credits.drop_last(), ip) + credits.last().bytes
    } else {
        credited_sum(credits.drop_last(), ip)
    }
}

/// The time of the last credit to `ip` in `credits`, or `before` where it
/// has none.
pub open spec fn last_credit_time(credits: Seq<Credit>, ip: IpAddress, before: Option<i128>) -> Option<i128>
    decreases credits.len(),
{
    if credits.len() == 0 {
        before
    } else if credits.last().ip == ip {
        Some(credits.last().at)
    } else {
        last_credit_time(credits.drop_last(), ip, before)
    }
}

/// After any run of credits, to this address and to others in any order, an
/// address holds what it held before plus the sum of its own credits, and
/// its time is that of its last credit.
pub proof fn lemma_replay(s: Seq<StatsRecord>, credits: Seq<Credit>, ip: IpAddress)
    requires
        distinct_ips(s),
        bytes_of(s, ip) + credited_sum(credits, ip) <= u64::MAX,
    ensures
        distinct_ips(replay(s, credits)),
        credited_sum(credits, ip) >= 0,
        bytes_of(replay(s, credits), ip) == bytes_of(s, ip) + credited_sum(credits, ip),
        seen_at(replay(s, credits), ip) == last_credit_time(credits, ip, seen_at(s, ip)),
    decreases credits.len(),
{
    if credits.len() > 0 {
        let c = credits.last();
        let head = credits.drop_last();
        lemma_credited_sum_grows(head, ip);
        lemma_replay(s, head, ip);
        lemma_credited(replay(s, head), c.ip, c.bytes, c.at, ip);
    }
}

/// No run of credits gives an address less than nothing.
pub proof fn lemma_credited_sum_grows(credits: Seq<Credit>, ip: IpAddress)
    ensures
        credited_sum(credits, ip) >= 0,
    decreases credits.len(),
{
    if credits.len() > 0 {
        lemma_credited_sum_grows(credits.drop_last(), ip);
    }
}

/// Crediting one address leaves every other address as it was.
pub proof fn lemma_credited_others(s: Seq<StatsRecord>, ip: IpAddress, bytes: u64, now: i128)
    requires
        distinct_ips(s),
        bytes_of(s, ip) + bytes <= u64::MAX,
    ensures
        distinct_ips(credited(s, ip, bytes, now)),
        bytes_of(credited(s, ip, bytes, now), ip) == bytes_of(s, ip) + bytes,
        seen_at(credited(s, ip, bytes, now), ip) == Some(now),
        forall|other: IpAddress|
            #![trigger holds(credited(s, ip, bytes, now), other)]
            #![trigger bytes_of(credited(s, ip, bytes, now), other)]
            #![trigger seen_at(credited(s, ip, bytes, now), other)]
            other != ip ==> holds(credited(s, ip, bytes, now), other) == holds(s, other) && bytes_of(
                credited(s, ip, bytes, now),
                other,
            ) == bytes_of(s, other) && seen_at(credited(s, ip, bytes, now), other) == seen_at(s, other),
{
    lemma_credited(s, ip, bytes, now, ip);
    assert forall|other: IpAddress| other != ip implies holds(credited(s, ip, bytes, now), other)
        == holds(s, other) && bytes_of(credited(s, ip, bytes, now), other) == bytes_of(s, other)
        && seen_at(credited(s, ip, bytes, now), other) == seen_at(s, other) by {
        lemma_credited(s, ip, bytes, now, other);
    }
}

/// Expiry treats every address as `lemma_unexpired` says of one.
pub proof fn lemma_unexpired_all(s: Seq<StatsRecord>, now: i128)
    requires
        distinct_ips(s),
    ensures
        distinct_ips(unexpired(s, now)),
        forall|ip: IpAddress|
            #![trigger holds(unexpired(s, now), ip)]
            (holds(unexpired(s, now), ip) <==> holds(s, ip) && is_fresh(s[slot_of(s, ip)], now)) && (holds(
                unexpired(s, now),
                ip,
            ) ==> unexpired(s, now)[slot_of(unexpired(s, now), ip)] == s[slot_of(s, ip)]),
{
    lemma_unexpired(s, now, IpAddress::V4(0));
    assert forall|ip: IpAddress| #![trigger holds(unexpired(s, now), ip)]
        (holds(unexpired(s, now), ip) <==> holds(s, ip) && is_fresh(s[slot_of(s, ip)], now)) && (holds(
            unexpired(s, now),
            ip,
        ) ==> unexpired(s, now)[slot_of(unexpired(s, now), ip)] == s[slot_of(s, ip)]) by {
        lemma_unexpired(s, now, ip);
    }
}

/// The slot of a count in a ranking lies within it; every record from the
/// slot on has fewer bytes, and the record before it has at least as many.
pub proof fn lemma_rank_slot(r: Seq<StatsRecord>, count: u64)
    ensures
        0 <= rank_slot(r, count) <= r.len(),
        forall|k: int| rank_slot(r, count) <= k < r.len() ==> (#[trigger] r[k]).stats.byte_count < count,
        rank_slot(r, count) > 0 ==> r[rank_slot(r, count) - 1].stats.byte_count >= count,
    decreases r.len(),
{
    if r.len() > 0 && r.last().stats.byte_count < count {
        let head = r.drop_last();
        lemma_rank_slot(head, count);
        assert forall|k: int| rank_slot(r, count) <= k < r.len() implies (#[trigger] r[k]).stats.byte_count
            < count by {
            if k < head.len() {
                assert(head[k] == r[k]);
            }
        }
    }
}

/// A ranking holds the records it was made from, each as often as it was
/// there, and its byte counts never rise.
pub proof fn lemma_ranking(s: Seq<StatsRecord>)
    ensures
        ranking(s).len() == s.len(),
        ranking(s).to_multiset() == s.to_multiset(),
        descending(ranking(s)),
    decreases s.len(),
{
    if s.len() == 0 {
        assert(ranking(s) =~= s);
    } else {
        let head = s.drop_last();
        let e = s.last();
        let r = ranking(head);
        let p = rank_slot(r, e.stats.byte_count);
        lemma_ranking(head);
        lemma_rank_slot(r, e.stats.byte_count);
        let q = r.insert(p, e);
        r.insert_ensures(p, e);
        vstd::seq_lib::to_multiset_insert(r, p, e);
        vstd::seq_lib::to_multiset_build(head, e);
        assert(head.push(e) =~= s);
        assert forall|i: int, j: int| 0 <= i < j < q.len() implies (#[trigger] q[i]).stats.byte_count >= (
        #[trigger] q[j]).stats.byte_count by {
            if j < p {
                assert(q[i] == r[i] && q[j] == r[j]);
            } else if j == p {
                assert(q[i] == r[i]);
                if i < p - 1 {
                    assert(r[i].stats.byte_count >= r[p - 1].stats.byte_count);
                }
            } else if i < p {
                assert(q[i] == r[i] && q[j] == r[j - 1]);
            } else if i == p {
                assert(q[j] == r[j - 1]);
            } else {
                assert(q[i] == r[i - 1] && q[j] == r[j - 1]);
            }
        }
    }
}

/// Every address of the ledger is in its ranking, with its byte count, and
/// the ranking holds no other.
pub proof fn lemma_ranking_keeps_records(s: Seq<StatsRecord>, r: StatsRecord)
    ensures
        ranking(s).contains(r) <==> s.contains(r),
{
    lemma_ranking(s);
    vstd::seq_lib::to_multiset_contains(s, r);
    vstd::seq_lib::to_multiset_contains(ranking(s), r);
}

/// `a` stands before `b` in `r`.
pub open spec fn ranked_before(r: Seq<StatsRecord>, a: StatsRecord, b: StatsRecord) -> bool {
    exists|p: int, q: int| #![trigger r[p], r[q]] 0 <= p < q < r.len() && r[p] == a && r[q] == b
}

/// Records with equal byte counts stand in the ranking in the order in
/// which they stand in the ledger.
pub proof fn lemma_ranking_stable(s: Seq<StatsRecord>, i: int, j: int)
    requires
        0 <= i < j < s.len(),
        s[i].stats.byte_count == s[j].stats.byte_count,
    ensures
        ranked_before(ranking(s), s[i], s[j]),
    decreases s.len(),
{
    let head = s.drop_last();
    let e = s.last();
    let r = ranking(head);
    let pos = rank_slot(r, e.stats.byte_count);
    let out = r.insert(pos, e);
    lemma_ranking(head);
    lemma_rank_slot(r, e.stats.byte_count);
    r.insert_ensures(pos, e);
    if j == s.len() - 1 {
        assert(head[i] == s[i]);
        assert(head.contains(s[i]));
        lemma_ranking_keeps_records(head, s[i]);
        let first = choose|k: int| 0 <= k < r.len() && r[k] == s[i];
        assert(first < pos) by {
            if first >= pos {
                assert(r[first].stats.byte_count < e.stats.byte_count);
            }
        }
        assert(out[first] == s[i] && out[pos] == s[j]);
    } else {
        assert(head[i] == s[i] && head[j] == s[j]);
        lemma_ranking_stable(head, i, j);
        let (first, second) = choose|p: int, q: int|
            #![trigger r[p], r[q]]
            0 <= p < q < r.len() && r[p] == s[i] && r[q] == s[j];
        let first_then = if first < pos { first } else { first + 1 };
        let second_then = if second < pos { second } else { second + 1 };
        assert(out[first_then] == s[i] && out[second_then] == s[j]);
    }
}

/// A record left out of the first `limit` of the ranking has no more bytes
/// than any record among them.
pub proof fn lemma_top_dominates(s: Seq<StatsRecord>, limit: int, i: int, j: int)
    requires
        0 <= i < limit <= j < s.len(),
    ensures
        ranking(s).len() == s.len(),
        ranking(s)[i].stats.byte_count >= ranking(s)[j].stats.byte_count,
{
    lemma_ranking(s);
}

/// Expiry keeps exactly the fresh records: an address stays if and only if it
/// was there and fresh, and then its record is unchanged.
pub proof fn lemma_unexpired(s: Seq<StatsRecord>, now: i128, ip: IpAddress)
    requires
        distinct_ips(s),
    ensures
        distinct_ips(unexpired(s, now)),
        holds(unexpired(s, now), ip) <==> holds(s, ip) && is_fresh(s[slot_of(s, ip)], now),
        holds(unexpired(s, now), ip) ==> unexpired(s, now)[slot_of(unexpired(s, now), ip)] == s[slot_of(
            s,
            ip,
        )],
    decreases s.len(),
{
    let pred = fresh_at(now);
    let u = unexpired(s, now);
    if s.len() == 0 {
        assert(s.filter(pred).len() <= s.len()) by {
            s.lemma_filter_len(pred);
        }
    } else {
        let head = s.drop_last();
        let e = s.last();
        let uh = unexpired(head, now);
        assert(head.push(e) =~= s);
        head.lemma_filter_push(e, pred);
        lemma_unexpired(head, now, ip);
        lemma_unexpired(head, now, e.ip);
        assert(!holds(head, e.ip)) by {
            if holds(head, e.ip) {
                let k = slot_of(head, e.ip);
                assert(s[k].ip != s[s.len() - 1].ip);
            }
        }
        assert(distinct_ips(head));
        if holds(s, ip) {
            let k = slot_of(s, ip);
            if k < head.len() {
                assert(head[k].ip == ip);
                lemma_slot_unique(head, ip, k);
            }
        }
        if holds(head, ip) {
            let k = slot_of(head, ip);
            assert(s[k].ip == ip);
            lemma_slot_unique(s, ip, k);
        }
        if pred(e) {
            assert(u == uh.push(e));
            assert forall|i: int, j: int| 0 <= i < j < u.len() implies (#[trigger] u[i]).ip != (#[trigger] u[j]).ip by {
                if j == uh.len() {
                    assert(uh[i].ip == u[i].ip);
                    if u[i].ip == e.ip {
                        assert(holds(uh, e.ip));
                    }
                } else {
                    assert(uh[i].ip != uh[j].ip);
                }
            }
            if ip == e.ip {
                lemma_slot_unique(u, ip, uh.len() as int);
                lemma_slot_unique(s, ip, s.len() - 1);
            } else {
                if holds(uh, ip) {
                    let k = slot_of(uh, ip);
                    assert(u[k].ip == ip);
                    lemma_slot_unique(u, ip, k);
                }
                if holds(u, ip) {
                    let k = slot_of(u, ip);
                    assert(k < uh.len());
                    assert(uh[k].ip == ip);
                    lemma_slot_unique(uh, ip, k);
                }
            }
        } else {
            assert(u == uh);
            if ip == e.ip {
                lemma_slot_unique(s, ip, s.len() - 1);
            }
        }
    }
}

/// Expiring twice at one time is expiring once.
pub proof fn lemma_unexpired_idempotent(s: Seq<StatsRecord>, now: i128)
    ensures
        unexpired(unexpired(s, now), now) == unexpired(s, now),
    decreases s.len(),
{
    let pred = fresh_at(now);
    if s.len() == 0 {
        s.lemma_filter_len(pred);
        assert(s.filter(pred) =~= s);
    } else {
        let head = s.drop_last();
        let e = s.last();
        assert(head.push(e) =~= s);
        head.lemma_filter_push(e, pred);
        lemma_unexpired_idempotent(head, now);
        if pred(e) {
            head.filter(pred).lemma_filter_push(e, pred);
        }
    }
}

impl StatsLedger {
    /// The ledger holds no address twice.
    pub open spec fn wf(&self) -> bool {
        distinct_ips(self@)
    }

    /// An empty ledger.
    pub fn new() -> (ledger: StatsLedger)
        ensures
            ledger@ == Seq::<StatsRecord>::empty(),
            ledger.wf(),
    {
        StatsLedger { records: Vec::new() }
    }

    /// The number of addresses on record.
    pub fn len(&self) -> (n: usize)
        ensures
            n == self@.len(),
    {
        self.records.len()
    }

    /// The records, in the order in which their addresses first had traffic.
    pub fn entries(&self) -> (records: Vec<StatsRecord>)
        ensures
            records@ == self@,
    {
        let n = self.records.len();
        let mut records: Vec<StatsRecord> = Vec::new();
        let mut i: usize = 0;
        while i < n
            invariant
                n == self.records@.len(),
                i <= n,
                records@ == self.records@.take(i as int),
            decreases n - i,
        {
            proof {
                assert(self.records@.take(i + 1) =~= self.records@.take(i as int).push(self.records@[i as int]));
            }
            records.push(self.records[i]);
            i += 1;
        }
        proof {
            assert(self.records@.take(n as int) =~= self.records@);
        }
        records
    }

    /// What the ledger holds for `ip`.
    pub fn lookup(&self, ip: IpAddress) -> (found: Option<PacketStats>)
        requires
            self.wf(),
        ensures
            found.is_some() == holds(self@, ip),
            found.is_some() ==> found.unwrap() == self@[slot_of(self@, ip)].stats,
    {
        let n = self.records.len();
        let mut i: usize = 0;
        while i < n
            invariant
                n == self.records.len(),
                i <= n,
                self.wf(),
                forall|j: int| 0 <= j < i ==> (#[trigger] self@[j]).ip != ip,
            decreases n - i,
        {
            if self.records[i].ip == ip {
                proof {
                    lemma_slot_unique(self@, ip, i as int);
                }
                return Some(self.records[i].stats);
            }
            i += 1;
        }
        None
    }

    /// The bytes credited to `ip` so far.
    pub fn byte_count(&self, ip: IpAddress) -> (count: u64)
        requires
            self.wf(),
        ensures
            count == bytes_of(self@, ip),
    {
        match self.lookup(ip) {
            Some(stats) => stats.byte_count,
            None => 0,
        }
    }

    /// Credits `bytes` to `ip` at time `now`: the record of `ip` is made
    /// where there was none, its count grows by `bytes`, and its time becomes
    /// `now`. Every other record stays as it was.
    pub fn credit(&mut self, ip: IpAddress, bytes: u64, now: i128)
        requires
            old(self).wf(),
            bytes_of(old(self)@, ip) + bytes <= u64::MAX,
        ensures
            final(self).wf(),
            final(self)@ == credited(old(self)@, ip, bytes, now),
            bytes_of(final(self)@, ip) == bytes_of(old(self)@, ip) + bytes,
            seen_at(final(self)@, ip) == Some(now),
            forall|other: IpAddress|
                #![trigger holds(final(self)@, other)]
                #![trigger bytes_of(final(self)@, other)]
                #![trigger seen_at(final(self)@, other)]
                other != ip ==> holds(final(self)@, other) == holds(old(self)@, other) && bytes_of(
                    final(self)@,
                    other,
                ) == bytes_of(old(self)@, other) && seen_at(final(self)@, other) == seen_at(
                    old(self)@,
                    other,
                ),
    {
        let ghost before = self@;
        let n = self.records.len();
        let mut i: usize = 0;
        while i < n
            invariant
                self@ == before,
                before == old(self)@,
                n == before.len(),
                i <= n,
                distinct_ips(before),
                bytes_of(before, ip) + bytes <= u64::MAX,
                forall|j: int| 0 <= j < i ==> (#[trigger] before[j]).ip != ip,
            decreases n - i,
        {
            if self.records[i].ip == ip {
                proof {
                    lemma_slot_unique(before, ip, i as int);
                    lemma_credited_others(before, ip, bytes, now);
                }
                let prev = self.records[i].stats.byte_count;
                let next = StatsRecord {
                    ip,
                    stats: PacketStats { byte_count: prev + bytes, last_updated: now },
                };
                self.records.set(i, next);
                return ;
            }
            i += 1;
        }
        proof {
            lemma_credited_others(before, ip, bytes, now);
        }
        let fresh = StatsRecord { ip, stats: PacketStats { byte_count: bytes, last_updated: now } };
        self.records.push(fresh);
    }

    /// Removes the records last updated before `now` minus seven days and
    /// keeps the others, unchanged and in their order.
    pub fn expire(&mut self, now: i128)
        requires
            old(self).wf(),
        ensures
            final(self).wf(),
            final(self)@ == unexpired(old(self)@, now),
            forall|ip: IpAddress|
                #![trigger holds(final(self)@, ip)]
                holds(final(self)@, ip) <==> holds(old(self)@, ip) && is_fresh(
                    old(self)@[slot_of(old(self)@, ip)],
                    now,
                ),
            forall|ip: IpAddress|
                #![trigger holds(final(self)@, ip)]
                holds(final(self)@, ip) ==> final(self)@[slot_of(final(self)@, ip)] == old(self)@[slot_of(
                    old(self)@,
                    ip,
                )],
    {
        let ghost before = self@;
        let ghost pred = fresh_at(now);
        let mut kept: Vec<StatsRecord> = Vec::new();
        let n = self.records.len();
        let mut i: usize = 0;
        proof {
            assert(before.take(0).filter(pred) =~= Seq::<StatsRecord>::empty()) by {
                before.take(0).lemma_filter_len(pred);
            }
        }
        while i < n
            invariant
                self@ == before,
                before == old(self)@,
                n == before.len(),
                i <= n,
                pred == fresh_at(now),
                distinct_ips(before),
                kept@ == before.take(i as int).filter(pred),
            decreases n - i,
        {
            let r = self.records[i];
            let keep = if now >= i128::MIN + EXPIRY_WINDOW_NANOS {
                r.stats.last_updated >= now - EXPIRY_WINDOW_NANOS
            } else {
                true
            };
            proof {
                assert(before.take(i + 1) =~= before.take(i as int).push(before[i as int]));
                before.take(i as int).lemma_filter_push(before[i as int], pred);
                assert(keep == pred(r));
            }
            if keep {
                kept.push(r);
            }
            i += 1;
        }
        proof {
            assert(before.take(n as int) =~= before);
            lemma_unexpired_all(before, now);
        }
        self.records = kept;
    }

    /// The `limit` addresses with the most bytes, heaviest first, each with
    /// its byte count; addresses with equal counts come in the order in which
    /// they entered the ledger. The ledger itself is not changed.
    pub fn top_ips(&self, limit: usize) -> (top: Vec<(IpAddress, u64)>)
        requires
            self.wf(),
        ensures
            top@ == top_rows(self@, limit as int),
            top@.len() == if limit < self@.len() { limit as int } else { self@.len() as int },
            forall|i: int, j: int| 0 <= i < j < top@.len() ==> (#[trigger] top@[i]).1 >= (#[trigger] top@[j]).1,
            forall|i: int|
                0 <= i < top@.len() ==> holds(self@, (#[trigger] top@[i]).0) && bytes_of(self@, top@[i].0)
                    == top@[i].1,
    {
        let n = self.records.len();
        let mut ranked: Vec<StatsRecord> = Vec::new();
        let mut i: usize = 0;
        proof {
            assert(self@.take(0) =~= Seq::<StatsRecord>::empty());
        }
        while i < n
            invariant
                n == self@.len(),
                i <= n,
                ranked@ == ranking(self@.take(i as int)),
                ranked@.len() == i,
            decreases n - i,
        {
            let r = self.records[i];
            let count = r.stats.byte_count;
            let mut p: usize = ranked.len();
            proof {
                assert(ranked@.take(p as int) =~= ranked@);
            }
            while p > 0 && ranked[p - 1].stats.byte_count < count
                invariant
                    p <= ranked@.len(),
                    rank_slot(ranked@, count) == rank_slot(ranked@.take(p as int), count),
                decreases p,
            {
                proof {
                    assert(ranked@.take(p as int).drop_last() =~= ranked@.take(p - 1));
                }
                p -= 1;
            }
            proof {
                assert(ranked@.take(ranked@.len() as int) =~= ranked@);
                assert(self@.take(i + 1).drop_last() =~= self@.take(i as int));
                lemma_ranking(self@.take(i + 1));
            }
            ranked.insert(p, r);
            i += 1;
        }
        proof {
            assert(self@.take(n as int) =~= self@);
            lemma_ranking(self@);
        }
        let shown = if limit < n { limit } else { n };
        let mut top: Vec<(IpAddress, u64)> = Vec::new();
        let mut k: usize = 0;
        while k < shown
            invariant
                shown <= ranked@.len(),
                k <= shown,
                top@.len() == k,
                forall|j: int| 0 <= j < k ==> top@[j] == (ranked@[j].ip, ranked@[j].stats.byte_count),
            decreases shown - k,
        {
            top.push((ranked[k].ip, ranked[k].stats.byte_count));
            k += 1;
        }
        proof {
            assert(top@ =~= top_rows(self@, limit as int));
            assert forall|i: int| 0 <= i < top@.len() implies holds(self@, (#[trigger] top@[i]).0)
                && bytes_of(self@, top@[i].0) == top@[i].1 by {
                let r = ranking(self@)[i];
                assert(ranking(self@).contains(r));
                lemma_ranking_keeps_records(self@, r);
                let k = choose|k: int| 0 <= k < self@.len() && self@[k] == r;
                lemma_slot_unique(self@, r.ip, k);
            }
        }
        top
    }
}

/// Credits `bytes` to `ip` at the current time, which it returns.
pub fn update_stats(stats: &mut StatsLedger, ip: IpAddress, bytes: u64) -> (now: i128)
    requires
        old(stats).wf(),
        bytes_of(old(stats)@, ip) + bytes <= u64::MAX,
    ensures
        final(stats).wf(),
        final(stats)@ == credited(old(stats)@, ip, bytes, now),
        bytes_of(final(stats)@, ip) == bytes_of(old(stats)@, ip) + bytes,
        seen_at(final(stats)@, ip) == Some(now),
{
    let now = now_utc_nanos();
    stats.credit(ip, bytes, now);
    now
}

/// Expires at the current time, which it returns: the records last updated
/// before it minus seven days go, the others stay.
pub fn expire_old_entries(stats: &mut StatsLedger) -> (now: i128)
    requires
        old(stats).wf(),
    ensures
        final(stats).wf(),
        final(stats)@ == unexpired(old(stats)@, now),
{
    let now = now_utc_nanos();
    stats.expire(now);
    now
}

/// The report: the eighty addresses with the most bytes, heaviest first.
pub fn get_top_ips(stats: &StatsLedger) -> (top: Vec<(IpAddress, u64)>)
    requires
        stats.wf(),
    ensures
        top@ == top_rows(stats@, REPORT_LIMIT as int),
        top@.len() == if REPORT_LIMIT < stats@.len() { REPORT_LIMIT as int } else { stats@.len() as int },
        forall|i: int, j: int| 0 <= i < j < top@.len() ==> (#[trigger] top@[i]).1 >= (#[trigger] top@[j]).1,
        forall|i: int|
            0 <= i < top@.len() ==> holds(stats@, (#[trigger] top@[i]).0) && bytes_of(stats@, top@[i].0)
                == top@[i].1,
{
    stats.top_ips(REPORT_LIMIT)
}

} // verus!
