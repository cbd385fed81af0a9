//! The audit log: its records, the keys under which they are stored and found
//! again, what is written and what expires.

use crate::bytes::{
    be_digits, be_value, bytes_lt, from_be, lemma_be_len, lemma_be_order, lemma_be_round_trip,
    lemma_bytes_lt_prefix, lemma_bytes_lt_tail, lemma_u64_digits, to_be,
};
use crate::s3::outside::{now, Moment, MomentView, FIRST_SECOND, LAST_SECOND};
use vstd::prelude::*;
use vstd::string::*;
use vstd::utf8::*;

verus! {

/// What is recorded of a request.
#[derive(Debug)]
pub struct AuditRecord {
    pub timestamp: String,
    pub timestamp_ms: u64,
    pub request_id: String,
    pub remote_ip: String,
    pub user_id: String,
    pub role_arn: Option<String>,
    pub action: String,
    pub resource: String,
    pub status_code: u16,
    pub error_code: Option<String>,
    pub user_agent: Option<String>,
    pub duration_ms: Option<u64>,
}

/// What a record stands for.
pub struct RecordView {
    pub timestamp: Seq<char>,
    pub timestamp_ms: u64,
    pub request_id: Seq<char>,
    pub remote_ip: Seq<char>,
    pub user_id: Seq<char>,
    pub role_arn: Option<Seq<char>>,
    pub action: Seq<char>,
    pub resource: Seq<char>,
    pub status_code: u16,
    pub error_code: Option<Seq<char>>,
    pub user_agent: Option<Seq<char>>,
    pub duration_ms: Option<u64>,
}

impl View for AuditRecord {
    type V = RecordView;

    open spec fn view(&self) -> RecordView {
        RecordView {
            timestamp: self.timestamp@,
            timestamp_ms: self.timestamp_ms,
            request_id: self.request_id@,
            remote_ip: self.remote_ip@,
            user_id: self.user_id@,
            role_arn: self.role_arn.deep_view(),
            action: self.action@,
            resource: self.resource@,
            status_code: self.status_code,
            error_code: self.error_code.deep_view(),
            user_agent: self.user_agent.deep_view(),
            duration_ms: self.duration_ms,
        }
    }
}

impl DeepView for AuditRecord {
    type V = RecordView;

    open spec fn deep_view(&self) -> RecordView {
        self.view()
    }
}

/// The key of a record: `audit:`, its time, `:` and its request.
pub open spec fn record_key(ts: u64, request_id: Seq<char>) -> Seq<u8> {
    encode_utf8("audit:"@) + be_digits(ts as nat, 8) + encode_utf8(":"@) + encode_utf8(request_id)
}

/// What the keys of a user's index entries begin with.
pub open spec fn user_prefix(user: Seq<char>) -> Seq<u8> {
    encode_utf8("index:user:"@) + encode_utf8(user) + encode_utf8(":"@)
}

/// The key of a user's index entry for a record.
pub open spec fn user_key(user: Seq<char>, ts: u64, request_id: Seq<char>) -> Seq<u8> {
    user_prefix(user) + be_digits(ts as nat, 8) + encode_utf8(":"@) + encode_utf8(request_id)
}

pub(crate) fn append(to: &mut Vec<u8>, more: &[u8])
    ensures
        final(to)@ == old(to)@ + more@,
{
    let ghost before = to@;
    let mut i: usize = 0;
    assert(before + more@.take(0) =~= before);
    while i < more.len()
        invariant
            i <= more@.len(),
            to@ == before + more@.take(i as int),
        decreases more@.len() - i,
    {
        to.push(more[i]);
        assert(before + more@.take(i as int + 1) =~= (before + more@.take(i as int)).push(
            more@[i as int],
        ));
        i += 1;
    }
    assert(more@.take(more@.len() as int) =~= more@);
}

pub(crate) fn bytes_of(s: &str) -> (r: Vec<u8>)
    ensures
        r@ == encode_utf8(s@),
{
    let mut r: Vec<u8> = Vec::new();
    let b = s.as_bytes();
    append(&mut r, b);
    assert(r@ =~= encode_utf8(s@));
    r
}

/// The key of a record.
pub fn make_record_key(ts: u64, request_id: &str) -> (r: Vec<u8>)
    ensures
        r@ == record_key(ts, request_id@),
{
    let mut key = bytes_of("audit:");
    let t = to_be(ts);
    append(&mut key, t.as_slice());
    append(&mut key, ":".as_bytes());
    append(&mut key, request_id.as_bytes());
    key
}

/// What the keys of a user's index entries begin with.
pub fn make_user_prefix(user: &str) -> (r: Vec<u8>)
    ensures
        r@ == user_prefix(user@),
{
    let mut key = bytes_of("index:user:");
    append(&mut key, user.as_bytes());
    append(&mut key, ":".as_bytes());
    key
}

/// The key of a user's index entry for a record.
pub fn make_user_key(user: &str, ts: u64, request_id: &str) -> (r: Vec<u8>)
    ensures
        r@ == user_key(user@, ts, request_id@),
{
    let mut key = make_user_prefix(user);
    let t = to_be(ts);
    append(&mut key, t.as_slice());
    append(&mut key, ":".as_bytes());
    append(&mut key, request_id.as_bytes());
    key
}

/// The keys that are written for one record.
#[derive(Debug)]
pub struct RecordKeys {
    /// Holds the record itself
    pub record: Vec<u8>,
    /// Holds the key of the record
    pub user: Vec<u8>,
}

/// What the keys of a record stand for.
pub struct RecordKeysView {
    pub record: Seq<u8>,
    pub user: Seq<u8>,
}

impl View for RecordKeys {
    type V = RecordKeysView;

    open spec fn view(&self) -> RecordKeysView {
        RecordKeysView { record: self.record@, user: self.user@ }
    }
}

/// The keys that are written for a record.
pub open spec fn keys_for(r: RecordView) -> RecordKeysView {
    RecordKeysView {
        record: record_key(r.timestamp_ms, r.request_id),
        user: user_key(r.user_id, r.timestamp_ms, r.request_id),
    }
}

/// The keys that are written for the records of a batch, in their order.
pub fn flush_batch(records: &Vec<AuditRecord>) -> (r: Vec<RecordKeys>)
    ensures
        r@.len() == records@.len(),
        forall|i: int|
            0 <= i < records@.len() ==> (#[trigger] r@[i])@ == keys_for(records@[i]@),
{
    let mut r: Vec<RecordKeys> = Vec::new();
    let mut i: usize = 0;
    while i < records.len()
        invariant
            i <= records@.len(),
            r@.len() == i,
            forall|j: int| 0 <= j < i ==> (#[trigger] r@[j])@ == keys_for(records@[j]@),
        decreases records@.len() - i,
    {
        let e = &records[i];
        let record = make_record_key(e.timestamp_ms, e.request_id.as_str());
        let user = make_user_key(e.user_id.as_str(), e.timestamp_ms, e.request_id.as_str());
        r.push(RecordKeys { record, user });
        i += 1;
    }
    r
}

/// Records that wait to be written, and how many make up a batch.
#[derive(Debug)]
pub struct AuditBuffer {
    pub records: Vec<AuditRecord>,
    pub batch_size: usize,
}

impl AuditBuffer {
    /// An empty buffer.
    pub fn new(batch_size: usize) -> (r: Self)
        ensures
            r.records@.len() == 0,
            r.batch_size == batch_size,
    {
        AuditBuffer { records: Vec::new(), batch_size }
    }

    /// Takes a record in. Once as many wait as make up a batch, all of them
    /// are handed out to be written.
    pub fn receive(&mut self, record: AuditRecord) -> (r: Option<Vec<AuditRecord>>)
        ensures
            final(self).batch_size == old(self).batch_size,
            r is Some == (old(self).records@.len() + 1 >= old(self).batch_size),
            match r {
                Some(batch) => batch@ == old(self).records@.push(record)
                    && final(self).records@.len() == 0,
                None => final(self).records@ == old(self).records@.push(record),
            },
    {
        self.records.push(record);
        if self.records.len() >= self.batch_size {
            let mut batch: Vec<AuditRecord> = Vec::new();
            std::mem::swap(&mut batch, &mut self.records);
            Some(batch)
        } else {
            None
        }
    }

    /// Hands out what waits, if anything does, when the time to write has
    /// come.
    pub fn tick(&mut self) -> (r: Option<Vec<AuditRecord>>)
        ensures
            final(self).batch_size == old(self).batch_size,
            final(self).records@.len() == 0,
            match r {
                Some(batch) => batch@ == old(self).records@ && batch@.len() > 0,
                None => old(self).records@.len() == 0,
            },
    {
        if self.records.len() > 0 {
            let mut batch: Vec<AuditRecord> = Vec::new();
            std::mem::swap(&mut batch, &mut self.records);
            Some(batch)
        } else {
            None
        }
    }

    /// Hands out what waits together with the records that were still on
    /// their way, when the log is closed.
    pub fn close(&mut self, rest: Vec<AuditRecord>) -> (r: Option<Vec<AuditRecord>>)
        ensures
            final(self).batch_size == old(self).batch_size,
            final(self).records@.len() == 0,
            match r {
                Some(batch) => batch@ == old(self).records@ + rest@ && batch@.len() > 0,
                None => old(self).records@.len() + rest@.len() == 0,
            },
    {
        let mut more = rest;
        self.records.append(&mut more);
        self.tick()
    }
}

/// The time that stands in the key of an index entry: eight bytes, before a
/// separator and a request of 36 bytes. Nothing in a key too short for it.
pub open spec fn key_time(key: Seq<u8>) -> Option<nat> {
    if key.len() > 44 {
        Some(be_value(key.subrange(key.len() - 45, key.len() - 37)))
    } else {
        None
    }
}

/// The time that stands in the key of an index entry.
pub fn read_key_time(key: &Vec<u8>) -> (r: Option<u64>)
    ensures
        match r {
            Some(t) => key_time(key@) == Some(t as nat),
            None => key_time(key@) is None,
        },
{
    if key.len() <= 44 {
        return None;
    }
    let start: usize = key.len() - 45;
    let mut part: Vec<u8> = Vec::new();
    let mut i: usize = 0;
    while i < 8
        invariant
            i <= 8,
            start + 45 == key.len(),
            part@ == key@.subrange(start as int, start as int + i),
        decreases 8 - i,
    {
        part.push(key[start + i]);
        assert(key@.subrange(start as int, start as int + i + 1) =~= key@.subrange(
            start as int,
            start as int + i,
        ).push(key@[start as int + i]));
        i += 1;
    }
    from_be(part.as_slice())
}

/// The moment before which records expire, in milliseconds since the epoch;
/// nothing where no date can name it.
pub open spec fn cutoff(now: MomentView, days: u32) -> Option<int> {
    if FIRST_SECOND <= now.secs - 86400 * days {
        Some((now.secs - 86400 * days) * 1000 + now.nanos as int / 1000000)
    } else {
        None
    }
}

/// The index entry expires.
pub open spec fn expires(key: Seq<u8>, cutoff: u64) -> bool {
    match key_time(key) {
        Some(t) => t < cutoff,
        None => false,
    }
}

/// The keys among `keys` that expire, in order.
pub open spec fn expired(keys: Seq<Seq<u8>>, cutoff: u64) -> Seq<Seq<u8>> {
    keys.filter(|k: Seq<u8>| expires(k, cutoff))
}

/// What is deleted when old records are cleaned up.
#[derive(Debug)]
pub struct Cleanup {
    /// The records from this key on
    pub from: Vec<u8>,
    /// up to but not including this one
    pub to: Vec<u8>,
    /// Index entries
    pub keys: Vec<Vec<u8>>,
}

/// What of the log and of the index entries `keys` is deleted once records
/// before `cutoff` expire.
pub open spec fn cleanup(c: Cleanup, keys: Seq<Seq<u8>>, cutoff: u64) -> bool {
    &&& c.from@ == encode_utf8("audit:"@)
    &&& c.to@ == encode_utf8("audit:"@) + be_digits(cutoff as nat, 8)
    &&& c.keys.deep_view() == expired(keys, cutoff)
}

/// The records and index entries that expire at a moment; nothing where no
/// date can name the moment before which they do.
pub fn cleanup_at(now: &Moment, retention_days: u32, index_keys: &Vec<Vec<u8>>) -> (r: Option<
    Cleanup,
>)
    requires
        now.secs <= LAST_SECOND,
        now.nanos < 1000000000,
    ensures
        match r {
            Some(c) => cutoff(now@, retention_days) is Some && cleanup(
                c,
                index_keys.deep_view(),
                cutoff(now@, retention_days).unwrap() as u64,
            ),
            None => cutoff(now@, retention_days) is None,
        },
{
    let first: i128 = now.secs as i128 - 86400 * (retention_days as i128);
    if first < FIRST_SECOND as i128 {
        return None;
    }
    let ms: i128 = first * 1000 + (now.nanos / 1000000) as i128;
    #[verifier::truncate]
    let limit: u64 = ms as u64;
    let from = bytes_of("audit:");
    let mut to = bytes_of("audit:");
    let t = to_be(limit);
    append(&mut to, t.as_slice());
    let ghost kv = index_keys.deep_view();
    let ghost want = |k: Seq<u8>| expires(k, limit);
    let mut keys: Vec<Vec<u8>> = Vec::new();
    let mut i: usize = 0;
    assert(kv.take(0) =~= Seq::<Seq<u8>>::empty());
    proof {
        reveal(Seq::filter);
        assert(keys.deep_view() =~= kv.take(0).filter(want));
    }
    while i < index_keys.len()
        invariant
            i <= index_keys@.len(),
            kv == index_keys.deep_view(),
            want == (|k: Seq<u8>| expires(k, limit)),
            keys.deep_view() == kv.take(i as int).filter(want),
        decreases index_keys@.len() - i,
    {
        let ghost before = keys.deep_view();
        proof {
            reveal(Seq::filter);
            assert(kv.take(i as int + 1).drop_last() =~= kv.take(i as int));
            assert(kv.take(i as int + 1).last() == kv[i as int]);
            assert(kv[i as int] =~= index_keys@[i as int]@);
        }
        let old_enough = match read_key_time(&index_keys[i]) {
            Some(ts) => ts < limit,
            None => false,
        };
        assert(old_enough == expires(kv[i as int], limit));
        if old_enough {
            let mut key: Vec<u8> = Vec::new();
            append(&mut key, index_keys[i].as_slice());
            assert(key@ =~= index_keys@[i as int]@);
            keys.push(key);
            assert(keys.deep_view() =~= before.push(kv[i as int]));
        }
        i += 1;
    }
    assert(kv.take(kv.len() as int) =~= kv);
    Some(Cleanup { from, to, keys })
}

/// The records and index entries that expire now. A retention that reaches
/// back from the epoch to a date always has a cutoff.
pub fn cleanup_old_logs(retention_days: u32, index_keys: &Vec<Vec<u8>>) -> (r: Option<Cleanup>)
    ensures
        retention_days <= 96465292 ==> r is Some,
        exists|n: MomentView|
            0 <= n.secs <= LAST_SECOND && n.nanos < 1000000000 && match (
                r,
                #[trigger] cutoff(n, retention_days),
            ) {
                (Some(c), Some(limit)) => cleanup(c, index_keys.deep_view(), limit as u64),
                (None, None) => true,
                _ => false,
            },
{
    let t = now();
    let r = cleanup_at(&t, retention_days, index_keys);
    proof {
        let n = t@;
        let limit = cutoff(n, retention_days);
        assert(0 <= n.secs <= LAST_SECOND && n.nanos < 1000000000);
    }
    r
}

/// Records order in the log by their time, whatever their requests are.
pub proof fn law_records_order_by_time(t1: u64, id1: Seq<char>, t2: u64, id2: Seq<char>)
    requires
        t1 < t2,
    ensures
        bytes_lt(record_key(t1, id1), record_key(t2, id2)),
{
    let p = encode_utf8("audit:"@);
    let a = be_digits(t1 as nat, 8);
    let b = be_digits(t2 as nat, 8);
    let x = encode_utf8(":"@) + encode_utf8(id1);
    let y = encode_utf8(":"@) + encode_utf8(id2);
    lemma_u64_digits(t1);
    lemma_u64_digits(t2);
    lemma_be_len(t1 as nat, 8);
    lemma_be_len(t2 as nat, 8);
    lemma_be_order(t1 as nat, t2 as nat, 8);
    lemma_bytes_lt_tail(a, b, x, y);
    lemma_bytes_lt_prefix(p, a + x, b + y);
    assert(record_key(t1, id1) =~= p + (a + x));
    assert(record_key(t2, id2) =~= p + (b + y));
}

/// A user's index entries order by their time, whatever their requests are.
pub proof fn law_index_orders_by_time(
    user: Seq<char>,
    t1: u64,
    id1: Seq<char>,
    t2: u64,
    id2: Seq<char>,
)
    requires
        t1 < t2,
    ensures
        bytes_lt(user_key(user, t1, id1), user_key(user, t2, id2)),
{
    let p = user_prefix(user);
    let a = be_digits(t1 as nat, 8);
    let b = be_digits(t2 as nat, 8);
    let x = encode_utf8(":"@) + encode_utf8(id1);
    let y = encode_utf8(":"@) + encode_utf8(id2);
    lemma_u64_digits(t1);
    lemma_u64_digits(t2);
    lemma_be_len(t1 as nat, 8);
    lemma_be_len(t2 as nat, 8);
    lemma_be_order(t1 as nat, t2 as nat, 8);
    lemma_bytes_lt_tail(a, b, x, y);
    lemma_bytes_lt_prefix(p, a + x, b + y);
    assert(user_key(user, t1, id1) =~= p + (a + x));
    assert(user_key(user, t2, id2) =~= p + (b + y));
}

/// Deleting the range of a cleanup deletes just the records before the cutoff.
pub proof fn law_cleanup_range(ts: u64, request_id: Seq<char>, cutoff: u64)
    ensures
        bytes_lt(
            record_key(ts, request_id),
            encode_utf8("audit:"@) + be_digits(cutoff as nat, 8),
        ) == (ts < cutoff),
        !bytes_lt(record_key(ts, request_id), encode_utf8("audit:"@)),
{
    let p = encode_utf8("audit:"@);
    let a = be_digits(ts as nat, 8);
    let b = be_digits(cutoff as nat, 8);
    let x = encode_utf8(":"@) + encode_utf8(request_id);
    let y = Seq::<u8>::empty();
    lemma_u64_digits(ts);
    lemma_u64_digits(cutoff);
    lemma_be_len(ts as nat, 8);
    lemma_be_len(cutoff as nat, 8);
    lemma_be_order(ts as nat, cutoff as nat, 8);
    lemma_bytes_lt_tail(a, b, x, y);
    lemma_bytes_lt_prefix(p, a + x, b + y);
    lemma_bytes_lt_prefix(p, a + x, y);
    assert(record_key(ts, request_id) =~= p + (a + x));
    assert(p + b =~= p + (b + y));
    assert(p + y =~= p);
}

/// The time of a record reads back from its index entry, where the request is
/// named by 36 bytes; so just the entries before the cutoff expire.
pub proof fn law_index_keeps_time(user: Seq<char>, ts: u64, request_id: Seq<char>, cutoff: u64)
    requires
        encode_utf8(request_id).len() == 36,
    ensures
        key_time(user_key(user, ts, request_id)) == Some(ts as nat),
        expires(user_key(user, ts, request_id), cutoff) == (ts < cutoff),
{
    let k = user_key(user, ts, request_id);
    let d = be_digits(ts as nat, 8);
    reveal_strlit(":");
    is_ascii_chars_encode_utf8(":"@);
    lemma_u64_digits(ts);
    lemma_be_len(ts as nat, 8);
    lemma_be_round_trip(ts as nat, 8);
    assert(k.len() == user_prefix(user).len() + 45);
    assert(k.subrange(k.len() - 45, k.len() - 37) =~= d);
}

/// All index entries of a user begin with the user's prefix.
pub proof fn law_index_has_prefix(user: Seq<char>, ts: u64, request_id: Seq<char>)
    ensures
        user_prefix(user).is_prefix_of(user_key(user, ts, request_id)),
{
    let p = user_prefix(user);
    assert(user_key(user, ts, request_id).subrange(0, p.len() as int) =~= p);
}

} // verus!
