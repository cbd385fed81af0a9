//! What the audit log keeps and finds again: the keys of a record, what a
//! search visits, what expires, and how a record is shown.

use crate::bytes::{
    be_digits, bytes_lt, lemma_be_len, lemma_be_order, lemma_bytes_lt_prefix, lemma_bytes_lt_tail,
    lemma_u64_digits,
};
use crate::parse::after_last;
use crate::s3::audit::{
    cleanup_at, cutoff, expired, expires, key_time, keys_for, law_cleanup_range,
    law_index_has_prefix, law_index_keeps_time, record_key, user_key, user_prefix, AuditRecord,
    Cleanup, RecordView,
};
use crate::s3::audit_reader::{filled, line_of, time_bound, Search, SearchView, Shown, Visit};
use crate::s3::outside::{millis_of, rfc3339_moment, Moment, MomentView};
use crate::text::decimal;
use vstd::prelude::*;
use vstd::string::*;
use vstd::utf8::*;

verus! {

/// A record is found again under its time and its user: the key of its index
/// entry begins with its user's prefix and tells its time.
pub proof fn law_records_are_found_by_user(r: RecordView)
    requires
        encode_utf8(r.request_id).len() == 36,
    ensures
        user_prefix(r.user_id).is_prefix_of(keys_for(r).user),
        key_time(keys_for(r).user) == Some(r.timestamp_ms as nat),
        encode_utf8("audit:"@).is_prefix_of(keys_for(r).record),
        keys_for(r).record == encode_utf8("audit:"@) + be_digits(r.timestamp_ms as nat, 8)
            + encode_utf8(":"@) + encode_utf8(r.request_id),
{
    law_index_has_prefix(r.user_id, r.timestamp_ms, r.request_id);
    law_index_keeps_time(r.user_id, r.timestamp_ms, r.request_id, 0);
    let p = encode_utf8("audit:"@);
    assert(keys_for(r).record.subrange(0, p.len() as int) =~= p);
}

proof fn lemma_from(p: Seq<u8>, ts: u64, start: u64, x: Seq<u8>)
    ensures
        bytes_lt(p + be_digits(ts as nat, 8) + x, p + be_digits(start as nat, 8)) == (ts < start),
{
    let a = be_digits(ts as nat, 8);
    let b = be_digits(start as nat, 8);
    let y = Seq::<u8>::empty();
    lemma_u64_digits(ts);
    lemma_u64_digits(start);
    lemma_be_len(ts as nat, 8);
    lemma_be_len(start as nat, 8);
    lemma_be_order(ts as nat, start as nat, 8);
    lemma_bytes_lt_tail(a, b, x, y);
    lemma_bytes_lt_prefix(p, a + x, b + y);
    assert(p + a + x =~= p + (a + x));
    assert(p + b =~= p + (b + y));
}

/// A search begins with the first entry that is not before its beginning: an
/// entry lies before the first key exactly if its time is before the search's
/// beginning. Every entry that it may ask for lies under its prefix.
pub proof fn law_search_begins_in_time(s: SearchView, ts: u64, request_id: Seq<char>)
    ensures
        s.user is None ==> {
            &&& bytes_lt(record_key(ts, request_id), s.first_key()) <==> ts < s.start_ms
            &&& s.key_prefix().is_prefix_of(record_key(ts, request_id))
        },
        s.user matches Some(u) ==> {
            &&& bytes_lt(user_key(u, ts, request_id), s.first_key()) <==> ts < s.start_ms
            &&& s.key_prefix().is_prefix_of(user_key(u, ts, request_id))
        },
{
    let x = encode_utf8(":"@) + encode_utf8(request_id);
    if let Some(u) = s.user {
        let p = user_prefix(u);
        let a = be_digits(ts as nat, 8);
        law_index_has_prefix(u, ts, request_id);
        assert(user_key(u, ts, request_id) =~= p + a + x);
        lemma_from(p, ts, s.start_ms, x);
        if s.start_ms == 0 {
            let y = Seq::<u8>::empty();
            lemma_bytes_lt_prefix(p, a + x, y);
            assert(p + y =~= p);
            assert(p + a + x =~= p + (a + x));
        }
    } else {
        let p = encode_utf8("audit:"@);
        assert(record_key(ts, request_id) =~= p + be_digits(ts as nat, 8) + x);
        assert(record_key(ts, request_id).subrange(0, p.len() as int) =~= p);
        lemma_from(p, ts, s.start_ms, x);
    }
}

/// A search asks for the records of its user, its action and its status, where
/// it names them, and for all where it names none.
pub proof fn law_what_a_search_wants(s: SearchView, r: RecordView)
    ensures
        s.wants(r) <==> (s.user is None || s.user == Some(r.user_id)) && (s.action is None
            || s.action == Some(r.action)) && (s.status is None || s.status == Some(r.status_code)),
{
}

/// Records expire by whole days before the moment of the clean-up.
pub proof fn law_cutoff_is_days_ago(now: MomentView, days: u32)
    ensures
        cutoff(now, days) matches Some(c) ==> c == now.secs * 1000 + now.nanos as int / 1_000_000
            - days * 24 * 60 * 60 * 1000,
        now.secs >= days * 24 * 60 * 60 ==> cutoff(now, days) is Some,
{
}

/// Of the index entries just those that tell a time before the cutoff expire.
pub proof fn law_what_expires(keys: Seq<Seq<u8>>, limit: u64, k: Seq<u8>)
    ensures
        expired(keys, limit).contains(k) <==> keys.contains(k) && (key_time(k) matches Some(t) && t
            < limit),
    decreases keys.len(),
{
    reveal(Seq::filter);
    let want = |x: Seq<u8>| expires(x, limit);
    let all = expired(keys, limit);
    if keys.len() > 0 {
        let d = keys.drop_last();
        let r = expired(d, limit);
        law_what_expires(d, limit, k);
        assert(keys[keys.len() - 1] == keys.last());
        assert(all == if want(keys.last()) {
            r.push(keys.last())
        } else {
            r
        });
        if d.contains(k) {
            assert(keys[d.index_of(k)] == k);
        }
        if keys.contains(k) && k != keys.last() {
            assert(d[keys.index_of(k)] == k);
        }
        if r.contains(k) {
            assert(all[r.index_of(k)] == k);
        }
        if all.contains(k) && !r.contains(k) {
            let i = all.index_of(k);
            if i < r.len() {
                assert(r[i] == k);
            }
        }
        if want(keys.last()) {
            assert(all[r.len() as int] == keys.last());
        }
    } else {
        assert(!keys.contains(k));
        assert(!all.contains(k));
    }
}

/// A text that is filled up begins with the text, goes on with spaces alone, and
/// is as wide as asked for, or as the text where that is wider.
pub proof fn law_filled(s: Seq<char>, width: nat)
    ensures
        s.is_prefix_of(filled(s, width)),
        filled(s, width).len() == if s.len() < width {
            width
        } else {
            s.len()
        },
        forall|i: int| s.len() <= i < filled(s, width).len() ==> filled(s, width)[i] == ' ',
    decreases width - s.len(),
{
    if s.len() < width {
        let t = s.push(' ');
        law_filled(t, width);
        let f = filled(s, width);
        assert(s =~= f.take(s.len() as int)) by {
            assert(t =~= f.take(t.len() as int));
        }
        assert(f[s.len() as int] == t[s.len() as int]);
    } else {
        assert(s =~= s.take(s.len() as int));
    }
}

/// The line of a record begins with its time.
pub proof fn law_line_begins_with_the_time(r: RecordView)
    ensures
        r.timestamp.is_prefix_of(line_of(r)),
{
    law_filled(r.timestamp, 25);
    let t = r.timestamp;
    let f = filled(t, 25);
    let l = line_of(r);
    assert(f =~= l.take(f.len() as int));
    assert(t =~= l.take(t.len() as int)) by {
        assert(t =~= f.take(t.len() as int));
    }
}

/// The index entries of one user are not among those of another, where the
/// names of both hold no colon.
pub proof fn law_users_do_not_mix(
    user: Seq<char>,
    other: Seq<char>,
    ts: u64,
    request_id: Seq<char>,
)
    requires
        !encode_utf8(user).contains(0x3a),
        !encode_utf8(other).contains(0x3a),
        user_prefix(user).is_prefix_of(user_key(other, ts, request_id)),
    ensures
        encode_utf8(user) == encode_utf8(other),
{
    reveal_strlit(":");
    is_ascii_chars_encode_utf8(":"@);
    let head = encode_utf8("index:user:"@);
    let a = encode_utf8(user);
    let b = encode_utf8(other);
    let p = user_prefix(user);
    let k = user_key(other, ts, request_id);
    assert(encode_utf8(":"@)[0] == 0x3a);
    assert forall|i: int| 0 <= i < p.len() implies p[i] == k[i] by {
        assert(k.subrange(0, p.len() as int)[i] == k[i]);
    }
    assert(p[(head.len() + a.len()) as int] == 0x3a);
    assert(k[(head.len() + b.len()) as int] == 0x3a);
    if a.len() < b.len() {
        assert(k[(head.len() + a.len()) as int] == b[a.len() as int]);
        assert(b.contains(0x3a));
    }
    if a.len() > b.len() {
        assert(p[(head.len() + b.len()) as int] == a[b.len() as int]);
        assert(a.contains(0x3a));
    }
    assert forall|i: int| 0 <= i < a.len() implies a[i] == b[i] by {
        assert(p[head.len() + i] == a[i]);
        assert(k[head.len() + i] == b[i]);
    }
    assert(a =~= b);
}

/// A search shows just the records that it asks for, counts each that it shows,
/// stops when it has shown as many as it may, and, without a user, stops at the
/// first record behind its end.
pub proof fn law_what_a_search_shows(
    s: Search,
    count: usize,
    record: Option<AuditRecord>,
    r: Shown,
)
    requires
        count < usize::MAX,
        call_ensures(Search::look, (&s, count, &record), r),
    ensures
        r.show ==> record is Some && s@.wants(record->0@),
        r.show ==> r.count == count + 1,
        !r.show ==> r.count == count,
        r.count >= s.limit ==> r.stop,
        record matches Some(x) ==> s@.wants(x@) && (s.user is Some || x.timestamp_ms <= s.end_ms)
            ==> r.show,
        record matches Some(x) ==> s.user is None && x.timestamp_ms > s.end_ms ==> r.stop && !r.show,
        record is None ==> !r.show,
{
}

/// A search looks at every entry of its user that is in time, and goes no
/// further once an entry lies behind its end; an entry of another kind ends it.
pub proof fn law_what_a_search_visits(
    s: Search,
    user: String,
    key: Vec<u8>,
    ts: u64,
    request_id: Seq<char>,
    r: Visit,
)
    requires
        call_ensures(Search::visit, (&s, &key), r),
        encode_utf8(request_id).len() == 36,
    ensures
        s.user == Some(user) && key@ == user_key(user@, ts, request_id) ==> r == if ts > s.end_ms {
            Visit::Stop
        } else {
            Visit::Look
        },
        s.user is None && key@ == record_key(ts, request_id) ==> r == Visit::Look,
        s.user is None && !encode_utf8("audit:"@).is_prefix_of(key@) ==> r == Visit::Stop,
        s.user == Some(user) && !user_prefix(user@).is_prefix_of(key@) ==> r == Visit::Stop,
{
    law_index_has_prefix(user@, ts, request_id);
    law_index_keeps_time(user@, ts, request_id, 0);
    let p = encode_utf8("audit:"@);
    assert(record_key(ts, request_id).subrange(0, p.len() as int) =~= p);
}

/// The columns of a line stand under those of the heading: the user, or what
/// follows the last colon of the role, from the 27th place on, then the action,
/// what follows the last colon of the resource, the status and the duration.
pub proof fn law_line_has_columns(r: RecordView, user: Seq<char>)
    requires
        user == if r.role_arn is Some {
            after_last(r.role_arn->0, ':')
        } else {
            r.user_id
        },
        r.timestamp.len() <= 25,
        user.len() <= 15,
        r.action.len() <= 15,
        after_last(r.resource, ':').len() <= 20,
        decimal(r.status_code as nat).len() <= 10,
    ensures
        line_of(r).len() >= 100,
        line_of(r).subrange(26, 26int + user.len()) == user,
        line_of(r).subrange(42, 42int + r.action.len()) == r.action,
        line_of(r).subrange(58, 58int + after_last(r.resource, ':').len()) == after_last(
            r.resource,
            ':',
        ),
        line_of(r).subrange(79, 79int + decimal(r.status_code as nat).len()) == decimal(
            r.status_code as nat,
        ),
        r.duration_ms is None ==> line_of(r)[90] == '-',
        r.duration_ms matches Some(d) ==> (decimal(d as nat) + "ms"@).is_prefix_of(
            line_of(r).skip(90),
        ),
{
    reveal_strlit(" ");
    reveal_strlit("-");
    let l = line_of(r);
    let res = after_last(r.resource, ':');
    let st = decimal(r.status_code as nat);
    let du = match r.duration_ms {
        Some(d) => decimal(d as nat) + "ms"@,
        None => "-"@,
    };
    law_filled(r.timestamp, 25);
    law_filled(user, 15);
    law_filled(r.action, 15);
    law_filled(res, 20);
    law_filled(st, 10);
    law_filled(du, 10);
    let a = filled(r.timestamp, 25);
    let b = filled(user, 15);
    let c = filled(r.action, 15);
    let d = filled(res, 20);
    let e = filled(st, 10);
    let f = filled(du, 10);
    assert(l == a + " "@ + b + " "@ + c + " "@ + d + " "@ + e + " "@ + f);
    assert(l.subrange(26, 26int + user.len()) =~= b.take(user.len() as int));
    assert(b.take(user.len() as int) =~= user);
    assert(l.subrange(42, 42int + r.action.len()) =~= c.take(r.action.len() as int));
    assert(c.take(r.action.len() as int) =~= r.action);
    assert(l.subrange(58, 58int + res.len()) =~= d.take(res.len() as int));
    assert(d.take(res.len() as int) =~= res);
    assert(l.subrange(79, 79int + st.len()) =~= e.take(st.len() as int));
    assert(e.take(st.len() as int) =~= st);
    assert(l.skip(90) =~= f);
    assert(f.take(du.len() as int) =~= du);
    if r.duration_ms is None {
        assert(l[90] == f[0] && f[0] == f.take(1)[0]);
    }
}

/// Cleaning up deletes a range that holds just the records from before the last
/// days that are kept, and just the index entries that tell such a time.
pub proof fn law_cleaning_up(
    now: Moment,
    days: u32,
    keys: Vec<Vec<u8>>,
    r: Option<Cleanup>,
    ts: u64,
    request_id: Seq<char>,
    k: Seq<u8>,
)
    requires
        86400 * days <= now.secs <= 8_210_266_876_799,
        now.nanos < 1_000_000_000,
        call_ensures(cleanup_at, (&now, days, &keys), r),
    ensures
        ({
            let limit = now.secs * 1000 + now.nanos as int / 1_000_000 - days * 86_400_000;
            &&& r matches Some(c)
            &&& !bytes_lt(record_key(ts, request_id), c.from@)
            &&& bytes_lt(record_key(ts, request_id), c.to@) <==> ts < limit
            &&& c.keys.deep_view().contains(k) <==> keys.deep_view().contains(k) && (key_time(k)
                matches Some(t) && t < limit)
        }),
{
    let limit = cutoff(now@, days)->0;
    law_cutoff_is_days_ago(now@, days);
    assert(0 <= limit <= u64::MAX);
    law_cleanup_range(ts, request_id, limit as u64);
    law_what_expires(keys.deep_view(), limit as u64, k);
}

/// A search without a bound is open on that side; a bound that is no moment is
/// none at all.
pub proof fn law_bounds(text: Option<String>, open: u64, r: Option<u64>)
    requires
        call_ensures(time_bound, (&text, open), r),
    ensures
        text is None ==> r == Some(open),
        text matches Some(t) ==> (r is Some <==> rfc3339_moment(t@) is Some),
        text matches Some(t) ==> rfc3339_moment(t@) matches Some(m) ==> r == Some(millis_of(m)),
{
}

} // verus!
