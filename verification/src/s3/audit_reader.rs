//! Reading the audit log: which entries a search visits, which records it
//! shows, and how a record is shown.

use crate::bytes::{be_digits, to_be};
use crate::parse::{after_last, last_part};
use crate::s3::audit::{
    append, bytes_of, key_time, make_user_prefix, read_key_time, user_prefix, AuditRecord,
    RecordView,
};
use crate::s3::outside::{millis_of, moment_millis, read_rfc3339, rfc3339_moment};
use crate::text::{chars_of, concat, decimal, decimal_text, text_eq};
use vstd::prelude::*;
use vstd::string::*;
use vstd::utf8::*;

verus! {

/// What a search of the log asks for.
#[derive(Debug)]
pub struct Search {
    pub user: Option<String>,
    pub action: Option<String>,
    pub status: Option<u16>,
    pub start_ms: u64,
    pub end_ms: u64,
    pub limit: usize,
}

/// What a search stands for.
pub struct SearchView {
    pub user: Option<Seq<char>>,
    pub action: Option<Seq<char>>,
    pub status: Option<u16>,
    pub start_ms: u64,
    pub end_ms: u64,
    pub limit: usize,
}

impl View for Search {
    type V = SearchView;

    open spec fn view(&self) -> SearchView {
        SearchView {
            user: self.user.deep_view(),
            action: self.action.deep_view(),
            status: self.status,
            start_ms: self.start_ms,
            end_ms: self.end_ms,
            limit: self.limit,
        }
    }
}

/// The bound that a text sets, `open` where there is none; nothing where the
/// text is no moment.
pub open spec fn bound_of(text: Option<Seq<char>>, open: u64) -> Option<u64> {
    match text {
        Some(t) => match rfc3339_moment(t) {
            Some(m) => Some(millis_of(m)),
            None => None,
        },
        None => Some(open),
    }
}

/// The bound of a search in milliseconds since the epoch.
pub fn time_bound(text: &Option<String>, open: u64) -> (r: Option<u64>)
    ensures
        r == bound_of(text.deep_view(), open),
{
    match text {
        Some(t) => match read_rfc3339(t.as_str()) {
            Some(m) => Some(moment_millis(&m)),
            None => None,
        },
        None => Some(open),
    }
}

impl SearchView {
    /// The record is one that the search asks for, apart from its time.
    pub open spec fn wants(self, r: RecordView) -> bool {
        &&& (self.user matches Some(u) ==> r.user_id == u)
        &&& (self.action matches Some(a) ==> r.action == a)
        &&& (self.status matches Some(s) ==> r.status_code == s)
    }

    /// What the keys that a search visits begin with.
    pub open spec fn key_prefix(self) -> Seq<u8> {
        match self.user {
            Some(u) => user_prefix(u),
            None => encode_utf8("audit:"@),
        }
    }

    /// The key from which on a search visits the entries.
    pub open spec fn first_key(self) -> Seq<u8> {
        if self.user is Some && self.start_ms == 0 {
            self.key_prefix()
        } else {
            self.key_prefix() + be_digits(self.start_ms as nat, 8)
        }
    }
}

/// What a search does at an entry.
#[derive(Debug, Clone, Copy, PartialEq, Eq, Structural)]
pub enum Visit {
    /// The entry lies behind those that the search asks for
    Stop,
    /// The key holds no time
    Malformed,
    /// The record is to be looked at
    Look,
}

/// What a search does with a record.
#[derive(Debug, Clone, Copy, PartialEq, Eq, Structural)]
pub struct Shown {
    /// The record is shown
    pub show: bool,
    /// How many records were shown
    pub count: usize,
    /// Enough were shown
    pub stop: bool,
}

impl Search {
    /// Whether a record is one that the search asks for, apart from its time.
    pub fn filter_record(&self, record: &AuditRecord) -> (r: bool)
        ensures
            r == self@.wants(record@),
    {
        if let Some(u) = &self.user {
            if !text_eq(record.user_id.as_str(), u.as_str()) {
                return false;
            }
        }
        if let Some(a) = &self.action {
            if !text_eq(record.action.as_str(), a.as_str()) {
                return false;
            }
        }
        if let Some(s) = self.status {
            if record.status_code != s {
                return false;
            }
        }
        true
    }

    /// What the keys that the search visits begin with.
    pub fn prefix(&self) -> (r: Vec<u8>)
        ensures
            r@ == self@.key_prefix(),
    {
        match &self.user {
            Some(u) => make_user_prefix(u.as_str()),
            None => bytes_of("audit:"),
        }
    }

    /// The key from which on the search visits the entries.
    pub fn start_key(&self) -> (r: Vec<u8>)
        ensures
            r@ == self@.first_key(),
    {
        let mut key = self.prefix();
        if self.user.is_none() || self.start_ms > 0 {
            let t = to_be(self.start_ms);
            append(&mut key, t.as_slice());
        }
        key
    }

    /// What the search does at the entry with the given key. Of an index
    /// entry it looks at the time in the key, before the record is read.
    pub fn visit(&self, key: &Vec<u8>) -> (r: Visit)
        ensures
            r == if !self@.key_prefix().is_prefix_of(key@) {
                Visit::Stop
            } else if self@.user is None {
                Visit::Look
            } else {
                match key_time(key@) {
                    None => Visit::Malformed,
                    Some(t) => if t > self.end_ms {
                        Visit::Stop
                    } else {
                        Visit::Look
                    },
                }
            },
    {
        let prefix = self.prefix();
        if !begins_with(key, &prefix) {
            return Visit::Stop;
        }
        if self.user.is_none() {
            return Visit::Look;
        }
        match read_key_time(key) {
            None => Visit::Malformed,
            Some(t) => if t > self.end_ms {
                Visit::Stop
            } else {
                Visit::Look
            },
        }
    }

    /// What the search does with the record of an entry that it looks at,
    /// after `count` records were shown. The record of an index entry may be
    /// gone.
    pub fn look(&self, count: usize, record: &Option<AuditRecord>) -> (r: Shown)
        requires
            count < usize::MAX,
        ensures
            r == if self@.user is None && record is Some && record->0@.timestamp_ms > self.end_ms {
                Shown { show: false, count, stop: true }
            } else {
                let show = record is Some && self@.wants(record->0@);
                let n: usize = if show {
                    (count + 1) as usize
                } else {
                    count
                };
                Shown { show, count: n, stop: n >= self.limit }
            },
    {
        let mut n: usize = count;
        let mut show = false;
        if let Some(e) = record {
            if self.user.is_none() && e.timestamp_ms > self.end_ms {
                return Shown { show: false, count, stop: true };
            }
            if self.filter_record(e) {
                show = true;
                n = count + 1;
            }
        }
        Shown { show, count: n, stop: n >= self.limit }
    }
}

fn begins_with(key: &Vec<u8>, prefix: &Vec<u8>) -> (r: bool)
    ensures
        r == prefix@.is_prefix_of(key@),
{
    if key.len() < prefix.len() {
        return false;
    }
    let mut i: usize = 0;
    while i < prefix.len()
        invariant
            i <= prefix@.len() <= key@.len(),
            forall|j: int| 0 <= j < i ==> prefix@[j] == key@[j],
        decreases prefix@.len() - i,
    {
        if key[i] != prefix[i] {
            assert(key@.subrange(0, prefix@.len() as int)[i as int] == key@[i as int]);
            return false;
        }
        i += 1;
    }
    assert(prefix@ =~= key@.subrange(0, prefix@.len() as int));
    true
}

/// A text filled up with spaces to a width.
pub open spec fn filled(s: Seq<char>, width: nat) -> Seq<char>
    decreases width - s.len(),
{
    if s.len() >= width {
        s
    } else {
        filled(s.push(' '), width)
    }
}

/// A text filled up with spaces to a width.
pub fn fill(s: &str, width: usize) -> (r: String)
    ensures
        r@ == filled(s@, width as nat),
{
    let mut r = s.to_owned();
    let v = chars_of(s);
    let mut n: usize = v.len();
    while n < width
        invariant
            r@.len() == n,
            filled(r@, width as nat) == filled(s@, width as nat),
        decreases width - n,
    {
        r.push(' ');
        n += 1;
    }
    r
}

/// Six columns, filled up, with a space between two.
pub open spec fn columns(
    a: Seq<char>,
    b: Seq<char>,
    c: Seq<char>,
    d: Seq<char>,
    e: Seq<char>,
    f: Seq<char>,
) -> Seq<char> {
    filled(a, 25) + " "@ + filled(b, 15) + " "@ + filled(c, 15) + " "@ + filled(d, 20) + " "@
        + filled(e, 10) + " "@ + filled(f, 10)
}

fn columns_text(a: &str, b: &str, c: &str, d: &str, e: &str, f: &str) -> (r: String)
    ensures
        r@ == columns(a@, b@, c@, d@, e@, f@),
{
    let mut r = fill(a, 25);
    r.append(" ");
    r.append(fill(b, 15).as_str());
    r.append(" ");
    r.append(fill(c, 15).as_str());
    r.append(" ");
    r.append(fill(d, 20).as_str());
    r.append(" ");
    r.append(fill(e, 10).as_str());
    r.append(" ");
    r.append(fill(f, 10).as_str());
    r
}

/// The heading over the records.
pub fn heading() -> (r: String)
    ensures
        r@ == columns("Timestamp"@, "User"@, "Action"@, "Resource"@, "Status"@, "Duration"@),
{
    columns_text("Timestamp", "User", "Action", "Resource", "Status", "Duration")
}

/// A record as a line: of its role or else its user, and of its resource, what
/// follows the last colon.
pub open spec fn line_of(r: RecordView) -> Seq<char> {
    columns(
        r.timestamp,
        match r.role_arn {
            Some(role) => after_last(role, ':'),
            None => r.user_id,
        },
        r.action,
        after_last(r.resource, ':'),
        decimal(r.status_code as nat),
        match r.duration_ms {
            Some(d) => decimal(d as nat) + "ms"@,
            None => "-"@,
        },
    )
}

/// A record as a line.
pub fn print_record(record: &AuditRecord) -> (r: String)
    ensures
        r@ == line_of(record@),
{
    let user: String = match &record.role_arn {
        Some(role) => last_part(role.as_str(), ':'),
        None => record.user_id.clone(),
    };
    let resource = last_part(record.resource.as_str(), ':');
    let status = decimal_text(record.status_code as u64);
    let duration: String = match record.duration_ms {
        Some(d) => {
            let n = decimal_text(d);
            concat(n.as_str(), "ms")
        },
        None => "-".to_owned(),
    };
    columns_text(
        record.timestamp.as_str(),
        user.as_str(),
        record.action.as_str(),
        resource.as_str(),
        status.as_str(),
        duration.as_str(),
    )
}

} // verus!
