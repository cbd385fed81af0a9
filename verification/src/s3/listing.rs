//! Listing buckets and the objects in them.

use crate::parse::{cut_at, cut_first, part_of, trim_both, trim_char};
use crate::s3::types::{
    Bucket, Buckets, CommonPrefix, ListAllMyBucketsResult, ListBucketResult, ListBucketResultV2,
    Object, ObjectView, Owner,
};
use crate::sorting::{sort_texts, sorted_texts};
use crate::text::{
    chars_of, concat, concat3, ends_with, find_in, lists, occurs, occurs_at, starts_with, string_of,
    text_before, text_lt,
};
use vstd::prelude::*;
use vstd::string::*;

verus! {

/// The bucket that a path belongs to: its first component; nothing for a path
/// of slashes.
pub open spec fn bucket_of(path: Seq<char>) -> Seq<char> {
    let clean = trim_both(path, '/');
    match cut_first(clean, '/') {
        Some(p) => p.0,
        None => clean,
    }
}

/// The buckets of paths, each once, in the order in which they appear.
pub open spec fn bucket_names(paths: Seq<Seq<char>>) -> Seq<Seq<char>>
    decreases paths.len(),
{
    if paths.len() == 0 {
        Seq::empty()
    } else {
        let rest = bucket_names(paths.drop_last());
        let b = bucket_of(paths.last());
        if b.len() == 0 || rest.contains(b) {
            rest
        } else {
            rest.push(b)
        }
    }
}

fn find_bucket(path: &str) -> (r: String)
    ensures
        r@ == bucket_of(path@),
{
    let clean = trim_char(path, '/');
    match cut_at(clean.as_str(), '/') {
        Some(p) => p.0,
        None => clean,
    }
}

/// The date that is given for everything.
pub open spec fn fixed_date() -> Seq<char> {
    "2025-01-01T00:00:00.000Z"@
}

/// The answer to a request for all buckets.
pub fn list_buckets(paths: &Vec<String>) -> (r: ListAllMyBucketsResult)
    ensures
        r.owner.id@ == "dfs"@,
        r.owner.display_name@ == "dfs"@,
        r.buckets.bucket.deep_view() == bucket_names(paths.deep_view()).map_values(
            |n: Seq<char>| (n, fixed_date()),
        ),
{
    let ghost ps = paths.deep_view();
    let mut names: Vec<String> = Vec::new();
    let mut i: usize = 0;
    assert(ps.take(0) =~= Seq::<Seq<char>>::empty());
    assert(names.deep_view() =~= Seq::<Seq<char>>::empty());
    while i < paths.len()
        invariant
            i <= paths@.len(),
            ps == paths.deep_view(),
            names.deep_view() == bucket_names(ps.take(i as int)),
        decreases paths@.len() - i,
    {
        let ghost nv = names.deep_view();
        proof {
            assert(ps.take(i as int + 1).drop_last() =~= ps.take(i as int));
            assert(ps.take(i as int + 1).last() == ps[i as int]);
            assert(ps[i as int] == paths@[i as int]@);
        }
        let b = find_bucket(paths[i].as_str());
        if !b.as_str().is_empty() && !lists(&names, b.as_str()) {
            names.push(b);
            assert(names.deep_view() =~= nv.push(b@));
        }
        i += 1;
    }
    assert(ps.take(ps.len() as int) =~= ps);
    let ghost all = bucket_names(ps);
    let ghost want = all.map_values(|n: Seq<char>| (n, fixed_date()));
    let mut bucket: Vec<Bucket> = Vec::new();
    let mut k: usize = 0;
    while k < names.len()
        invariant
            k <= names@.len(),
            names.deep_view() == all,
            want == all.map_values(|n: Seq<char>| (n, fixed_date())),
            bucket@.len() == k,
            forall|j: int| 0 <= j < k ==> (#[trigger] bucket@[j])@ == want[j],
        decreases names@.len() - k,
    {
        assert(all[k as int] == names@[k as int]@);
        bucket.push(
            Bucket {
                name: names[k].clone(),
                creation_date: "2025-01-01T00:00:00.000Z".to_owned(),
            },
        );
        k += 1;
    }
    assert(bucket.deep_view() =~= want);
    ListAllMyBucketsResult {
        owner: Owner { id: "dfs".to_owned(), display_name: "dfs".to_owned() },
        buckets: Buckets { bucket },
    }
}

/// Files that stand for something else than an object.
pub open spec fn is_hidden(f: Seq<char>) -> bool {
    ".s3keep"@.is_suffix_of(f) || ".s3_mpu_completed"@.is_suffix_of(f) || ".meta"@.is_suffix_of(f)
}

/// The text without `t` at its end, however often it stands there.
pub open spec fn strip_ends(s: Seq<char>, t: Seq<char>) -> Seq<char>
    decreases s.len(),
{
    if t.len() > 0 && t.is_suffix_of(s) {
        strip_ends(s.take(s.len() - t.len()), t)
    } else {
        s
    }
}

/// The object that a completion marker stands for.
pub open spec fn upload_of(f: Seq<char>) -> Seq<char> {
    strip_ends(trim_both(f, '/'), "/.s3_mpu_completed"@)
}

/// The objects that were uploaded in parts, each once, in the order in which
/// their markers appear.
pub open spec fn uploads(files: Seq<Seq<char>>) -> Seq<Seq<char>>
    decreases files.len(),
{
    if files.len() == 0 {
        Seq::empty()
    } else {
        let rest = uploads(files.drop_last());
        let u = upload_of(files.last());
        if ".s3_mpu_completed"@.is_suffix_of(files.last()) && !rest.contains(u) {
            rest.push(u)
        } else {
            rest
        }
    }
}

/// The path without trailing slashes and components `.`.
pub open spec fn tidy_end(s: Seq<char>) -> Seq<char>
    decreases s.len(),
{
    if s.len() >= 1 && s.last() == '/' {
        tidy_end(s.drop_last())
    } else if s.len() >= 2 && s.last() == '.' && s[s.len() - 2] == '/' {
        tidy_end(s.drop_last().drop_last())
    } else {
        s
    }
}

/// The text up to the last slash, without it; nothing where there is none.
pub open spec fn up_to_last_slash(s: Seq<char>) -> Seq<char>
    decreases s.len(),
{
    if s.len() == 0 {
        s
    } else if s.last() == '/' {
        s.drop_last()
    } else {
        up_to_last_slash(s.drop_last())
    }
}

/// The directory of a relative path, nothing for an empty path.
pub open spec fn parent_dir(s: Seq<char>) -> Option<Seq<char>> {
    let t = tidy_end(s);
    if t.len() == 0 {
        None
    } else {
        Some(tidy_end(up_to_last_slash(t)))
    }
}

/// The end of the path without trailing slashes and components `.`.
fn find_tidy_end(v: &Vec<char>, n: usize) -> (r: usize)
    requires
        n <= v@.len(),
    ensures
        r <= n,
        v@.take(r as int) == tidy_end(v@.take(n as int)),
    decreases n,
{
    let ghost s = v@.take(n as int);
    proof {
        if n >= 1 {
            assert(s.last() == v@[n - 1]);
            assert(s.drop_last() =~= v@.take(n - 1));
        }
        if n >= 2 {
            assert(s[s.len() - 2] == v@[n - 2]);
            assert(s.drop_last().drop_last() =~= v@.take(n - 2));
        }
    }
    if n >= 1 && v[n - 1] == '/' {
        find_tidy_end(v, n - 1)
    } else if n >= 2 && v[n - 1] == '.' && v[n - 2] == '/' {
        find_tidy_end(v, n - 2)
    } else {
        n
    }
}

/// The end of the text up to the last slash, without it.
fn find_last_slash(v: &Vec<char>, n: usize) -> (r: usize)
    requires
        n <= v@.len(),
    ensures
        r <= n,
        v@.take(r as int) == up_to_last_slash(v@.take(n as int)),
    decreases n,
{
    if n == 0 {
        return 0;
    }
    proof {
        let s = v@.take(n as int);
        assert(s.last() == v@[n - 1]);
        assert(s.drop_last() =~= v@.take(n - 1));
    }
    if v[n - 1] == '/' {
        n - 1
    } else {
        find_last_slash(v, n - 1)
    }
}

/// The directory of a relative path.
pub fn parent_of(s: &str) -> (r: Option<String>)
    ensures
        r.deep_view() == parent_dir(s@),
{
    let v = chars_of(s);
    assert(v@.take(v@.len() as int) =~= v@);
    let n: usize = find_tidy_end(&v, v.len());
    if n == 0 {
        return None;
    }
    let m: usize = find_last_slash(&v, n);
    let k: usize = find_tidy_end(&v, m);
    assert(v@.subrange(0, k as int) =~= v@.take(k as int));
    Some(part_of(&v, 0, k))
}

fn find_upload(f: &str) -> (r: String)
    ensures
        r@ == upload_of(f@),
{
    let clean = trim_char(f, '/');
    let mut v = chars_of(clean.as_str());
    let t = chars_of("/.s3_mpu_completed");
    proof {
        reveal_strlit("/.s3_mpu_completed");
    }
    let ghost mark = t@;
    while v.len() >= t.len() && crate::text::matches_at(&v, &t, v.len() - t.len())
        invariant
            t@ == mark,
            mark.len() == 18,
            strip_ends(clean@, mark) == strip_ends(v@, mark),
        decreases v@.len(),
    {
        let n: usize = v.len() - t.len();
        let ghost before = v@;
        v.truncate(n);
        assert(v@ =~= before.take(before.len() - mark.len()));
    }
    string_of(v.as_slice())
}

fn list_uploads(files: &Vec<String>) -> (r: Vec<String>)
    ensures
        r.deep_view() == uploads(files.deep_view()),
{
    let ghost fs = files.deep_view();
    let mut r: Vec<String> = Vec::new();
    let mut i: usize = 0;
    assert(fs.take(0) =~= Seq::<Seq<char>>::empty());
    assert(r.deep_view() =~= Seq::<Seq<char>>::empty());
    while i < files.len()
        invariant
            i <= files@.len(),
            fs == files.deep_view(),
            r.deep_view() == uploads(fs.take(i as int)),
        decreases files@.len() - i,
    {
        let ghost rv = r.deep_view();
        proof {
            assert(fs.take(i as int + 1).drop_last() =~= fs.take(i as int));
            assert(fs.take(i as int + 1).last() == fs[i as int]);
            assert(fs[i as int] == files@[i as int]@);
        }
        if ends_with(files[i].as_str(), ".s3_mpu_completed") {
            let u = find_upload(files[i].as_str());
            if !lists(&r, u.as_str()) {
                r.push(u);
                assert(r.deep_view() =~= rv.push(u@));
            }
        }
        i += 1;
    }
    assert(fs.take(fs.len() as int) =~= fs);
    r
}

/// What a file contributes to a listing.
pub enum Entry {
    /// Nothing
    Nothing,
    /// A common prefix
    Prefix(Seq<char>),
    /// An object
    Key(Seq<char>),
}

/// The first position of `t` in `s`.
pub open spec fn first_at(s: Seq<char>, t: Seq<char>) -> int {
    choose|i: int|
        occurs_at(s, t, i) && forall|j: int| 0 <= j < i ==> !#[trigger] occurs_at(s, t, j)
}

/// What a key contributes: nothing if it is not under the prefix that was asked
/// for; the part up to the delimiter if that follows the prefix; else itself.
pub open spec fn key_entry(
    key: Seq<char>,
    prefix: Option<Seq<char>>,
    delimiter: Option<Seq<char>>,
) -> Entry {
    let p = match prefix {
        Some(p) => p,
        None => Seq::empty(),
    };
    if !p.is_prefix_of(key) {
        Entry::Nothing
    } else {
        match delimiter {
            Some(d) => {
                let rest = key.skip(p.len() as int);
                if occurs(rest, d) {
                    Entry::Prefix(key.take(p.len() + first_at(rest, d) + d.len()))
                } else {
                    Entry::Key(key)
                }
            },
            None => Entry::Key(key),
        }
    }
}

/// What a file contributes to the listing of a bucket.
#[verifier::opaque]
pub open spec fn file_entry(
    f: Seq<char>,
    bucket: Seq<char>,
    prefix: Option<Seq<char>>,
    delimiter: Option<Seq<char>>,
) -> Entry {
    let home = "/"@ + bucket + "/"@;
    if is_hidden(f) || !home.is_prefix_of(f) {
        Entry::Nothing
    } else {
        key_entry(f.skip(home.len() as int), prefix, delimiter)
    }
}

/// The file is a part of an object that was uploaded in parts.
pub open spec fn is_part(f: Seq<char>, ups: Seq<Seq<char>>) -> bool {
    match parent_dir(trim_both(f, '/')) {
        Some(p) => ups.contains(p),
        None => false,
    }
}

/// An object as it is listed.
pub open spec fn listed(key: Seq<char>, etag: Seq<char>) -> ObjectView {
    ObjectView {
        key,
        last_modified: fixed_date(),
        etag,
        size: 0,
        storage_class: "STANDARD"@,
        owner_id: "dfs"@,
        owner_name: "dfs"@,
    }
}

/// A listing so far.
#[verifier::ext_equal]
pub struct Listing {
    pub objects: Seq<ObjectView>,
    pub prefixes: Seq<Seq<char>>,
}

impl Listing {
    /// The listing with one more entry; a common prefix counts once.
    pub open spec fn with(self, e: Entry) -> Listing {
        match e {
            Entry::Nothing => self,
            Entry::Prefix(p) => if self.prefixes.contains(p) {
                self
            } else {
                Listing { prefixes: self.prefixes.push(p), ..self }
            },
            Entry::Key(k) => Listing {
                objects: self.objects.push(listed(k, "\"000\""@)),
                ..self
            },
        }
    }
}

/// The files of a bucket, listed; parts of uploads are left out.
pub open spec fn listed_files(
    files: Seq<Seq<char>>,
    ups: Seq<Seq<char>>,
    bucket: Seq<char>,
    prefix: Option<Seq<char>>,
    delimiter: Option<Seq<char>>,
) -> Listing
    decreases files.len(),
{
    if files.len() == 0 {
        Listing { objects: Seq::empty(), prefixes: Seq::empty() }
    } else {
        let rest = listed_files(files.drop_last(), ups, bucket, prefix, delimiter);
        if is_part(files.last(), ups) {
            rest
        } else {
            rest.with(file_entry(files.last(), bucket, prefix, delimiter))
        }
    }
}

/// The objects of a bucket that were uploaded in parts.
pub open spec fn listed_uploads(
    ups: Seq<Seq<char>>,
    bucket: Seq<char>,
    prefix: Option<Seq<char>>,
) -> Seq<ObjectView>
    decreases ups.len(),
{
    if ups.len() == 0 {
        Seq::empty()
    } else {
        let rest = listed_uploads(ups.drop_last(), bucket, prefix);
        let home = bucket + "/"@;
        let key = ups.last().skip(home.len() as int);
        let wanted = match prefix {
            Some(p) => p.is_prefix_of(key),
            None => true,
        };
        if home.is_prefix_of(ups.last()) && wanted {
            rest.push(listed(key, "\"000-MPU\""@))
        } else {
            rest
        }
    }
}

/// What a file contributes to a listing.
#[derive(Debug)]
enum Found {
    Nothing,
    Prefix(String),
    Key(String),
}

impl View for Found {
    type V = Entry;

    closed spec fn view(&self) -> Entry {
        match self {
            Found::Nothing => Entry::Nothing,
            Found::Prefix(p) => Entry::Prefix(p@),
            Found::Key(k) => Entry::Key(k@),
        }
    }
}

fn find_entry(
    f: &str,
    bucket: &str,
    prefix: &Option<String>,
    delimiter: &Option<String>,
) -> (r: Found)
    ensures
        r@ == file_entry(f@, bucket@, prefix.deep_view(), delimiter.deep_view()),
{
    proof {
        reveal(file_entry);
    }
    if ends_with(f, ".s3keep") || ends_with(f, ".s3_mpu_completed") || ends_with(f, ".meta") {
        return Found::Nothing;
    }
    let home = concat3("/", bucket, "/");
    if !starts_with(f, home.as_str()) {
        return Found::Nothing;
    }
    let v = chars_of(f);
    let h = chars_of(home.as_str());
    let key = part_of(&v, h.len(), v.len());
    assert(key@ =~= f@.skip(home@.len() as int));
    let empty = String::new();
    let p: &String = match prefix {
        Some(p) => p,
        None => &empty,
    };
    let ghost pv = match prefix.deep_view() {
        Some(p) => p,
        None => Seq::<char>::empty(),
    };
    assert(p@ =~= pv);
    if !starts_with(key.as_str(), p.as_str()) {
        return Found::Nothing;
    }
    match delimiter {
        Some(d) => {
            let kc = chars_of(key.as_str());
            let pc = chars_of(p.as_str());
            let dc = chars_of(d.as_str());
            let rest_text = part_of(&kc, pc.len(), kc.len());
            let rest = chars_of(rest_text.as_str());
            assert(rest@ =~= key@.skip(p@.len() as int));
            match find_in(&rest, &dc) {
                Some(i) => {
                    proof {
                        assert(occurs_at(rest@, d@, i as int));
                        assert(occurs(rest@, d@));
                        let k = first_at(rest@, d@);
                        assert(k == i) by {
                            if k < i {
                                assert(!occurs_at(rest@, d@, k));
                            } else if i < k {
                                assert(!occurs_at(rest@, d@, i as int));
                            }
                        }
                    }
                    let end: usize = pc.len() + i + dc.len();
                    let common = part_of(&kc, 0, end);
                    assert(common@ =~= key@.take(p@.len() + i + d@.len()));
                    Found::Prefix(common)
                },
                None => Found::Key(key),
            }
        },
        None => Found::Key(key),
    }
}

fn make_object(key: String, etag: &str) -> (r: Object)
    ensures
        r@ == listed(key@, etag@),
{
    Object {
        key,
        last_modified: "2025-01-01T00:00:00.000Z".to_owned(),
        etag: etag.to_owned(),
        size: 0,
        storage_class: "STANDARD".to_owned(),
        owner: Owner { id: "dfs".to_owned(), display_name: "dfs".to_owned() },
    }
}

/// Whether a common prefix is listed already.
fn has_prefix(prefixes: &Vec<CommonPrefix>, p: &str) -> (r: bool)
    ensures
        r == prefixes.deep_view().contains(p@),
{
    let mut i: usize = 0;
    while i < prefixes.len()
        invariant
            i <= prefixes@.len(),
            forall|j: int| 0 <= j < i ==> (#[trigger] prefixes.deep_view()[j]) != p@,
        decreases prefixes@.len() - i,
    {
        if crate::text::text_eq(prefixes[i].prefix.as_str(), p) {
            assert(prefixes.deep_view()[i as int] == p@);
            return true;
        }
        i += 1;
    }
    false
}

/// Adds an entry to a listing.
fn add_entry(e: Found, objects: &mut Vec<Object>, prefixes: &mut Vec<CommonPrefix>)
    ensures
        ({
            let before = Listing {
                objects: old(objects).deep_view(),
                prefixes: old(prefixes).deep_view(),
            };
            let after = Listing {
                objects: final(objects).deep_view(),
                prefixes: final(prefixes).deep_view(),
            };
            after == before.with(e@)
        }),
{
    let ghost ov = objects.deep_view();
    let ghost pv = prefixes.deep_view();
    match e {
        Found::Nothing => {},
        Found::Prefix(p) => {
            if !has_prefix(prefixes, p.as_str()) {
                let c = CommonPrefix { prefix: p };
                prefixes.push(c);
                assert(prefixes.deep_view() =~= pv.push(c@));
            }
        },
        Found::Key(k) => {
            let o = make_object(k, "\"000\"");
            objects.push(o);
            assert(objects.deep_view() =~= ov.push(o@));
        },
    }
}

/// The text, or nothing.
fn text_or_none(o: &Option<String>) -> (r: String)
    ensures
        r@ == match o.deep_view() {
            Some(t) => t,
            None => Seq::empty(),
        },
{
    match o {
        Some(t) => t.clone(),
        None => String::new(),
    }
}

/// The answer to a request for the objects of a bucket.
pub fn list_objects(
    files: &Vec<String>,
    bucket: &str,
    prefix: &Option<String>,
    delimiter: &Option<String>,
) -> (r: ListBucketResult)
    ensures
        r.name@ == bucket@,
        r.prefix@ == match prefix.deep_view() {
            Some(p) => p,
            None => Seq::empty(),
        },
        r.marker@ == Seq::<char>::empty(),
        r.max_keys == 1000,
        !r.is_truncated,
        ({
            let ups = uploads(files.deep_view());
            let l = listed_files(
                files.deep_view(),
                ups,
                bucket@,
                prefix.deep_view(),
                delimiter.deep_view(),
            );
            &&& r.contents.deep_view() == l.objects + listed_uploads(
                ups,
                bucket@,
                prefix.deep_view(),
            )
            &&& r.common_prefixes.deep_view() == l.prefixes
        }),
{
    let ghost fs = files.deep_view();
    let ghost pf = prefix.deep_view();
    let ghost dl = delimiter.deep_view();
    let ups = list_uploads(files);
    let ghost uv = ups.deep_view();
    let mut objects: Vec<Object> = Vec::new();
    let mut prefixes: Vec<CommonPrefix> = Vec::new();
    let mut i: usize = 0;
    assert(fs.take(0) =~= Seq::<Seq<char>>::empty());
    assert(objects.deep_view() =~= Seq::<ObjectView>::empty());
    assert(prefixes.deep_view() =~= Seq::<Seq<char>>::empty());
    while i < files.len()
        invariant
            i <= files@.len(),
            fs == files.deep_view(),
            pf == prefix.deep_view(),
            dl == delimiter.deep_view(),
            uv == ups.deep_view(),
            (Listing { objects: objects.deep_view(), prefixes: prefixes.deep_view() })
                == listed_files(fs.take(i as int), uv, bucket@, pf, dl),
        decreases files@.len() - i,
    {
        proof {
            assert(fs.take(i as int + 1).drop_last() =~= fs.take(i as int));
            assert(fs.take(i as int + 1).last() == fs[i as int]);
            assert(fs[i as int] == files@[i as int]@);
        }
        let clean = trim_char(files[i].as_str(), '/');
        let part = match parent_of(clean.as_str()) {
            Some(p) => lists(&ups, p.as_str()),
            None => false,
        };
        if !part {
            let e = find_entry(files[i].as_str(), bucket, prefix, delimiter);
            add_entry(e, &mut objects, &mut prefixes);
        }
        i += 1;
    }
    assert(fs.take(fs.len() as int) =~= fs);
    let ghost plain = objects.deep_view();
    let home = concat(bucket, "/");
    let mut k: usize = 0;
    assert(uv.take(0) =~= Seq::<Seq<char>>::empty());
    assert(objects.deep_view() =~= plain + listed_uploads(uv.take(0), bucket@, pf));
    while k < ups.len()
        invariant
            k <= ups@.len(),
            uv == ups.deep_view(),
            pf == prefix.deep_view(),
            home@ == bucket@ + "/"@,
            objects.deep_view() == plain + listed_uploads(uv.take(k as int), bucket@, pf),
        decreases ups@.len() - k,
    {
        let ghost ov = objects.deep_view();
        proof {
            assert(uv.take(k as int + 1).drop_last() =~= uv.take(k as int));
            assert(uv.take(k as int + 1).last() == uv[k as int]);
            assert(uv[k as int] == ups@[k as int]@);
        }
        if starts_with(ups[k].as_str(), home.as_str()) {
            let v = chars_of(ups[k].as_str());
            let h = chars_of(home.as_str());
            let key = part_of(&v, h.len(), v.len());
            assert(key@ =~= uv[k as int].skip(home@.len() as int));
            let wanted = match prefix {
                Some(p) => starts_with(key.as_str(), p.as_str()),
                None => true,
            };
            if wanted {
                let o = make_object(key, "\"000-MPU\"");
                objects.push(o);
                assert(objects.deep_view() =~= ov.push(o@));
            }
        }
        k += 1;
        assert(objects.deep_view() =~= plain + listed_uploads(uv.take(k as int), bucket@, pf));
    }
    assert(uv.take(uv.len() as int) =~= uv);
    ListBucketResult {
        name: bucket.to_owned(),
        prefix: text_or_none(prefix),
        marker: String::new(),
        max_keys: 1000,
        is_truncated: false,
        contents: objects,
        common_prefixes: prefixes,
    }
}

/// Objects on a page.
pub const MAX_KEYS: usize = 1000;

/// A page of a listing.
#[verifier::ext_equal]
pub struct Page {
    pub listing: Listing,
    pub truncated: bool,
    pub token: Option<Seq<char>>,
}

/// What marks the end of a page: the key of the last file that was looked at.
pub open spec fn page_token(f: Seq<char>, bucket: Seq<char>) -> Option<Seq<char>> {
    let home = "/"@ + bucket + "/"@;
    if home.is_prefix_of(f) {
        Some(f.skip(home.len() as int))
    } else {
        None
    }
}

/// The page that the files from `start` up to `n` make; it ends once it is
/// full and another file follows.
pub open spec fn page(
    files: Seq<Seq<char>>,
    start: int,
    n: int,
    bucket: Seq<char>,
    prefix: Option<Seq<char>>,
    delimiter: Option<Seq<char>>,
) -> Page
    decreases n - start,
{
    if n <= start {
        Page {
            listing: Listing { objects: Seq::empty(), prefixes: Seq::empty() },
            truncated: false,
            token: None,
        }
    } else {
        let p = page(files, start, n - 1, bucket, prefix, delimiter);
        if p.truncated {
            p
        } else if p.listing.objects.len() >= MAX_KEYS {
            Page { truncated: true, token: page_token(files[n - 2], bucket), ..p }
        } else {
            Page {
                listing: p.listing.with(file_entry(files[n - 1], bucket, prefix, delimiter)),
                ..p
            }
        }
    }
}

/// How many leading files do not come after `marker`, up to the first that
/// does.
pub open spec fn skipped(files: Seq<Seq<char>>, marker: Seq<char>) -> nat
    decreases files.len(),
{
    if files.len() == 0 || text_lt(marker, files[0]) {
        0
    } else {
        1 + skipped(files.drop_first(), marker)
    }
}

/// Where a listing goes on: after `start_after`, or else after the token of
/// the page before.
pub open spec fn marker_of(start_after: Option<Seq<char>>, token: Option<Seq<char>>) -> Seq<char> {
    match start_after {
        Some(s) => s,
        None => match token {
            Some(t) => t,
            None => Seq::empty(),
        },
    }
}

/// The first file of a page.
pub open spec fn page_start(files: Seq<Seq<char>>, bucket: Seq<char>, marker: Seq<char>) -> int {
    if marker.len() == 0 {
        0
    } else {
        skipped(files, "/"@ + bucket + "/"@ + marker) as int
    }
}

fn count_skipped(files: &Vec<String>, marker: &str) -> (r: usize)
    ensures
        r == skipped(files.deep_view(), marker@),
        r <= files@.len(),
{
    let ghost fs = files.deep_view();
    let mut r: usize = 0;
    assert(fs.skip(0) =~= fs);
    while r < files.len() && !text_before(marker, files[r].as_str())
        invariant
            r <= files@.len(),
            fs == files.deep_view(),
            skipped(fs, marker@) == r + skipped(fs.skip(r as int), marker@),
        decreases files@.len() - r,
    {
        proof {
            assert(fs.skip(r as int)[0] == fs[r as int]);
            assert(fs[r as int] == files@[r as int]@);
            assert(fs.skip(r as int).drop_first() =~= fs.skip(r as int + 1));
        }
        r += 1;
    }
    proof {
        if r < fs.len() {
            assert(fs.skip(r as int)[0] == fs[r as int]);
            assert(fs[r as int] == files@[r as int]@);
        }
    }
    r
}

fn find_token(f: &str, bucket: &str) -> (r: Option<String>)
    ensures
        r.deep_view() == page_token(f@, bucket@),
{
    let home = concat3("/", bucket, "/");
    if starts_with(f, home.as_str()) {
        let v = chars_of(f);
        let h = chars_of(home.as_str());
        let t = part_of(&v, h.len(), v.len());
        assert(t@ =~= f@.skip(home@.len() as int));
        Some(t)
    } else {
        None
    }
}

/// The answer to a request for the objects of a bucket, page by page.
pub fn list_objects_v2(
    files: &Vec<String>,
    bucket: &str,
    prefix: &Option<String>,
    delimiter: &Option<String>,
    continuation_token: &Option<String>,
    start_after: &Option<String>,
) -> (r: ListBucketResultV2)
    ensures
        r.name@ == bucket@,
        r.prefix@ == match prefix.deep_view() {
            Some(p) => p,
            None => Seq::empty(),
        },
        r.max_keys == 1000,
        r.continuation_token.deep_view() == continuation_token.deep_view(),
        r.start_after.deep_view() == start_after.deep_view(),
        ({
            let sorted = sorted_texts(files.deep_view());
            let marker = marker_of(start_after.deep_view(), continuation_token.deep_view());
            let p = page(
                sorted,
                page_start(sorted, bucket@, marker),
                sorted.len() as int,
                bucket@,
                prefix.deep_view(),
                delimiter.deep_view(),
            );
            &&& r.contents.deep_view() == p.listing.objects
            &&& r.common_prefixes.deep_view() == p.listing.prefixes
            &&& r.key_count == p.listing.objects.len()
            &&& r.is_truncated == p.truncated
            &&& r.next_continuation_token.deep_view() == p.token
        }),
{
    let ghost pf = prefix.deep_view();
    let ghost dl = delimiter.deep_view();
    let sorted = sort_texts(files);
    let ghost fs = sorted.deep_view();
    let marker: String = match start_after {
        Some(s) => s.clone(),
        None => text_or_none(continuation_token),
    };
    let ghost mk = marker_of(start_after.deep_view(), continuation_token.deep_view());
    assert(marker@ =~= mk);
    let start: usize = if marker.as_str().is_empty() {
        0
    } else {
        let mut path = concat3("/", bucket, "/");
        path.append(marker.as_str());
        count_skipped(&sorted, path.as_str())
    };
    assert(start == page_start(fs, bucket@, mk));
    let mut objects: Vec<Object> = Vec::new();
    let mut prefixes: Vec<CommonPrefix> = Vec::new();
    let mut truncated = false;
    let mut token: Option<String> = None;
    let mut i: usize = start;
    assert(objects.deep_view() =~= Seq::<ObjectView>::empty());
    assert(prefixes.deep_view() =~= Seq::<Seq<char>>::empty());
    while i < sorted.len()
        invariant
            start <= i <= sorted@.len(),
            fs == sorted.deep_view(),
            pf == prefix.deep_view(),
            dl == delimiter.deep_view(),
            objects@.len() <= i - start,
            objects@.len() <= MAX_KEYS,
            (Page {
                listing: Listing {
                    objects: objects.deep_view(),
                    prefixes: prefixes.deep_view(),
                },
                truncated,
                token: token.deep_view(),
            }) == page(fs, start as int, i as int, bucket@, pf, dl),
        decreases sorted@.len() - i,
    {
        if !truncated {
            if objects.len() >= MAX_KEYS {
                truncated = true;
                assert(fs[i as int - 1] == sorted@[i as int - 1]@);
                token = find_token(sorted[i - 1].as_str(), bucket);
            } else {
                assert(fs[i as int] == sorted@[i as int]@);
                let e = find_entry(sorted[i].as_str(), bucket, prefix, delimiter);
                let ghost before = objects@.len();
                add_entry(e, &mut objects, &mut prefixes);
                assert(objects.deep_view().len() <= before + 1);
            }
        }
        i += 1;
    }
    let key_count: i32 = objects.len() as i32;
    ListBucketResultV2 {
        name: bucket.to_owned(),
        prefix: text_or_none(prefix),
        max_keys: 1000,
        is_truncated: truncated,
        contents: objects,
        common_prefixes: prefixes,
        key_count,
        continuation_token: crate::raft::command::text_option_dup(continuation_token),
        next_continuation_token: token,
        start_after: crate::raft::command::text_option_dup(start_after),
    }
}

} // verus!
