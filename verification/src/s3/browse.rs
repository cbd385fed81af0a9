//! What a listing shows of a bucket: which keys, which common prefixes, and
//! from where on.

use crate::parse::{trim_both, trim_end, trim_start};
use crate::s3::listing::{
    file_entry, first_at, is_part, key_entry, listed, listed_files, listed_uploads, list_objects,
    list_objects_v2, marker_of, page, page_start, parent_dir, skipped, strip_ends, tidy_end,
    up_to_last_slash, upload_of, uploads, Entry, Listing,
};
use crate::s3::types::{ListBucketResult, ListBucketResultV2};
use crate::sorting::{in_order, lemma_sorted, sorted_texts};
use crate::text::{occurs, occurs_at, text_le, text_lt};
use vstd::prelude::*;
use vstd::string::*;

verus! {

/// The file is the visible object `key` of the bucket: it lies in the bucket's
/// directory and is neither a marker nor a note beside an object.
pub open spec fn shows(f: Seq<char>, bucket: Seq<char>, key: Seq<char>) -> bool {
    &&& f == "/"@ + bucket + "/"@ + key
    &&& !".s3keep"@.is_suffix_of(f)
    &&& !".s3_mpu_completed"@.is_suffix_of(f)
    &&& !".meta"@.is_suffix_of(f)
}

/// The prefix that was asked for; the empty one where none was.
pub open spec fn wanted(prefix: Option<Seq<char>>) -> Seq<char> {
    if prefix is Some {
        prefix->Some_0
    } else {
        Seq::empty()
    }
}

/// The delimiter stands in the key behind the prefix that was asked for.
pub open spec fn parted(
    key: Seq<char>,
    prefix: Option<Seq<char>>,
    delimiter: Option<Seq<char>>,
) -> bool {
    delimiter is Some && occurs(key.skip(wanted(prefix).len() as int), delimiter->Some_0)
}

/// `c` begins with `p`, ends with `d`, and holds `d` behind `p` nowhere but at
/// its end.
pub open spec fn ends_at_first(c: Seq<char>, p: Seq<char>, d: Seq<char>) -> bool {
    &&& p.is_prefix_of(c)
    &&& d.is_suffix_of(c)
    &&& p.len() + d.len() <= c.len()
    &&& forall|j: int| #[trigger]
        occurs_at(c.skip(p.len() as int), d, j) ==> j == c.len() - p.len() - d.len()
}

/// Where a text occurs, there is a first place at which it does.
proof fn lemma_first(s: Seq<char>, t: Seq<char>, at: int)
    requires
        occurs_at(s, t, at),
    ensures
        occurs_at(s, t, first_at(s, t)),
        forall|j: int| 0 <= j < first_at(s, t) ==> !#[trigger] occurs_at(s, t, j),
    decreases at,
{
    if exists|j: int| 0 <= j < at && #[trigger] occurs_at(s, t, j) {
        let j = choose|j: int| 0 <= j < at && #[trigger] occurs_at(s, t, j);
        lemma_first(s, t, j);
    } else {
        assert(occurs_at(s, t, at) && forall|j: int|
            0 <= j < at ==> !#[trigger] occurs_at(s, t, j));
    }
}

proof fn lemma_key(key: Seq<char>, prefix: Option<Seq<char>>, delimiter: Option<Seq<char>>)
    ensures
        match key_entry(key, prefix, delimiter) {
            Entry::Nothing => !wanted(prefix).is_prefix_of(key),
            Entry::Prefix(c) => {
                &&& wanted(prefix).is_prefix_of(key)
                &&& parted(key, prefix, delimiter)
                &&& c.is_prefix_of(key)
                &&& ends_at_first(c, wanted(prefix), delimiter->Some_0)
            },
            Entry::Key(k) => {
                &&& k == key
                &&& wanted(prefix).is_prefix_of(key)
                &&& !parted(key, prefix, delimiter)
            },
        },
{
    let p = wanted(prefix);
    if p.is_prefix_of(key) && parted(key, prefix, delimiter) {
        let d = delimiter->Some_0;
        let rest = key.skip(p.len() as int);
        let at = choose|i: int| #[trigger] occurs_at(rest, d, i);
        lemma_first(rest, d, at);
        let k = first_at(rest, d);
        let c = key.take(p.len() + k + d.len());
        assert(key_entry(key, prefix, delimiter) == Entry::Prefix(c));
        assert(c.is_prefix_of(key));
        assert(p.is_prefix_of(c)) by {
            assert(p =~= c.take(p.len() as int));
        }
        assert(d.is_suffix_of(c)) by {
            assert(rest.subrange(k, k + d.len()) =~= c.subrange(
                c.len() - d.len(),
                c.len() as int,
            ));
        }
        assert forall|j: int| #[trigger] occurs_at(c.skip(p.len() as int), d, j) implies j
            == c.len() - p.len() - d.len() by {
            assert(c.skip(p.len() as int).subrange(j, j + d.len()) =~= rest.subrange(
                j,
                j + d.len(),
            ));
            assert(occurs_at(rest, d, j));
        }
    }
}

/// What a single file comes to in a listing.
proof fn lemma_entry(
    f: Seq<char>,
    bucket: Seq<char>,
    prefix: Option<Seq<char>>,
    delimiter: Option<Seq<char>>,
) -> (key: Seq<char>)
    ensures
        forall|k: Seq<char>| #[trigger] shows(f, bucket, k) ==> k == key,
        match file_entry(f, bucket, prefix, delimiter) {
            Entry::Nothing => !(shows(f, bucket, key) && wanted(prefix).is_prefix_of(key)),
            Entry::Prefix(c) => {
                &&& shows(f, bucket, key)
                &&& wanted(prefix).is_prefix_of(key)
                &&& parted(key, prefix, delimiter)
                &&& c.is_prefix_of(key)
                &&& ends_at_first(c, wanted(prefix), delimiter->Some_0)
            },
            Entry::Key(k) => {
                &&& k == key
                &&& shows(f, bucket, key)
                &&& wanted(prefix).is_prefix_of(key)
                &&& !parted(key, prefix, delimiter)
            },
        },
{
    reveal(file_entry);
    let home = "/"@ + bucket + "/"@;
    let key = f.skip(home.len() as int);
    lemma_key(key, prefix, delimiter);
    assert forall|k: Seq<char>| #[trigger] shows(f, bucket, k) implies k == key && home.is_prefix_of(
        f,
    ) by {
        assert(k =~= (home + k).skip(home.len() as int));
        assert(home =~= (home + k).take(home.len() as int));
    }
    if home.is_prefix_of(f) {
        assert(f =~= home + key);
    }
    key
}

/// The listing has the object `key`.
pub open spec fn has_key(l: Listing, key: Seq<char>) -> bool {
    exists|i: int| 0 <= i < l.objects.len() && (#[trigger] l.objects[i]).key == key
}

/// The listing has a common prefix with which `key` begins.
pub open spec fn has_prefix_of(l: Listing, key: Seq<char>) -> bool {
    exists|i: int| 0 <= i < l.prefixes.len() && (#[trigger] l.prefixes[i]).is_prefix_of(key)
}

/// One of the files from `start` up to `n` that is not left out shows `key`
/// under the prefix that was asked for.
pub open spec fn shown(
    files: Seq<Seq<char>>,
    ups: Seq<Seq<char>>,
    start: int,
    n: int,
    bucket: Seq<char>,
    key: Seq<char>,
) -> bool {
    exists|i: int|
        start <= i < n && #[trigger] shows(files[i], bucket, key) && !is_part(files[i], ups)
}

/// Such a key begins with `c`.
pub open spec fn begins_one(
    files: Seq<Seq<char>>,
    ups: Seq<Seq<char>>,
    start: int,
    n: int,
    bucket: Seq<char>,
    c: Seq<char>,
) -> bool {
    exists|key: Seq<char>| #[trigger]
        shown(files, ups, start, n, bucket, key) && c.is_prefix_of(key)
}

/// Every object is a visible key under the prefix that does not hold the
/// delimiter behind it.
pub open spec fn fair_objects(
    l: Listing,
    files: Seq<Seq<char>>,
    ups: Seq<Seq<char>>,
    start: int,
    n: int,
    bucket: Seq<char>,
    prefix: Option<Seq<char>>,
    delimiter: Option<Seq<char>>,
) -> bool {
    forall|i: int|
        0 <= i < l.objects.len() ==> {
            &&& shown(files, ups, start, n, bucket, (#[trigger] l.objects[i]).key)
            &&& wanted(prefix).is_prefix_of(l.objects[i].key)
            &&& !parted(l.objects[i].key, prefix, delimiter)
        }
}

/// The common prefix begins with the prefix, ends with the delimiter, holds it
/// only there behind the prefix, and is the beginning of a visible key.
pub open spec fn fair_prefix(
    c: Seq<char>,
    files: Seq<Seq<char>>,
    ups: Seq<Seq<char>>,
    start: int,
    n: int,
    bucket: Seq<char>,
    prefix: Option<Seq<char>>,
    delimiter: Option<Seq<char>>,
) -> bool {
    &&& delimiter is Some
    &&& ends_at_first(c, wanted(prefix), delimiter->Some_0)
    &&& begins_one(files, ups, start, n, bucket, c)
}

/// Every common prefix is one as it should be.
pub open spec fn fair_prefixes(
    l: Listing,
    files: Seq<Seq<char>>,
    ups: Seq<Seq<char>>,
    start: int,
    n: int,
    bucket: Seq<char>,
    prefix: Option<Seq<char>>,
    delimiter: Option<Seq<char>>,
) -> bool {
    forall|i: int|
        0 <= i < l.prefixes.len() ==> fair_prefix(
            #[trigger] l.prefixes[i],
            files,
            ups,
            start,
            n,
            bucket,
            prefix,
            delimiter,
        )
}

/// Each visible key under the prefix is an object or begins with a common
/// prefix.
pub open spec fn misses_nothing(
    l: Listing,
    files: Seq<Seq<char>>,
    ups: Seq<Seq<char>>,
    start: int,
    n: int,
    bucket: Seq<char>,
    prefix: Option<Seq<char>>,
    delimiter: Option<Seq<char>>,
) -> bool {
    forall|key: Seq<char>| #[trigger]
        shown(files, ups, start, n, bucket, key) && wanted(prefix).is_prefix_of(key) ==> {
            &&& parted(key, prefix, delimiter) ==> has_prefix_of(l, key)
            &&& !parted(key, prefix, delimiter) ==> has_key(l, key)
        }
}

/// The listing `l` is what the files from `start` up to `n` give; a common
/// prefix is listed once.
pub open spec fn is_listing(
    l: Listing,
    files: Seq<Seq<char>>,
    ups: Seq<Seq<char>>,
    start: int,
    n: int,
    bucket: Seq<char>,
    prefix: Option<Seq<char>>,
    delimiter: Option<Seq<char>>,
) -> bool {
    &&& fair_objects(l, files, ups, start, n, bucket, prefix, delimiter)
    &&& fair_prefixes(l, files, ups, start, n, bucket, prefix, delimiter)
    &&& misses_nothing(l, files, ups, start, n, bucket, prefix, delimiter)
    &&& l.prefixes.no_duplicates()
}

/// A listing stays one when one more file is looked at.
proof fn lemma_one_more(
    l: Listing,
    m: Listing,
    files: Seq<Seq<char>>,
    ups: Seq<Seq<char>>,
    start: int,
    n: int,
    n1: int,
    bucket: Seq<char>,
    prefix: Option<Seq<char>>,
    delimiter: Option<Seq<char>>,
)
    requires
        0 <= start <= n < files.len(),
        n1 == n + 1,
        is_listing(l, files, ups, start, n, bucket, prefix, delimiter),
        m == if is_part(files[n], ups) {
            l
        } else {
            l.with(file_entry(files[n], bucket, prefix, delimiter))
        },
    ensures
        is_listing(m, files, ups, start, n1, bucket, prefix, delimiter),
{
    let key = lemma_entry(files[n], bucket, prefix, delimiter);
    let e = file_entry(files[n], bucket, prefix, delimiter);
    assert forall|k: Seq<char>| #[trigger] shown(files, ups, start, n, bucket, k) implies shown(
        files,
        ups,
        start,
        n1,
        bucket,
        k,
    ) by {
        let i = choose|i: int|
            start <= i < n && #[trigger] shows(files[i], bucket, k) && !is_part(files[i], ups);
        assert(shows(files[i], bucket, k));
    }
    let added = !is_part(files[n], ups);
    if added && !(e is Nothing) {
        assert(shows(files[n], bucket, key));
        assert(shown(files, ups, start, n1, bucket, key));
    }
    assert forall|i: int| 0 <= i < m.objects.len() implies {
        &&& shown(files, ups, start, n1, bucket, (#[trigger] m.objects[i]).key)
        &&& wanted(prefix).is_prefix_of(m.objects[i].key)
        &&& !parted(m.objects[i].key, prefix, delimiter)
    } by {
        if i < l.objects.len() {
            assert(m.objects[i] == l.objects[i]);
        }
    }
    assert forall|i: int| 0 <= i < m.prefixes.len() implies fair_prefix(
        #[trigger] m.prefixes[i],
        files,
        ups,
        start,
        n1,
        bucket,
        prefix,
        delimiter,
    ) by {
        if i < l.prefixes.len() {
            assert(m.prefixes[i] == l.prefixes[i]);
            assert(begins_one(files, ups, start, n, bucket, l.prefixes[i]));
            let k = choose|k: Seq<char>| #[trigger]
                shown(files, ups, start, n, bucket, k) && l.prefixes[i].is_prefix_of(k);
            assert(shown(files, ups, start, n1, bucket, k));
        } else {
            assert(shown(files, ups, start, n1, bucket, key));
        }
    }
    assert(m.prefixes.no_duplicates()) by {
        if let Entry::Prefix(c) = e {
            assert forall|i: int| 0 <= i < l.prefixes.len() && !l.prefixes.contains(c) implies
                #[trigger] l.prefixes[i] != c by {}
        }
    }
    assert forall|k: Seq<char>| #[trigger]
        shown(files, ups, start, n1, bucket, k) && wanted(prefix).is_prefix_of(k) implies {
        &&& parted(k, prefix, delimiter) ==> has_prefix_of(m, k)
        &&& !parted(k, prefix, delimiter) ==> has_key(m, k)
    } by {
        let i = choose|i: int|
            start <= i < n1 && #[trigger] shows(files[i], bucket, k) && !is_part(files[i], ups);
        if i < n {
            assert(shown(files, ups, start, n, bucket, k));
            if parted(k, prefix, delimiter) {
                let j = choose|j: int|
                    0 <= j < l.prefixes.len() && (#[trigger] l.prefixes[j]).is_prefix_of(k);
                assert(m.prefixes[j] == l.prefixes[j]);
            } else {
                let j = choose|j: int|
                    0 <= j < l.objects.len() && (#[trigger] l.objects[j]).key == k;
                assert(m.objects[j] == l.objects[j]);
            }
        } else {
            assert(k == key);
            match e {
                Entry::Prefix(c) => {
                    if l.prefixes.contains(c) {
                        assert(m.prefixes[l.prefixes.index_of(c)] == c);
                    } else {
                        assert(m.prefixes[l.prefixes.len() as int] == c);
                    }
                },
                Entry::Key(c) => {
                    assert(m.objects[l.objects.len() as int].key == c);
                },
                Entry::Nothing => {},
            }
        }
    }
    assert(fair_objects(m, files, ups, start, n1, bucket, prefix, delimiter));
    assert(fair_prefixes(m, files, ups, start, n1, bucket, prefix, delimiter));
    assert(misses_nothing(m, files, ups, start, n1, bucket, prefix, delimiter));
}

proof fn lemma_listed_take(
    files: Seq<Seq<char>>,
    ups: Seq<Seq<char>>,
    n: int,
    bucket: Seq<char>,
    prefix: Option<Seq<char>>,
    delimiter: Option<Seq<char>>,
)
    requires
        0 <= n <= files.len(),
    ensures
        is_listing(
            listed_files(files.take(n), ups, bucket, prefix, delimiter),
            files,
            ups,
            0,
            n,
            bucket,
            prefix,
            delimiter,
        ),
    decreases n,
{
    if n == 0 {
        let l = listed_files(files.take(n), ups, bucket, prefix, delimiter);
        assert forall|k: Seq<char>| !#[trigger] shown(files, ups, 0, 0, bucket, k) by {}
    } else {
        lemma_listed_take(files, ups, n - 1, bucket, prefix, delimiter);
        let t = files.take(n);
        assert(t.drop_last() =~= files.take(n - 1));
        assert(t.last() == files[n - 1]);
        lemma_one_more(
            listed_files(files.take(n - 1), ups, bucket, prefix, delimiter),
            listed_files(t, ups, bucket, prefix, delimiter),
            files,
            ups,
            0,
            n - 1,
            n,
            bucket,
            prefix,
            delimiter,
        );
    }
}

/// The files of a bucket, listed in one go: every common prefix begins with
/// the prefix asked for, ends with the delimiter, holds it only there behind
/// the prefix and begins a visible key of the bucket; every object is a
/// visible key under the prefix; and each visible key under the prefix that is
/// not a part of an upload is an object or begins with a common prefix.
pub proof fn law_listing_shows_the_bucket(
    files: Seq<Seq<char>>,
    ups: Seq<Seq<char>>,
    bucket: Seq<char>,
    prefix: Option<Seq<char>>,
    delimiter: Option<Seq<char>>,
)
    ensures
        is_listing(
            listed_files(files, ups, bucket, prefix, delimiter),
            files,
            ups,
            0,
            files.len() as int,
            bucket,
            prefix,
            delimiter,
        ),
{
    assert(files.take(files.len() as int) =~= files);
    lemma_listed_take(files, ups, files.len() as int, bucket, prefix, delimiter);
}

/// A page is the listing of the files that it looked at: those from its start
/// on, all of them unless it is cut short.
pub proof fn law_page_shows_its_files(
    files: Seq<Seq<char>>,
    start: int,
    n: int,
    bucket: Seq<char>,
    prefix: Option<Seq<char>>,
    delimiter: Option<Seq<char>>,
) -> (seen: int)
    requires
        0 <= start <= n <= files.len(),
    ensures
        start <= seen <= n,
        is_listing(
            page(files, start, n, bucket, prefix, delimiter).listing,
            files,
            Seq::empty(),
            start,
            seen,
            bucket,
            prefix,
            delimiter,
        ),
        !page(files, start, n, bucket, prefix, delimiter).truncated ==> seen == n,
        page(files, start, n, bucket, prefix, delimiter).truncated ==> seen < n && page(
            files,
            start,
            n,
            bucket,
            prefix,
            delimiter,
        ).listing.objects.len() >= 1000,
        page(files, start, n, bucket, prefix, delimiter).listing.objects.len() <= 1000,
    decreases n - start,
{
    let none = Seq::<Seq<char>>::empty();
    if n == start {
        assert forall|k: Seq<char>| !#[trigger] shown(files, none, start, n, bucket, k) by {}
        n
    } else {
        let i = law_page_shows_its_files(files, start, n - 1, bucket, prefix, delimiter);
        let p = page(files, start, n - 1, bucket, prefix, delimiter);
        let q = page(files, start, n, bucket, prefix, delimiter);
        if p.truncated || p.listing.objects.len() >= 1000 {
            i
        } else {
            assert(!is_part(files[n - 1], none)) by {
                match parent_dir(trim_both(files[n - 1], '/')) {
                    Some(d) => {
                        assert(!none.contains(d));
                    },
                    None => {},
                }
            }
            lemma_one_more(
                p.listing,
                q.listing,
                files,
                none,
                start,
                n - 1,
                n,
                bucket,
                prefix,
                delimiter,
            );
            n
        }
    }
}

/// A page begins behind its marker: no file before its start comes after the
/// marker, and every file from its start on does. Without a marker it begins
/// with the first file. A key to start after goes before a token.
pub proof fn law_page_begins_behind_its_marker(
    all: Seq<Seq<char>>,
    bucket: Seq<char>,
    marker: Seq<char>,
    i: int,
)
    requires
        0 <= i < all.len(),
    ensures
        ({
            let files = sorted_texts(all);
            let start = page_start(files, bucket, marker);
            &&& files.to_multiset() == all.to_multiset()
            &&& 0 <= start <= files.len()
            &&& marker.len() == 0 ==> start == 0
            &&& marker.len() > 0 ==> (start <= i <==> text_lt(
                "/"@ + bucket + "/"@ + marker,
                files[i],
            ))
        }),
        forall|s: Seq<char>, t: Option<Seq<char>>| #[trigger] marker_of(Some(s), t) == s,
        forall|t: Seq<char>| #[trigger] marker_of(None, Some(t)) == t,
        marker_of(None, None).len() == 0,
{
    let files = sorted_texts(all);
    lemma_sorted(all);
    lemma_skips(files, "/"@ + bucket + "/"@ + marker);
}

proof fn lemma_skips(files: Seq<Seq<char>>, marker: Seq<char>)
    requires
        in_order(files),
    ensures
        skipped(files, marker) <= files.len(),
        forall|i: int|
            0 <= i < files.len() ==> (skipped(files, marker) <= i <==> text_lt(
                marker,
                #[trigger] files[i],
            )),
    decreases files.len(),
{
    if files.len() > 0 {
        let t = files.drop_first();
        assert(in_order(t)) by {
            assert forall|i: int, j: int| 0 <= i < j < t.len() implies text_le(
                #[trigger] t[i],
                #[trigger] t[j],
            ) by {
                assert(t[i] == files[i + 1] && t[j] == files[j + 1]);
            }
        }
        lemma_skips(t, marker);
        assert forall|i: int| 0 <= i < files.len() implies (skipped(files, marker) <= i
            <==> text_lt(marker, #[trigger] files[i])) by {
            if i > 0 {
                assert(t[i - 1] == files[i]);
                assert(text_le(files[0], files[i]));
                if text_lt(marker, files[0]) {
                    crate::ranges::law_text_order(marker, files[0], files[i]);
                    crate::ranges::law_text_order(files[0], files[i], files[i]);
                }
            }
        }
    }
}

/// The path `u` is written as an object's path is: it neither begins nor ends
/// with a slash, and does not end with a component `.`.
pub open spec fn is_tidy(u: Seq<char>) -> bool {
    &&& u.len() > 0
    &&& u[0] != '/'
    &&& u.last() != '/'
    &&& !(u.len() >= 2 && u.last() == '.' && u[u.len() - 2] == '/')
}

proof fn lemma_trims(u: Seq<char>, rest: Seq<char>)
    requires
        u.len() > 0,
        u[0] != '/',
        rest.len() > 0,
        rest.last() != '/',
    ensures
        trim_both("/"@ + u + "/"@ + rest, '/') == u + "/"@ + rest,
{
    reveal_strlit("/");
    let f = "/"@ + u + "/"@ + rest;
    let t = u + "/"@ + rest;
    assert(f.drop_first() =~= t);
    assert(f[0] == '/');
    assert(t[0] == u[0]);
    assert(t.last() == rest.last());
    reveal_with_fuel(trim_start, 2);
    assert(trim_start(f, '/') == t);
    assert(trim_end(t, '/') == t);
}

proof fn lemma_up_to_slash(u: Seq<char>, name: Seq<char>)
    requires
        !name.contains('/'),
    ensures
        up_to_last_slash(u + "/"@ + name) == u,
    decreases name.len(),
{
    reveal_strlit("/");
    let s = u + "/"@ + name;
    if name.len() == 0 {
        assert(s.last() == '/');
        assert(s.drop_last() =~= u);
    } else {
        let d = name.drop_last();
        assert(name.contains(name.last())) by {
            assert(name[name.len() - 1] == name.last());
        }
        assert(s.last() == name.last());
        assert(s.drop_last() =~= u + "/"@ + d);
        assert forall|i: int| 0 <= i < d.len() implies d[i] != '/' by {
            assert(name.contains(name[i]));
        }
        lemma_up_to_slash(u, d);
    }
}

/// A file below an object's path is a part of that object exactly if the
/// object is one of the uploads.
pub proof fn law_parts_lie_below_their_upload(
    u: Seq<char>,
    name: Seq<char>,
    ups: Seq<Seq<char>>,
)
    requires
        is_tidy(u),
        name.len() > 0,
        !name.contains('/'),
        name != "."@,
    ensures
        is_part("/"@ + u + "/"@ + name, ups) <==> ups.contains(u),
{
    reveal_strlit("/");
    reveal_strlit(".");
    let t = u + "/"@ + name;
    assert(name.contains(name.last())) by {
        assert(name[name.len() - 1] == name.last());
    }
    lemma_trims(u, name);
    assert(t.last() == name.last());
    assert(tidy_end(t) == t) by {
        if t.last() == '.' && t[t.len() - 2] == '/' {
            if name.len() > 1 {
                assert(t[t.len() - 2] == name[name.len() - 2]);
                assert(name.contains('/'));
            }
            assert(name =~= "."@);
        }
    }
    lemma_up_to_slash(u, name);
    assert(tidy_end(u) == u);
}

/// The marker of a completed upload names the object that was uploaded.
pub proof fn law_marker_names_its_upload(u: Seq<char>)
    requires
        u.len() > 0,
        u[0] != '/',
        !"/.s3_mpu_completed"@.is_suffix_of(u),
    ensures
        upload_of("/"@ + u + "/.s3_mpu_completed"@) == u,
        ".s3_mpu_completed"@.is_suffix_of("/"@ + u + "/.s3_mpu_completed"@),
{
    reveal_strlit("/");
    reveal_strlit("/.s3_mpu_completed");
    reveal_strlit(".s3_mpu_completed");
    let mark = "/.s3_mpu_completed"@;
    let tail = ".s3_mpu_completed"@;
    assert(mark =~= "/"@ + tail);
    assert("/"@ + u + mark =~= "/"@ + u + "/"@ + tail);
    lemma_trims(u, tail);
    let t = u + mark;
    assert(u + "/"@ + tail =~= t);
    assert(mark.is_suffix_of(t)) by {
        assert(t.subrange(t.len() - mark.len(), t.len() as int) =~= mark);
    }
    assert(t.take(t.len() - mark.len()) =~= u);
    reveal_with_fuel(strip_ends, 2);
    let f = "/"@ + u + mark;
    assert(f.subrange(f.len() - tail.len(), f.len() as int) =~= tail);
}

/// The uploads are just the objects that some marker names, each once.
pub proof fn law_uploads_have_markers(files: Seq<Seq<char>>, u: Seq<char>)
    ensures
        uploads(files).no_duplicates(),
        uploads(files).contains(u) <==> exists|i: int|
            0 <= i < files.len() && ".s3_mpu_completed"@.is_suffix_of(#[trigger] files[i])
                && upload_of(files[i]) == u,
    decreases files.len(),
{
    if files.len() > 0 {
        let d = files.drop_last();
        let r = uploads(d);
        law_uploads_have_markers(d, u);
        let now = uploads(files);
        let x = upload_of(files.last());
        assert(files[files.len() - 1] == files.last());
        if r.contains(u) {
            assert(now[r.index_of(u)] == u);
            let i = choose|i: int|
                0 <= i < d.len() && ".s3_mpu_completed"@.is_suffix_of(#[trigger] d[i])
                    && upload_of(d[i]) == u;
            assert(files[i] == d[i]);
        }
        if now.contains(u) && !r.contains(u) {
            let i = now.index_of(u);
            if i < r.len() {
                assert(r[i] == u);
            }
        }
        if exists|i: int|
            0 <= i < files.len() && ".s3_mpu_completed"@.is_suffix_of(#[trigger] files[i])
                && upload_of(files[i]) == u {
            let i = choose|i: int|
                0 <= i < files.len() && ".s3_mpu_completed"@.is_suffix_of(#[trigger] files[i])
                    && upload_of(files[i]) == u;
            if i < d.len() {
                assert(d[i] == files[i]);
            } else if !r.contains(u) {
                assert(now[r.len() as int] == u);
            }
        }
    } else {
        assert(!uploads(files).contains(u));
    }
}

/// Each upload of the bucket under the prefix is listed as one object with the
/// tag of an upload, and nothing else is.
pub proof fn law_uploads_are_listed(
    ups: Seq<Seq<char>>,
    bucket: Seq<char>,
    prefix: Option<Seq<char>>,
    key: Seq<char>,
)
    ensures
        (exists|i: int|
            0 <= i < listed_uploads(ups, bucket, prefix).len() && (#[trigger] listed_uploads(
                ups,
                bucket,
                prefix,
            )[i]).key == key) <==> ups.contains(bucket + "/"@ + key) && wanted(
            prefix,
        ).is_prefix_of(key),
        forall|i: int|
            0 <= i < listed_uploads(ups, bucket, prefix).len() ==> (#[trigger] listed_uploads(
                ups,
                bucket,
                prefix,
            )[i]).etag == "\"000-MPU\""@,
    decreases ups.len(),
{
    if ups.len() > 0 {
        let d = ups.drop_last();
        law_uploads_are_listed(d, bucket, prefix, key);
        let r = listed_uploads(d, bucket, prefix);
        let now = listed_uploads(ups, bucket, prefix);
        let home = bucket + "/"@;
        let u = ups.last();
        assert(ups[ups.len() - 1] == u);
        let whole = bucket + "/"@ + key;
        assert(whole.skip(home.len() as int) =~= key);
        if home.is_prefix_of(u) {
            assert(u =~= home + u.skip(home.len() as int));
        }
        if d.contains(whole) {
            assert(ups[d.index_of(whole)] == whole);
        }
        if exists|i: int| 0 <= i < r.len() && (#[trigger] r[i]).key == key {
            let i = choose|i: int| 0 <= i < r.len() && (#[trigger] r[i]).key == key;
            assert(now[i] == r[i]);
        }
        if exists|i: int| 0 <= i < now.len() && (#[trigger] now[i]).key == key {
            let i = choose|i: int| 0 <= i < now.len() && (#[trigger] now[i]).key == key;
            if i < r.len() {
                assert(r[i] == now[i]);
            } else {
                assert(u == whole);
            }
        }
        if ups.contains(whole) && wanted(prefix).is_prefix_of(key) {
            let i = ups.index_of(whole);
            if i < d.len() {
                assert(d[i] == whole);
            } else {
                assert(home.is_prefix_of(u)) by {
                    assert(home =~= u.take(home.len() as int));
                }
                assert(now[r.len() as int].key == key);
            }
        }
    } else {
        assert(!ups.contains(bucket + "/"@ + key));
    }
}

/// Objects of a listing show files that were looked at, each another one.
proof fn lemma_listed_apart(
    files: Seq<Seq<char>>,
    ups: Seq<Seq<char>>,
    n: int,
    bucket: Seq<char>,
    prefix: Option<Seq<char>>,
    delimiter: Option<Seq<char>>,
)
    requires
        0 <= n <= files.len(),
        files.no_duplicates(),
    ensures
        ({
            let l = listed_files(files.take(n), ups, bucket, prefix, delimiter);
            forall|i: int, j: int|
                0 <= i < j < l.objects.len() ==> (#[trigger] l.objects[i]).key != (
                #[trigger] l.objects[j]).key
        }),
    decreases n,
{
    if n > 0 {
        let t = files.take(n);
        assert(t.drop_last() =~= files.take(n - 1));
        assert(t.last() == files[n - 1]);
        let l = listed_files(files.take(n - 1), ups, bucket, prefix, delimiter);
        let m = listed_files(t, ups, bucket, prefix, delimiter);
        lemma_listed_apart(files, ups, n - 1, bucket, prefix, delimiter);
        lemma_listed_take(files, ups, n - 1, bucket, prefix, delimiter);
        let key = lemma_entry(files[n - 1], bucket, prefix, delimiter);
        assert forall|i: int, j: int| 0 <= i < j < m.objects.len() implies (
        #[trigger] m.objects[i]).key != (#[trigger] m.objects[j]).key by {
            assert(m.objects[i] == l.objects[i]);
            if j < l.objects.len() {
                assert(m.objects[j] == l.objects[j]);
            } else {
                let k = m.objects[j].key;
                assert(shows(files[n - 1], bucket, k));
                if l.objects[i].key == k {
                    assert(shown(files, ups, 0, n - 1, bucket, k));
                    let q = choose|q: int|
                        0 <= q < n - 1 && #[trigger] shows(files[q], bucket, k) && !is_part(
                            files[q],
                            ups,
                        );
                    assert(files[q] == files[n - 1]);
                }
            }
        }
    }
}

/// No object is listed twice.
pub proof fn law_objects_are_listed_once(
    files: Seq<Seq<char>>,
    ups: Seq<Seq<char>>,
    bucket: Seq<char>,
    prefix: Option<Seq<char>>,
    delimiter: Option<Seq<char>>,
)
    requires
        files.no_duplicates(),
    ensures
        ({
            let l = listed_files(files, ups, bucket, prefix, delimiter);
            forall|i: int, j: int|
                0 <= i < j < l.objects.len() ==> (#[trigger] l.objects[i]).key != (
                #[trigger] l.objects[j]).key
        }),
{
    assert(files.take(files.len() as int) =~= files);
    lemma_listed_apart(files, ups, files.len() as int, bucket, prefix, delimiter);
}

/// The objects of a page stand in the order of their paths, each once.
pub proof fn law_page_is_in_order(
    files: Seq<Seq<char>>,
    start: int,
    n: int,
    bucket: Seq<char>,
    prefix: Option<Seq<char>>,
    delimiter: Option<Seq<char>>,
)
    requires
        0 <= start <= n <= files.len(),
        crate::s3::laws::rising(files),
    ensures
        ({
            let l = page(files, start, n, bucket, prefix, delimiter).listing;
            forall|i: int, j: int|
                0 <= i < j < l.objects.len() ==> text_lt(
                    "/"@ + bucket + "/"@ + (#[trigger] l.objects[i]).key,
                    "/"@ + bucket + "/"@ + (#[trigger] l.objects[j]).key,
                )
        }),
    decreases n - start,
{
    if n > start {
        let p = page(files, start, n - 1, bucket, prefix, delimiter);
        let q = page(files, start, n, bucket, prefix, delimiter);
        law_page_is_in_order(files, start, n - 1, bucket, prefix, delimiter);
        if !p.truncated && p.listing.objects.len() < 1000 {
            let none = Seq::<Seq<char>>::empty();
            let l = p.listing;
            let m = q.listing;
            let seen = law_page_shows_its_files(files, start, n - 1, bucket, prefix, delimiter);
            let key = lemma_entry(files[n - 1], bucket, prefix, delimiter);
            let home = "/"@ + bucket + "/"@;
            assert forall|i: int, j: int| 0 <= i < j < m.objects.len() implies text_lt(
                home + (#[trigger] m.objects[i]).key,
                home + (#[trigger] m.objects[j]).key,
            ) by {
                assert(m.objects[i] == l.objects[i]);
                if j < l.objects.len() {
                    assert(m.objects[j] == l.objects[j]);
                } else {
                    let k = l.objects[i].key;
                    assert(shown(files, none, start, n - 1, bucket, k));
                    let x = choose|x: int|
                        start <= x < n - 1 && #[trigger] shows(files[x], bucket, k) && !is_part(
                            files[x],
                            none,
                        );
                    assert(shows(files[n - 1], bucket, m.objects[j].key));
                    assert(text_lt(files[x], files[n - 1]));
                }
            }
        }
    }
}

/// What is told of an object beside its key.
pub proof fn law_what_is_told_of_objects(key: Seq<char>, etag: Seq<char>)
    ensures
        listed(key, etag).key == key,
        listed(key, etag).etag == etag,
        listed(key, etag).size == 0,
        listed(key, etag).storage_class == "STANDARD"@,
        listed(key, etag).owner_id == "dfs"@,
        listed(key, etag).owner_name == "dfs"@,
        listed(key, etag).last_modified == "2025-01-01T00:00:00.000Z"@,
{
}

/// The answer to a request for the objects of a bucket: every common prefix is
/// one as it should be, none is there twice, and each visible key under the
/// prefix that is not a part of an upload is among the objects or begins with a
/// common prefix.
pub proof fn law_answered_listing(
    files: Vec<String>,
    bucket: &str,
    prefix: Option<String>,
    delimiter: Option<String>,
    r: ListBucketResult,
    key: Seq<char>,
    i: int,
)
    requires
        call_ensures(list_objects, (&files, bucket, &prefix, &delimiter), r),
    ensures
        ({
            let fs = files.deep_view();
            let n = fs.len() as int;
            let ups = uploads(fs);
            let d = delimiter.deep_view();
            let p = prefix.deep_view();
            &&& r.common_prefixes.deep_view().no_duplicates()
            &&& 0 <= i < r.common_prefixes.deep_view().len() ==> fair_prefix(
                r.common_prefixes.deep_view()[i],
                fs,
                ups,
                0,
                n,
                bucket@,
                p,
                d,
            )
            &&& shown(fs, ups, 0, n, bucket@, key) && wanted(p).is_prefix_of(key) ==> {
                let answered = Listing {
                    objects: r.contents.deep_view(),
                    prefixes: r.common_prefixes.deep_view(),
                };
                has_prefix_of(answered, key) || has_key(answered, key)
            }
        }),
{
    let fs = files.deep_view();
    let ups = uploads(fs);
    let p = prefix.deep_view();
    let d = delimiter.deep_view();
    law_listing_shows_the_bucket(fs, ups, bucket@, p, d);
    let l = listed_files(fs, ups, bucket@, p, d);
    let answered = Listing {
        objects: r.contents.deep_view(),
        prefixes: r.common_prefixes.deep_view(),
    };
    let more = listed_uploads(ups, bucket@, p);
    assert(answered.prefixes == l.prefixes);
    assert(answered.objects == l.objects + more);
    if 0 <= i < l.prefixes.len() {
        assert(fair_prefix(l.prefixes[i], fs, ups, 0, fs.len() as int, bucket@, p, d));
    }
    if shown(fs, ups, 0, fs.len() as int, bucket@, key) && wanted(p).is_prefix_of(key) {
        if parted(key, p, d) {
            assert(has_prefix_of(l, key));
            let k = choose|k: int|
                0 <= k < l.prefixes.len() && (#[trigger] l.prefixes[k]).is_prefix_of(key);
            assert(answered.prefixes[k].is_prefix_of(key));
        } else {
            assert(has_key(l, key));
            let k = choose|k: int| 0 <= k < l.objects.len() && (#[trigger] l.objects[k]).key == key;
            assert(answered.objects[k] == l.objects[k]);
            assert(has_key(answered, key));
        }
    }
}

/// A page that is answered holds common prefixes as they should be, none twice,
/// and at most a thousand objects, each a visible key under the prefix; and one
/// that is not cut short misses no visible key behind its marker.
pub proof fn law_answered_page(
    files: Vec<String>,
    bucket: &str,
    prefix: Option<String>,
    delimiter: Option<String>,
    token: Option<String>,
    start_after: Option<String>,
    r: ListBucketResultV2,
    i: int,
)
    requires
        call_ensures(
            list_objects_v2,
            (&files, bucket, &prefix, &delimiter, &token, &start_after),
            r,
        ),
    ensures
        ({
            let fs = sorted_texts(files.deep_view());
            let none = Seq::<Seq<char>>::empty();
            let n = fs.len() as int;
            let d = delimiter.deep_view();
            let p = prefix.deep_view();
            &&& r.common_prefixes.deep_view().no_duplicates()
            &&& r.contents@.len() <= 1000
            &&& r.key_count == r.contents@.len()
            &&& 0 <= i < r.common_prefixes@.len() ==> {
                let c = r.common_prefixes.deep_view()[i];
                d is Some && ends_at_first(c, wanted(p), d->Some_0)
            }
            &&& 0 <= i < r.contents@.len() ==> {
                let k = r.contents.deep_view()[i].key;
                wanted(p).is_prefix_of(k) && !parted(k, p, d)
            }
            &&& !r.is_truncated ==> exists|start: int| #[trigger]
                is_listing(
                    Listing {
                        objects: r.contents.deep_view(),
                        prefixes: r.common_prefixes.deep_view(),
                    },
                    fs,
                    none,
                    start,
                    n,
                    bucket@,
                    p,
                    d,
                )
        }),
{
    let all = files.deep_view();
    let fs = sorted_texts(all);
    let p = prefix.deep_view();
    let d = delimiter.deep_view();
    let marker = marker_of(start_after.deep_view(), token.deep_view());
    let start = page_start(fs, bucket@, marker);
    lemma_sorted(all);
    lemma_skips(fs, "/"@ + bucket@ + "/"@ + marker);
    let seen = law_page_shows_its_files(fs, start, fs.len() as int, bucket@, p, d);
    let l = page(fs, start, fs.len() as int, bucket@, p, d).listing;
    assert(l == Listing {
        objects: r.contents.deep_view(),
        prefixes: r.common_prefixes.deep_view(),
    });
    if 0 <= i < r.common_prefixes@.len() {
        assert(fair_prefix(
            l.prefixes[i],
            fs,
            Seq::empty(),
            start,
            seen,
            bucket@,
            p,
            d,
        ));
    }
    if 0 <= i < r.contents@.len() {
        assert(l.objects[i] == r.contents.deep_view()[i]);
    }
}

} // verus!
