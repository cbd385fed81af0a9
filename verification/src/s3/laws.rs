//! What the gateway promises of listings and of objects in parts.

use crate::s3::listing::{
    bucket_names, bucket_of, file_entry, page, page_start, page_token, skipped, MAX_KEYS,
};
use crate::s3::objects::{
    deletes_failed, keys_deleted, ordered_parts, part_number, part_rank,
};
use crate::sorting::{lemma_lt_asymmetric, lemma_lt_irreflexive};
use crate::text::text_lt;
use vstd::prelude::*;

verus! {

/// Every path comes before all that follow it.
pub open spec fn rising(files: Seq<Seq<char>>) -> bool {
    forall|i: int, j: int|
        0 <= i < j < files.len() ==> text_lt(#[trigger] files[i], #[trigger] files[j])
}

/// Where a page that is full ended.
proof fn lemma_page_end(
    files: Seq<Seq<char>>,
    start: int,
    n: int,
    bucket: Seq<char>,
    prefix: Option<Seq<char>>,
    delimiter: Option<Seq<char>>,
) -> (i: int)
    requires
        page(files, start, n, bucket, prefix, delimiter).truncated,
    ensures
        start < i < n,
        ({
            let full = page(files, start, n, bucket, prefix, delimiter);
            let before = page(files, start, i, bucket, prefix, delimiter);
            &&& !before.truncated
            &&& before.listing == full.listing
            &&& full.listing.objects.len() >= MAX_KEYS
            &&& full.token == page_token(files[i - 1], bucket)
        }),
    decreases n - start,
{
    let p = page(files, start, n - 1, bucket, prefix, delimiter);
    if p.truncated {
        lemma_page_end(files, start, n - 1, bucket, prefix, delimiter)
    } else {
        n - 1
    }
}

proof fn lemma_skipped(files: Seq<Seq<char>>, marker: Seq<char>, i: int)
    requires
        0 <= i <= files.len(),
        forall|j: int| 0 <= j < i ==> !text_lt(marker, #[trigger] files[j]),
        i < files.len() ==> text_lt(marker, files[i]),
    ensures
        skipped(files, marker) == i,
    decreases i,
{
    if i > 0 {
        assert(!text_lt(marker, files[0]));
        let t = files.drop_first();
        assert forall|j: int| 0 <= j < i - 1 implies !text_lt(marker, #[trigger] t[j]) by {
            assert(t[j] == files[j + 1]);
        }
        lemma_skipped(t, marker, i - 1);
    }
}

/// Pages follow on one another: the token of a full page names the place where
/// it ended, so that the next page begins with the first file that the page
/// did not look at.
pub proof fn law_pages_follow_on(
    files: Seq<Seq<char>>,
    start: int,
    bucket: Seq<char>,
    prefix: Option<Seq<char>>,
    delimiter: Option<Seq<char>>,
)
    requires
        rising(files),
        0 <= start,
        page(files, start, files.len() as int, bucket, prefix, delimiter).truncated,
        page(files, start, files.len() as int, bucket, prefix, delimiter).token matches Some(t)
            && t.len() > 0,
    ensures
        ({
            let p = page(files, start, files.len() as int, bucket, prefix, delimiter);
            let next = page_start(files, bucket, p.token->0);
            &&& start < next < files.len()
            &&& p.listing == page(files, start, next, bucket, prefix, delimiter).listing
            &&& !page(files, start, next, bucket, prefix, delimiter).truncated
        }),
{
    let i = lemma_page_end(files, start, files.len() as int, bucket, prefix, delimiter);
    let home = "/"@ + bucket + "/"@;
    let f = files[i - 1];
    let t = page_token(f, bucket)->0;
    assert(home + t =~= f);
    assert forall|j: int| 0 <= j < i implies !text_lt(f, #[trigger] files[j]) by {
        if j < i - 1 {
            assert(text_lt(files[j], files[i - 1]));
            lemma_lt_asymmetric(files[j], f);
        } else {
            lemma_lt_irreflexive(f);
        }
    }
    assert(text_lt(files[i - 1], files[i]));
    lemma_skipped(files, f, i);
}

/// A page holds no more objects than a page can.
pub proof fn law_pages_are_bounded(
    files: Seq<Seq<char>>,
    start: int,
    n: int,
    bucket: Seq<char>,
    prefix: Option<Seq<char>>,
    delimiter: Option<Seq<char>>,
)
    ensures
        page(files, start, n, bucket, prefix, delimiter).listing.objects.len() <= MAX_KEYS,
        page(files, start, n, bucket, prefix, delimiter).truncated ==> page(
            files,
            start,
            n,
            bucket,
            prefix,
            delimiter,
        ).listing.objects.len() == MAX_KEYS,
    decreases n - start,
{
    if n > start {
        law_pages_are_bounded(files, start, n - 1, bucket, prefix, delimiter);
        let e = file_entry(files[n - 1], bucket, prefix, delimiter);
        let l = page(files, start, n - 1, bucket, prefix, delimiter).listing;
        assert(l.with(e).objects.len() <= l.objects.len() + 1);
    }
}

/// Every bucket is listed, once, and nothing else.
pub proof fn law_buckets_are_listed(paths: Seq<Seq<char>>)
    ensures
        bucket_names(paths).no_duplicates(),
        forall|i: int|
            0 <= i < paths.len() && bucket_of(#[trigger] paths[i]).len() > 0 ==> bucket_names(
                paths,
            ).contains(bucket_of(paths[i])),
        forall|k: int|
            0 <= k < bucket_names(paths).len() ==> named_by(paths, #[trigger] bucket_names(
                paths,
            )[k]),
    decreases paths.len(),
{
    if paths.len() > 0 {
        let d = paths.drop_last();
        let rest = bucket_names(d);
        let all = bucket_names(paths);
        let b = bucket_of(paths.last());
        law_buckets_are_listed(d);
        assert forall|i: int|
            0 <= i < paths.len() && bucket_of(#[trigger] paths[i]).len() > 0 implies all.contains(
            bucket_of(paths[i]),
        ) by {
            if i < d.len() {
                assert(d[i] == paths[i]);
                let k = rest.index_of(bucket_of(d[i]));
                assert(all[k] == rest[k]);
            } else if !rest.contains(b) {
                assert(all[all.len() - 1] == b);
            }
        }
        assert forall|k: int| 0 <= k < all.len() implies named_by(paths, #[trigger] all[k]) by {
            if k < rest.len() {
                assert(named_by(d, rest[k]));
                let i = choose|i: int|
                    0 <= i < d.len() && bucket_of(#[trigger] d[i]) == rest[k];
                assert(paths[i] == d[i]);
            } else {
                assert(bucket_of(paths[paths.len() - 1]) == all[k]);
            }
        }
    }
}

/// Some path lies in the bucket.
pub open spec fn named_by(paths: Seq<Seq<char>>, bucket: Seq<char>) -> bool {
    exists|i: int| 0 <= i < paths.len() && bucket_of(#[trigger] paths[i]) == bucket
}

/// The parts stand by rising number.
pub open spec fn in_sequence(parts: Seq<(i32, Seq<char>)>) -> bool {
    forall|i: int, j: int|
        0 <= i < j < parts.len() ==> (#[trigger] parts[i]).0 <= (#[trigger] parts[j]).0
}

proof fn lemma_part_place(parts: Seq<(i32, Seq<char>)>, n: i32)
    requires
        in_sequence(parts),
    ensures
        part_rank(parts, n) <= parts.len(),
        forall|i: int| 0 <= i < part_rank(parts, n) ==> (#[trigger] parts[i]).0 <= n,
        forall|i: int| part_rank(parts, n) <= i < parts.len() ==> (#[trigger] parts[i]).0 > n,
    decreases parts.len(),
{
    if parts.len() > 0 && parts[0].0 <= n {
        let t = parts.drop_first();
        assert(in_sequence(t)) by {
            assert forall|i: int, j: int| 0 <= i < j < t.len() implies (#[trigger] t[i]).0 <= (
            #[trigger] t[j]).0 by {
                assert(parts[i + 1].0 <= parts[j + 1].0);
            }
        }
        lemma_part_place(t, n);
        assert forall|i: int| 0 <= i < part_rank(parts, n) implies (#[trigger] parts[i]).0 <= n by {
            if i > 0 {
                assert(parts[i] == t[i - 1]);
            }
        }
        assert forall|i: int| part_rank(parts, n) <= i < parts.len() implies (
        #[trigger] parts[i]).0 > n by {
            assert(parts[i] == t[i - 1]);
        }
    } else if parts.len() > 0 {
        assert forall|i: int| 0 <= i < parts.len() implies (#[trigger] parts[i]).0 > n by {
            if i > 0 {
                assert(parts[0].0 <= parts[i].0);
            }
        }
    }
}

proof fn lemma_parts_sorted(files: Seq<Seq<char>>)
    ensures
        in_sequence(ordered_parts(files)),
    decreases files.len(),
{
    if files.len() > 0 {
        let f = files.last();
        let rest = ordered_parts(files.drop_last());
        let all = ordered_parts(files);
        lemma_parts_sorted(files.drop_last());
        if let Some(n) = part_number(f) {
            lemma_part_place(rest, n);
            let r = part_rank(rest, n) as int;
            assert(all == rest.insert(r, (n, f)));
            assert forall|i: int, j: int| 0 <= i < j < all.len() implies (#[trigger] all[i]).0 <= (
            #[trigger] all[j]).0 by {
                let i0 = if i < r {
                    i
                } else {
                    i - 1
                };
                let j0 = if j < r {
                    j
                } else {
                    j - 1
                };
                if i != r {
                    assert(all[i] == rest[i0]);
                }
                if j != r {
                    assert(all[j] == rest[j0]);
                }
            }
        }
    }
}

/// The file is a part of the object.
pub open spec fn is_part_of(files: Seq<Seq<char>>, p: (i32, Seq<char>)) -> bool {
    files.contains(p.1) && part_number(p.1) == Some(p.0)
}

proof fn lemma_parts_known(files: Seq<Seq<char>>, p: (i32, Seq<char>))
    ensures
        ordered_parts(files).contains(p) == is_part_of(files, p),
    decreases files.len(),
{
    if files.len() > 0 {
        let d = files.drop_last();
        let f = files.last();
        let rest = ordered_parts(d);
        let all = ordered_parts(files);
        lemma_parts_known(d, p);
        assert(files.contains(p.1) == (d.contains(p.1) || p.1 == f)) by {
            if d.contains(p.1) {
                assert(files[d.index_of(p.1)] == p.1);
            }
            if files.contains(p.1) && p.1 != f {
                assert(d[files.index_of(p.1)] == p.1);
            }
            assert(files[files.len() - 1] == f);
        }
        if let Some(n) = part_number(f) {
            lemma_parts_sorted(d);
            lemma_part_place(rest, n);
            lemma_inserted(rest, part_rank(rest, n) as int, (n, f), p);
        }
    }
}

proof fn lemma_inserted(
    s: Seq<(i32, Seq<char>)>,
    r: int,
    x: (i32, Seq<char>),
    p: (i32, Seq<char>),
)
    requires
        0 <= r <= s.len(),
    ensures
        s.insert(r, x).contains(p) == (s.contains(p) || p == x),
{
    let t = s.insert(r, x);
    assert(t[r] == x);
    if s.contains(p) {
        let k = s.index_of(p);
        assert(t[if k < r {
            k
        } else {
            k + 1
        }] == p);
    }
    if t.contains(p) && p != x {
        let k = t.index_of(p);
        assert(s[if k < r {
            k
        } else {
            k - 1
        }] == p);
    }
}

/// An object in parts is put together in the order of their numbers, from all
/// of its parts and from nothing else.
pub proof fn law_parts_in_sequence(files: Seq<Seq<char>>)
    ensures
        in_sequence(ordered_parts(files)),
        forall|p: (i32, Seq<char>)| #[trigger]
            ordered_parts(files).contains(p) == is_part_of(files, p),
{
    lemma_parts_sorted(files);
    assert forall|p: (i32, Seq<char>)| #[trigger] ordered_parts(files).contains(p) == is_part_of(
        files,
        p,
    ) by {
        lemma_parts_known(files, p);
    }
}

/// Every deletion that was asked for is answered for, as done or as failed.
pub proof fn law_deletes_are_answered(outcomes: Seq<(Seq<char>, Option<Seq<char>>)>)
    ensures
        keys_deleted(outcomes).len() + deletes_failed(outcomes).len() == outcomes.len(),
    decreases outcomes.len(),
{
    if outcomes.len() > 0 {
        law_deletes_are_answered(outcomes.drop_last());
    }
}

} // verus!
