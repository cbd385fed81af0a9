//! What requests for buckets and objects come to: what is asked for, which
//! bytes are sent, where parts and copies lie, and what deletions are answered.

use crate::parse::after_last;
use crate::reading::{
    law_cut, law_cut_undoes_joining, law_numbers_read_back, law_split_in_two,
    law_split_undoes_joining, law_trim,
};
use crate::s3::listing::bucket_of;
use crate::s3::objects::{
    bucket_and_key, copy_source, create_bucket_status, delete_bucket, deletes_failed, deletions,
    head_object_status, is_multipart, is_servable, is_vacant, keys_deleted, object_answer,
    operation_of, part_moves, part_number, path_of, range_ends, signed_text, upload_dir,
    user_headers, Method, OperationView,
};
use crate::s3::types::S3Error;
use crate::text::{decimal, occurs};
use vstd::prelude::*;
use vstd::string::*;

verus! {

/// A path names its bucket before the first slash and its key behind it.
pub proof fn law_bucket_and_key(bucket: Seq<char>, key: Seq<char>)
    requires
        !bucket.contains('/'),
    ensures
        bucket_and_key(bucket + "/"@ + key) == (bucket, key),
        bucket_and_key(bucket) == (bucket, Seq::<char>::empty()),
{
    reveal_strlit("/");
    assert("/"@ =~= seq!['/']);
    law_cut_undoes_joining(bucket, '/', key);
    law_cut(bucket, '/');
    if let Some(p) = crate::parse::cut_first(bucket, '/') {
        assert(bucket[p.0.len() as int] == '/');
        assert(bucket.contains('/'));
    }
}

/// What is asked of a bucket: its creation, its deletion, whether it is there,
/// a listing of the form that is named, or the deletion of many objects.
pub proof fn law_asked_of_a_bucket(
    bucket: Seq<char>,
    method: Method,
    uploads: bool,
    upload_id: Option<Seq<char>>,
    number: Option<i32>,
    delete: bool,
    list_type: Option<i32>,
    copies: bool,
)
    requires
        !bucket.contains('/'),
    ensures
        ({
            let asked = operation_of(
                bucket,
                method,
                uploads,
                upload_id,
                number,
                delete,
                list_type,
                copies,
            );
            &&& operation_of(
                bucket + "/"@,
                method,
                uploads,
                upload_id,
                number,
                delete,
                list_type,
                copies,
            ) == asked
            &&& asked is CreateBucket <==> method == Method::Put
            &&& asked is DeleteBucket <==> method == Method::Delete
            &&& asked is HeadBucket <==> method == Method::Head
            &&& asked is ListObjectsV2 <==> method == Method::Get && list_type == Some(2i32)
            &&& asked is ListObjects <==> method == Method::Get && list_type != Some(2i32)
            &&& asked is DeleteObjects <==> method == Method::Post && delete
            &&& asked is NotAllowed <==> method == Method::Other || (method == Method::Post
                && !delete)
        }),
{
    law_bucket_and_key(bucket, Seq::empty());
    assert(bucket + "/"@ + Seq::<char>::empty() =~= bucket + "/"@);
}

/// What is asked of an object: a step of an upload in parts where the request
/// names one and its method is of that kind, and else the object itself.
pub proof fn law_asked_of_an_object(
    bucket: Seq<char>,
    key: Seq<char>,
    method: Method,
    uploads: bool,
    upload_id: Option<Seq<char>>,
    number: Option<i32>,
    delete: bool,
    list_type: Option<i32>,
    copies: bool,
)
    requires
        !bucket.contains('/'),
        key.len() > 0,
    ensures
        ({
            let asked = operation_of(
                bucket + "/"@ + key,
                method,
                uploads,
                upload_id,
                number,
                delete,
                list_type,
                copies,
            );
            let begins = uploads && method == Method::Post;
            let named = !begins && upload_id is Some;
            &&& asked is InitiateUpload <==> begins
            &&& asked is UploadPart <==> named && method == Method::Put && number is Some
            &&& asked is CompleteUpload <==> named && method == Method::Post
            &&& asked is AbortUpload <==> named && method == Method::Delete
            &&& asked matches OperationView::UploadPart { upload_id: u, part_number: n } ==> Some(u)
                == upload_id && Some(n) == number
            &&& asked matches OperationView::CompleteUpload { upload_id: u } ==> Some(u)
                == upload_id
            &&& asked matches OperationView::AbortUpload { upload_id: u } ==> Some(u) == upload_id
            &&& asked is GetObject <==> method == Method::Get
            &&& asked is HeadObject <==> method == Method::Head
            &&& asked is DeleteObject <==> method == Method::Delete && upload_id is None
            &&& asked is CopyObject || asked is PutObject <==> method == Method::Put && !(upload_id
                is Some && number is Some)
            &&& asked is CopyObject ==> copies
            &&& asked is PutObject ==> !copies
        }),
{
    law_bucket_and_key(bucket, key);
}

/// The header asks for the bytes from `a` to `b`.
pub open spec fn from_to(a: u64, b: u64) -> Seq<char> {
    "bytes="@ + decimal(a as nat) + "-"@ + decimal(b as nat)
}

/// The header asks for the bytes from `a` on.
pub open spec fn from_on(a: u64) -> Seq<char> {
    "bytes="@ + decimal(a as nat) + "-"@
}

proof fn lemma_ends(x: Seq<char>, y: Seq<char>)
    requires
        !x.contains('-'),
        !y.contains('-'),
    ensures
        range_ends(Some("bytes="@ + x + "-"@ + y)) == Some((x, y)),
{
    reveal_strlit("-");
    let b = "bytes="@;
    let h = b + x + "-"@ + y;
    assert("-"@ =~= seq!['-']);
    assert(b =~= h.take(b.len() as int));
    assert(h.skip(b.len() as int) =~= x + seq!['-'] + y);
    law_split_in_two(x, '-', y);
}

/// A range from one byte to another is answered with just those bytes, as far
/// as the object has them, and with what they are.
pub proof fn law_range_is_sent(data: Seq<u8>, multipart: bool, a: u64, b: u64, i: int)
    requires
        data.len() <= u64::MAX,
        a <= b,
        a < data.len(),
    ensures
        is_servable(Some(from_to(a, b)), multipart, data.len() as u64),
        ({
            let r = object_answer(data, multipart, Some(from_to(a, b)));
            let last = if b < data.len() {
                b as int
            } else {
                data.len() - 1
            };
            &&& r.status == 206
            &&& r.body.len() == last - a + 1
            &&& 0 <= i < r.body.len() ==> r.body[i] == data[a + i]
            &&& r.content_length == Some(decimal((last - a + 1) as nat))
            &&& r.content_range == Some(
                "bytes "@ + decimal(a as nat) + "-"@ + decimal(last as nat) + "/"@ + decimal(
                    data.len(),
                ),
            )
        }),
{
    law_numbers_read_back(a, a);
    law_numbers_read_back(b, b);
    lemma_ends(decimal(a as nat), decimal(b as nat));
}

/// A range without an end is answered with all bytes from its beginning on.
pub proof fn law_open_range_is_sent(data: Seq<u8>, multipart: bool, a: u64, i: int)
    requires
        data.len() <= u64::MAX,
        a < data.len(),
    ensures
        is_servable(Some(from_on(a)), multipart, data.len() as u64),
        ({
            let r = object_answer(data, multipart, Some(from_on(a)));
            &&& r.status == 206
            &&& r.body.len() == data.len() - a
            &&& 0 <= i < r.body.len() ==> r.body[i] == data[a + i]
        }),
{
    law_numbers_read_back(a, a);
    let e = Seq::<char>::empty();
    lemma_ends(decimal(a as nat), e);
    assert("bytes="@ + decimal(a as nat) + "-"@ + e =~= from_on(a));
    assert(crate::parse::number_of(e) is None);
}

/// Without a range the whole object is sent, as it is.
pub proof fn law_whole_object_is_sent(data: Seq<u8>, multipart: bool)
    requires
        data.len() <= u64::MAX,
    ensures
        ({
            let r = object_answer(data, multipart, None);
            &&& r.status == 200
            &&& r.body == data
            &&& r.content_range is None
            &&& r.content_length is None
        }),
        data.len() > 0 || multipart ==> is_servable(None, multipart, data.len() as u64),
{
    if data.len() == 0 {
        assert(data =~= Seq::<u8>::empty());
    }
}

/// Whatever is asked for, what is sent is a piece of the object without a gap,
/// and a partial answer says which one.
pub proof fn law_what_is_sent_is_a_piece(
    data: Seq<u8>,
    multipart: bool,
    header: Option<Seq<char>>,
) -> (at: int)
    requires
        data.len() <= u64::MAX,
        is_servable(header, multipart, data.len() as u64),
    ensures
        ({
            let r = object_answer(data, multipart, header);
            &&& 0 <= at <= at + r.body.len() <= data.len()
            &&& r.body == data.subrange(at, at + r.body.len())
            &&& r.status == 200 <==> r.content_range is None
            &&& r.status == 200 ==> r.body == data
            &&& r.status == 206 ==> r.body.len() > 0 && r.content_length == Some(
                decimal(r.body.len()),
            )
            &&& r.status == 200 || r.status == 206
        }),
{
    let r = crate::s3::objects::range_sent(header, multipart, data.len() as u64);
    let a = object_answer(data, multipart, header);
    if data.len() == 0 {
        assert(data =~= Seq::<u8>::empty());
        assert(a.body =~= data.subrange(0, 0));
        0
    } else if r.partial {
        assert(a.body =~= data.subrange(r.start as int, r.start + a.body.len()));
        r.start as int
    } else {
        assert(data =~= data.subrange(0, data.len() as int));
        0
    }
}

proof fn lemma_no_suffix(s: Seq<char>, t: Seq<char>)
    requires
        s.len() > 0,
        t.len() > 0,
        s.last() != t.last(),
    ensures
        !t.is_suffix_of(s),
{
    if t.is_suffix_of(s) {
        assert(s.subrange(s.len() - t.len(), s.len() as int)[t.len() - 1] == t[t.len() - 1]);
    }
}

/// The path of a part tells its number.
pub proof fn law_part_numbers_read_back(upload_id: Seq<char>, n: i32)
    requires
        n > i32::MIN,
    ensures
        part_number(upload_dir(upload_id) + "/"@ + signed_text(n as int)) == Some(n),
{
    reveal_strlit("/");
    reveal_strlit("-");
    reveal_strlit(".s3keep");
    reveal_strlit(".s3_mpu_completed");
    assert("/"@ =~= seq!['/']);
    assert("-"@ =~= seq!['-']);
    let m: u64 = if n < 0 {
        (-n) as u64
    } else {
        n as u64
    };
    law_numbers_read_back(m, m);
    let d = decimal(m as nat);
    let t = signed_text(n as int);
    if n < 0 {
        assert(t == seq!['-'] + d);
        assert(!t.contains('/')) by {
            if t.contains('/') {
                let i = t.index_of('/');
                assert(d[i - 1] == '/');
                assert(d.contains('/'));
            }
        }
    } else {
        assert(t == d);
    }
    let f = upload_dir(upload_id) + "/"@ + t;
    law_split_undoes_joining(upload_dir(upload_id), '/', t);
    assert(t.last() == d.last());
    assert(f.last() == d.last());
    assert(".s3keep"@.last() == 'p');
    assert(".s3_mpu_completed"@.last() == 'd');
    lemma_no_suffix(f, ".s3keep"@);
    lemma_no_suffix(f, ".s3_mpu_completed"@);
}

/// The parts of an upload move to the directory of their object under their own
/// names, each of them; the file that keeps the directory does not.
pub proof fn law_parts_move(files: Seq<Seq<char>>, dest_dir: Seq<char>, m: (Seq<char>, Seq<char>))
    ensures
        part_moves(files, dest_dir).contains(m) <==> files.contains(m.0)
            && !".s3keep"@.is_suffix_of(m.0) && m.1 == dest_dir + "/"@ + after_last(m.0, '/'),
    decreases files.len(),
{
    let all = part_moves(files, dest_dir);
    if files.len() > 0 {
        let d = files.drop_last();
        let r = part_moves(d, dest_dir);
        let f = files.last();
        law_parts_move(d, dest_dir, m);
        assert(files[files.len() - 1] == f);
        if d.contains(m.0) {
            assert(files[d.index_of(m.0)] == m.0);
        }
        if files.contains(m.0) && m.0 != f {
            assert(d[files.index_of(m.0)] == m.0);
        }
        if r.contains(m) {
            assert(all[r.index_of(m)] == m);
        }
        if all.contains(m) && !r.contains(m) {
            let i = all.index_of(m);
            if i < r.len() {
                assert(r[i] == m);
            }
        }
        if !".s3keep"@.is_suffix_of(f) {
            assert(all[r.len() as int] == (f, dest_dir + "/"@ + after_last(f, '/')));
        }
    } else {
        assert(!all.contains(m));
        assert(!files.contains(m.0));
    }
}

/// A copy comes from the path that is named, with a slash at its beginning.
pub proof fn law_copies_come_from_a_path(source: Seq<char>)
    ensures
        source.len() > 0 && source[0] == '/' ==> copy_source(source) == source,
        source.len() == 0 || source[0] != '/' ==> copy_source(source) == "/"@ + source,
{
    reveal_strlit("/");
    if source.len() > 0 && source[0] == '/' {
        assert("/"@ =~= source.take(1));
    }
    if "/"@.is_prefix_of(source) {
        assert(source.take(1)[0] == "/"@[0]);
    }
}

/// A bucket is empty for deletion if it has no files, or one that keeps it.
pub proof fn law_when_a_bucket_is_empty(files: Seq<Seq<char>>)
    ensures
        is_vacant(files) <==> files.len() == 0 || (files.len() == 1 && ".s3keep"@.is_suffix_of(
            files[0],
        )),
{
}

/// Of many objects each is deleted at its own path, in the order in which they
/// are named.
pub proof fn law_each_object_is_deleted(
    bucket: Seq<char>,
    objects: Seq<(Seq<char>, Option<Seq<char>>)>,
    i: int,
)
    requires
        0 <= i < objects.len(),
    ensures
        deletions(bucket, objects).len() == objects.len(),
        deletions(bucket, objects)[i].0 == objects[i].0,
        deletions(bucket, objects)[i].1 == "/"@ + bucket + "/"@ + objects[i].0,
        path_of(bucket, objects[i].0) == "/"@ + bucket + "/"@ + objects[i].0,
{
}

/// A key is told to be deleted exactly if its deletion went well, and an error
/// is told exactly where one came up, with its message.
pub proof fn law_deletions_are_told(
    outcomes: Seq<(Seq<char>, Option<Seq<char>>)>,
    key: Seq<char>,
    e: Seq<char>,
)
    ensures
        keys_deleted(outcomes).contains(key) <==> outcomes.contains((key, None)),
        deletes_failed(outcomes).contains((key, "InternalError"@, e)) <==> outcomes.contains(
            (key, Some(e)),
        ),
    decreases outcomes.len(),
{
    let done = keys_deleted(outcomes);
    let failed = deletes_failed(outcomes);
    let x = (key, None::<Seq<char>>);
    let y = (key, Some(e));
    let z = (key, "InternalError"@, e);
    if outcomes.len() > 0 {
        let d = outcomes.drop_last();
        let o = outcomes.last();
        let r = keys_deleted(d);
        let s = deletes_failed(d);
        law_deletions_are_told(d, key, e);
        assert(outcomes[outcomes.len() - 1] == o);
        if d.contains(x) {
            assert(outcomes[d.index_of(x)] == x);
        }
        if d.contains(y) {
            assert(outcomes[d.index_of(y)] == y);
        }
        if outcomes.contains(x) && x != o {
            assert(d[outcomes.index_of(x)] == x);
        }
        if outcomes.contains(y) && y != o {
            assert(d[outcomes.index_of(y)] == y);
        }
        if r.contains(key) {
            assert(done[r.index_of(key)] == key);
        }
        if done.contains(key) && !r.contains(key) {
            let i = done.index_of(key);
            if i < r.len() {
                assert(r[i] == key);
            }
        }
        if s.contains(z) {
            assert(failed[s.index_of(z)] == z);
        }
        if failed.contains(z) && !s.contains(z) {
            let i = failed.index_of(z);
            if i < s.len() {
                assert(s[i] == z);
            }
        }
        if o.1 is None {
            assert(done[r.len() as int] == o.0);
        } else {
            assert(failed[s.len() as int] == (o.0, "InternalError"@, o.1->0));
        }
    } else {
        assert(!done.contains(key));
        assert(!failed.contains(z));
        assert(!outcomes.contains(x));
        assert(!outcomes.contains(y));
    }
}

/// Just the headers for users are kept with an object, each with the value that
/// was given last.
pub proof fn law_user_headers_are_kept(headers: Seq<(Seq<char>, Seq<char>)>, i: int)
    requires
        0 <= i < headers.len(),
        forall|j: int| i < j < headers.len() ==> (#[trigger] headers[j]).0 != headers[i].0,
    ensures
        user_headers(headers).contains_key(headers[i].0) <==> "x-amz-meta-"@.is_prefix_of(
            headers[i].0,
        ),
        user_headers(headers).contains_key(headers[i].0) ==> user_headers(headers)[headers[i].0]
            == headers[i].1,
    decreases headers.len(),
{
    let d = headers.drop_last();
    if i < d.len() {
        assert(headers[headers.len() - 1].0 != headers[i].0);
        assert forall|j: int| i < j < d.len() implies (#[trigger] d[j]).0 != d[i].0 by {
            assert(headers[j].0 != headers[i].0);
        }
        law_user_headers_are_kept(d, i);
        assert(d[i] == headers[i]);
    } else if !"x-amz-meta-"@.is_prefix_of(headers[i].0) {
        law_no_other_headers(d, headers[i].0);
    }
}

/// No header is kept that was not given, or that is not for users.
pub proof fn law_no_other_headers(headers: Seq<(Seq<char>, Seq<char>)>, name: Seq<char>)
    ensures
        user_headers(headers).contains_key(name) ==> "x-amz-meta-"@.is_prefix_of(name) && exists|
            i: int,
        |
            0 <= i < headers.len() && (#[trigger] headers[i]).0 == name,
    decreases headers.len(),
{
    if headers.len() > 0 {
        let d = headers.drop_last();
        law_no_other_headers(d, name);
        assert(headers[headers.len() - 1] == headers.last());
        if user_headers(d).contains_key(name) {
            let i = choose|i: int| 0 <= i < d.len() && (#[trigger] d[i]).0 == name;
            assert(headers[i] == d[i]);
        }
    }
}

/// The bucket of a path is its first component.
pub proof fn law_bucket_of_a_path(bucket: Seq<char>, rest: Seq<char>)
    requires
        bucket.len() > 0,
        !bucket.contains('/'),
        rest.len() > 0,
        rest.last() != '/',
    ensures
        bucket_of("/"@ + bucket + "/"@ + rest) == bucket,
        bucket_of("/"@ + bucket) == bucket,
{
    reveal_strlit("/");
    assert("/"@ =~= seq!['/']);
    assert(bucket.contains(bucket[0]));
    assert(bucket.contains(bucket[bucket.len() - 1]));
    let f = "/"@ + bucket + "/"@ + rest;
    let from = law_trim(f, '/');
    let t = crate::parse::trim_both(f, '/');
    assert(f[1] == bucket[0]);
    assert(f[0] == '/');
    assert(f.last() == rest.last());
    assert(from + t.len() == f.len()) by {
        if from + t.len() < f.len() {
            assert(f[f.len() - 1] == '/');
        }
    }
    assert(from == 1) by {
        if from > 1 {
            assert(f[1] == '/');
        }
        if from == 0 {
            assert(t[0] == f[0]);
        }
    }
    assert(t =~= bucket + seq!['/'] + rest);
    law_cut_undoes_joining(bucket, '/', rest);
    let g = "/"@ + bucket;
    let at = law_trim(g, '/');
    let u = crate::parse::trim_both(g, '/');
    assert(g[1] == bucket[0]);
    assert(g[0] == '/');
    assert(g.last() == bucket.last());
    assert(at + u.len() == g.len()) by {
        if at + u.len() < g.len() {
            assert(g[g.len() - 1] == '/');
        }
    }
    assert(at == 1) by {
        if at > 1 {
            assert(g[1] == '/');
        }
        if at == 0 {
            assert(u[0] == g[0]);
        }
    }
    assert(u =~= bucket);
    law_cut(bucket, '/');
    if let Some(p) = crate::parse::cut_first(bucket, '/') {
        assert(bucket[p.0.len() as int] == '/');
        assert(bucket.contains('/'));
    }
}

/// Every part moves once, and the parts keep their order.
pub proof fn law_parts_move_once(files: Seq<Seq<char>>, dest_dir: Seq<char>)
    ensures
        part_moves(files, dest_dir) == files.filter(
            |f: Seq<char>| !".s3keep"@.is_suffix_of(f),
        ).map_values(|f: Seq<char>| (f, dest_dir + "/"@ + after_last(f, '/'))),
    decreases files.len(),
{
    reveal(Seq::filter);
    let p = |f: Seq<char>| !".s3keep"@.is_suffix_of(f);
    let g = |f: Seq<char>| (f, dest_dir + "/"@ + after_last(f, '/'));
    if files.len() > 0 {
        let d = files.drop_last();
        let x = files.last();
        law_parts_move_once(d, dest_dir);
        assert(d.filter(p).push(x).map_values(g) =~= d.filter(p).map_values(g).push(g(x)));
    } else {
        assert(part_moves(files, dest_dir) =~= files.filter(p).map_values(g));
    }
}

/// A range that begins behind its end, or behind the object, cannot be served of
/// a plain object; of one in parts the whole object is sent.
pub proof fn law_empty_ranges(data: Seq<u8>, a: u64, b: u64)
    requires
        0 < data.len() <= u64::MAX,
        a > b || a >= data.len(),
    ensures
        !is_servable(Some(from_to(a, b)), false, data.len() as u64),
        is_servable(Some(from_to(a, b)), true, data.len() as u64),
        object_answer(data, true, Some(from_to(a, b))).status == 200,
        object_answer(data, true, Some(from_to(a, b))).body == data,
        object_answer(data, true, Some(from_to(a, b))).content_range is None,
{
    law_numbers_read_back(a, a);
    law_numbers_read_back(b, b);
    lemma_ends(decimal(a as nat), decimal(b as nat));
}

/// A range without a beginning is answered with the bytes from the first one on.
pub proof fn law_range_without_beginning(data: Seq<u8>, multipart: bool, b: u64, i: int)
    requires
        data.len() <= u64::MAX,
        b < data.len(),
    ensures
        ({
            let h = "bytes=-"@ + decimal(b as nat);
            let r = object_answer(data, multipart, Some(h));
            &&& is_servable(Some(h), multipart, data.len() as u64)
            &&& r.status == 206
            &&& r.body.len() == b + 1
            &&& 0 <= i < r.body.len() ==> r.body[i] == data[i]
        }),
{
    reveal_strlit("bytes=-");
    reveal_strlit("bytes=");
    reveal_strlit("-");
    law_numbers_read_back(b, b);
    let e = Seq::<char>::empty();
    lemma_ends(e, decimal(b as nat));
    assert("bytes="@ + e + "-"@ + decimal(b as nat) =~= "bytes=-"@ + decimal(b as nat));
    assert(crate::parse::number_of(e) is None);
}

/// A header that names no range, or more than one, does not count as one.
pub proof fn law_other_headers_send_all(data: Seq<u8>, multipart: bool, h: Seq<char>)
    requires
        data.len() <= u64::MAX,
        !"bytes="@.is_prefix_of(h),
    ensures
        object_answer(data, multipart, Some(h)).status == 200,
        object_answer(data, multipart, Some(h)).body == data,
{
    if data.len() == 0 {
        assert(data =~= Seq::<u8>::empty());
    }
}

/// A bucket is created with 200; one that exists already gives 409, and any
/// other failure 500. An object that is listed has a head, one that is not
/// listed gives 404, and a list that could not be read 500.
pub proof fn law_statuses(
    error: Option<String>,
    made: u16,
    files: Option<Vec<String>>,
    path: &str,
    found: u16,
)
    requires
        call_ensures(create_bucket_status, (&error,), made),
        call_ensures(head_object_status, (&files, path), found),
    ensures
        made == 200 <==> error is None,
        made == 409 <==> error is Some && occurs(error->0@, "already exists"@),
        made == 200 || made == 409 || made == 500,
        found == 200 <==> files is Some && files->0.deep_view().contains(path@),
        found == 404 <==> files is Some && !files->0.deep_view().contains(path@),
        found == 500 <==> files is None,
{
}

/// A directory is an object in parts exactly if it holds a completion marker; a
/// bucket is deleted only where nothing but the file that keeps it is in it, and
/// is refused by its name otherwise.
pub proof fn law_what_files_make(
    files: Vec<String>,
    multipart: bool,
    bucket: &str,
    refused: Option<S3Error>,
)
    requires
        call_ensures(is_multipart, (&files,), multipart),
        call_ensures(delete_bucket, (bucket, &files), refused),
    ensures
        multipart <==> exists|i: int|
            0 <= i < files.deep_view().len() && ".s3_mpu_completed"@.is_suffix_of(
                #[trigger] files.deep_view()[i],
            ),
        refused is None <==> files@.len() == 0 || (files@.len() == 1 && ".s3keep"@.is_suffix_of(
            files@[0]@,
        )),
        refused matches Some(e) ==> e@.code == "BucketNotEmpty"@ && e@.resource == bucket@,
{
    let fs = files.deep_view();
    assert(fs.len() == files@.len());
    if files@.len() == 1 {
        assert(fs[0] == files@[0]@);
    }
}

} // verus!
