//! Requests for buckets and objects: where they go, which paths they touch,
//! and how they are answered.

use crate::ids::{is_uuid, new_id};
use crate::parse::{
    after_last, cut_at, cut_first, integer_of, last_part, number_of, parse_integer, parse_number,
    part_of, split, split_text,
};
use crate::s3::types::{
    CompleteMultipartUploadResult, CopyObjectResult, DeleteError, DeleteObjectsRequest,
    DeleteObjectsResult, DeletedObject, ErrorView, InitiateMultipartUploadResult, Metadata,
    S3Error, S3Query,
};
use crate::strmap::StrMap;
use crate::text::{
    chars_of, concat, concat3, contains_text, decimal, decimal_text, ends_with, lists, occurs,
    starts_with,
};
use vstd::prelude::*;
use vstd::string::*;

verus! {

/// The method of a request.
#[derive(Debug, Clone, Copy, PartialEq, Eq, Structural)]
pub enum Method {
    Get,
    Put,
    Post,
    Delete,
    Head,
    /// Any other method
    Other,
}

/// What a request asks for.
#[derive(Debug)]
pub enum Operation {
    CreateBucket,
    DeleteBucket,
    HeadBucket,
    ListObjects,
    ListObjectsV2,
    DeleteObjects,
    InitiateUpload,
    UploadPart { upload_id: String, part_number: i32 },
    CompleteUpload { upload_id: String },
    AbortUpload { upload_id: String },
    CopyObject,
    PutObject,
    GetObject,
    DeleteObject,
    HeadObject,
    /// Nothing that is offered
    NotAllowed,
}

/// What the request stands for.
pub enum OperationView {
    CreateBucket,
    DeleteBucket,
    HeadBucket,
    ListObjects,
    ListObjectsV2,
    DeleteObjects,
    InitiateUpload,
    UploadPart { upload_id: Seq<char>, part_number: i32 },
    CompleteUpload { upload_id: Seq<char> },
    AbortUpload { upload_id: Seq<char> },
    CopyObject,
    PutObject,
    GetObject,
    DeleteObject,
    HeadObject,
    NotAllowed,
}

impl View for Operation {
    type V = OperationView;

    open spec fn view(&self) -> OperationView {
        match self {
            Operation::CreateBucket => OperationView::CreateBucket,
            Operation::DeleteBucket => OperationView::DeleteBucket,
            Operation::HeadBucket => OperationView::HeadBucket,
            Operation::ListObjects => OperationView::ListObjects,
            Operation::ListObjectsV2 => OperationView::ListObjectsV2,
            Operation::DeleteObjects => OperationView::DeleteObjects,
            Operation::InitiateUpload => OperationView::InitiateUpload,
            Operation::UploadPart { upload_id, part_number } => OperationView::UploadPart {
                upload_id: upload_id@,
                part_number: *part_number,
            },
            Operation::CompleteUpload { upload_id } => OperationView::CompleteUpload {
                upload_id: upload_id@,
            },
            Operation::AbortUpload { upload_id } => OperationView::AbortUpload {
                upload_id: upload_id@,
            },
            Operation::CopyObject => OperationView::CopyObject,
            Operation::PutObject => OperationView::PutObject,
            Operation::GetObject => OperationView::GetObject,
            Operation::DeleteObject => OperationView::DeleteObject,
            Operation::HeadObject => OperationView::HeadObject,
            Operation::NotAllowed => OperationView::NotAllowed,
        }
    }
}

/// The bucket and the key of a path; no key where nothing follows the bucket.
pub open spec fn bucket_and_key(path: Seq<char>) -> (Seq<char>, Seq<char>) {
    match cut_first(path, '/') {
        Some(p) => p,
        None => (path, Seq::empty()),
    }
}

/// What a request for a bucket asks for.
pub open spec fn bucket_operation(
    method: Method,
    delete: bool,
    list_type: Option<i32>,
) -> OperationView {
    match method {
        Method::Put => OperationView::CreateBucket,
        Method::Delete => OperationView::DeleteBucket,
        Method::Head => OperationView::HeadBucket,
        Method::Get => if list_type == Some(2i32) {
            OperationView::ListObjectsV2
        } else {
            OperationView::ListObjects
        },
        Method::Post => if delete {
            OperationView::DeleteObjects
        } else {
            OperationView::NotAllowed
        },
        _ => OperationView::NotAllowed,
    }
}

/// What a request for an object asks for, apart from uploads in parts.
pub open spec fn plain_operation(method: Method, copies: bool) -> OperationView {
    match method {
        Method::Put => if copies {
            OperationView::CopyObject
        } else {
            OperationView::PutObject
        },
        Method::Get => OperationView::GetObject,
        Method::Delete => OperationView::DeleteObject,
        Method::Head => OperationView::HeadObject,
        _ => OperationView::NotAllowed,
    }
}

/// What a request for an object asks for: a step of an upload in parts, if the
/// parameters say so.
pub open spec fn object_operation(
    method: Method,
    uploads: bool,
    upload_id: Option<Seq<char>>,
    part_number: Option<i32>,
    copies: bool,
) -> OperationView {
    if uploads && method == Method::Post {
        OperationView::InitiateUpload
    } else {
        match upload_id {
            Some(upload_id) => if method == Method::Put && part_number is Some {
                OperationView::UploadPart { upload_id, part_number: part_number->0 }
            } else if method == Method::Post {
                OperationView::CompleteUpload { upload_id }
            } else if method == Method::Delete {
                OperationView::AbortUpload { upload_id }
            } else {
                plain_operation(method, copies)
            },
            None => plain_operation(method, copies),
        }
    }
}

/// What a request for a path asks for.
pub open spec fn operation_of(
    path: Seq<char>,
    method: Method,
    uploads: bool,
    upload_id: Option<Seq<char>>,
    part_number: Option<i32>,
    delete: bool,
    list_type: Option<i32>,
    copies: bool,
) -> OperationView {
    if bucket_and_key(path).1.len() == 0 {
        bucket_operation(method, delete, list_type)
    } else {
        object_operation(method, uploads, upload_id, part_number, copies)
    }
}

/// Where a request goes.
#[derive(Debug)]
pub struct Target {
    pub bucket: String,
    pub key: String,
    pub operation: Operation,
}

/// Finds where a request goes; `copies` tells whether a source to copy from is
/// given.
pub fn handle_request(path: &str, method: Method, query: &S3Query, copies: bool) -> (r: Target)
    ensures
        (r.bucket@, r.key@) == bucket_and_key(path@),
        r.operation@ == operation_of(
            path@,
            method,
            query.uploads is Some,
            query.upload_id.deep_view(),
            query.part_number,
            query.delete is Some,
            query.list_type,
            copies,
        ),
{
    let (bucket, key): (String, String) = match cut_at(path, '/') {
        Some(p) => p,
        None => (path.to_owned(), String::new()),
    };
    if key.as_str().is_empty() {
        let operation = match method {
            Method::Put => Operation::CreateBucket,
            Method::Delete => Operation::DeleteBucket,
            Method::Head => Operation::HeadBucket,
            Method::Get => match query.list_type {
                Some(t) => if t == 2 {
                    Operation::ListObjectsV2
                } else {
                    Operation::ListObjects
                },
                None => Operation::ListObjects,
            },
            Method::Post => if query.delete.is_some() {
                Operation::DeleteObjects
            } else {
                Operation::NotAllowed
            },
            _ => Operation::NotAllowed,
        };
        return Target { bucket, key, operation };
    }
    if query.uploads.is_some() && method == Method::Post {
        return Target { bucket, key, operation: Operation::InitiateUpload };
    }
    if let Some(id) = &query.upload_id {
        let upload_id = id.clone();
        if let Some(part_number) = query.part_number {
            if method == Method::Put {
                return Target {
                    bucket,
                    key,
                    operation: Operation::UploadPart { upload_id, part_number },
                };
            }
        }
        if method == Method::Post {
            return Target { bucket, key, operation: Operation::CompleteUpload { upload_id } };
        }
        if method == Method::Delete {
            return Target { bucket, key, operation: Operation::AbortUpload { upload_id } };
        }
    }
    let operation = match method {
        Method::Put => if copies {
            Operation::CopyObject
        } else {
            Operation::PutObject
        },
        Method::Get => Operation::GetObject,
        Method::Delete => Operation::DeleteObject,
        Method::Head => Operation::HeadObject,
        _ => Operation::NotAllowed,
    };
    Target { bucket, key, operation }
}

/// Whether a request for the root is answered: only a listing is offered.
pub fn handle_root(method: Method) -> (r: bool)
    ensures
        r == (method == Method::Get),
{
    method == Method::Get
}

/// The path of an object.
pub open spec fn path_of(bucket: Seq<char>, key: Seq<char>) -> Seq<char> {
    "/"@ + bucket + "/"@ + key
}

/// The path of an object.
pub fn object_path(bucket: &str, key: &str) -> (r: String)
    ensures
        r@ == path_of(bucket@, key@),
{
    let mut r = concat3("/", bucket, "/");
    r.append(key);
    r
}

/// The path under which the metadata of an object is kept.
pub fn meta_path(path: &str) -> (r: String)
    ensures
        r@ == path@ + ".meta"@,
{
    concat(path, ".meta")
}

/// The path of a bucket.
pub fn bucket_path(bucket: &str) -> (r: String)
    ensures
        r@ == "/"@ + bucket@,
{
    concat("/", bucket)
}

/// The path of the file that keeps a directory.
pub fn keep_path(dir: &str) -> (r: String)
    ensures
        r@ == dir@ + "/.s3keep"@,
{
    concat(dir, "/.s3keep")
}

/// The directory of an upload in parts.
pub open spec fn upload_dir(upload_id: Seq<char>) -> Seq<char> {
    "/.s3_mpu/"@ + upload_id
}

/// The directory of an upload in parts.
pub fn upload_path(upload_id: &str) -> (r: String)
    ensures
        r@ == upload_dir(upload_id@),
{
    concat("/.s3_mpu/", upload_id)
}

/// A number with its sign.
pub open spec fn signed_text(n: int) -> Seq<char> {
    if n < 0 {
        "-"@ + decimal((-n) as nat)
    } else {
        decimal(n as nat)
    }
}

/// The path of a part of an upload.
pub fn part_path(upload_id: &str, part_number: i32) -> (r: String)
    ensures
        r@ == upload_dir(upload_id@) + "/"@ + signed_text(part_number as int),
{
    let dir = upload_path(upload_id);
    let number = if part_number < 0 {
        let n = decimal_text((0i64 - part_number as i64) as u64);
        concat("-", n.as_str())
    } else {
        decimal_text(part_number as u64)
    };
    concat3(dir.as_str(), "/", number.as_str())
}

/// Begins an upload in parts under the given id: the answer, and the path of
/// the file that keeps its directory.
pub fn initiate_upload_as(bucket: &str, key: &str, upload_id: String) -> (r: (
    InitiateMultipartUploadResult,
    String,
))
    ensures
        r.0.bucket@ == bucket@,
        r.0.key@ == key@,
        r.0.upload_id@ == upload_id@,
        r.1@ == upload_dir(upload_id@) + "/.s3keep"@,
{
    let dir = upload_path(upload_id.as_str());
    let marker = keep_path(dir.as_str());
    (
        InitiateMultipartUploadResult {
            bucket: bucket.to_owned(),
            key: key.to_owned(),
            upload_id,
        },
        marker,
    )
}

/// Begins an upload in parts under an id of its own.
pub fn initiate_upload(bucket: &str, key: &str) -> (r: (InitiateMultipartUploadResult, String))
    ensures
        r.0.bucket@ == bucket@,
        r.0.key@ == key@,
        is_uuid(r.0.upload_id@),
        r.1@ == upload_dir(r.0.upload_id@) + "/.s3keep"@,
{
    let id = new_id();
    initiate_upload_as(bucket, key, id)
}

/// The moves that bring the parts of an upload to their object.
pub open spec fn part_moves(files: Seq<Seq<char>>, dest_dir: Seq<char>) -> Seq<
    (Seq<char>, Seq<char>),
>
    decreases files.len(),
{
    if files.len() == 0 {
        Seq::empty()
    } else {
        let rest = part_moves(files.drop_last(), dest_dir);
        let f = files.last();
        if ".s3keep"@.is_suffix_of(f) {
            rest
        } else {
            rest.push((f, dest_dir + "/"@ + after_last(f, '/')))
        }
    }
}

/// The moves that bring the parts of an upload to their object.
pub fn plan_moves(files: &Vec<String>, dest_dir: &str) -> (r: Vec<(String, String)>)
    ensures
        r.deep_view() == part_moves(files.deep_view(), dest_dir@),
{
    let ghost fs = files.deep_view();
    let mut r: Vec<(String, String)> = Vec::new();
    let mut i: usize = 0;
    assert(fs.take(0) =~= Seq::<Seq<char>>::empty());
    assert(r.deep_view() =~= Seq::<(Seq<char>, Seq<char>)>::empty());
    while i < files.len()
        invariant
            i <= files@.len(),
            fs == files.deep_view(),
            r.deep_view() == part_moves(fs.take(i as int), dest_dir@),
        decreases files@.len() - i,
    {
        let ghost rv = r.deep_view();
        proof {
            assert(fs.take(i as int + 1).drop_last() =~= fs.take(i as int));
            assert(fs.take(i as int + 1).last() == fs[i as int]);
            assert(fs[i as int] == files@[i as int]@);
        }
        if !ends_with(files[i].as_str(), ".s3keep") {
            let name = last_part(files[i].as_str(), '/');
            let dest = concat3(dest_dir, "/", name.as_str());
            let ghost pair = (files@[i as int]@, dest@);
            r.push((files[i].clone(), dest));
            assert(r.deep_view() =~= rv.push(pair));
        }
        i += 1;
    }
    assert(fs.take(fs.len() as int) =~= fs);
    r
}

/// The marker that makes a directory an object.
pub fn completion_marker(dest_dir: &str) -> (r: String)
    ensures
        r@ == dest_dir@ + "/.s3_mpu_completed"@,
{
    concat(dest_dir, "/.s3_mpu_completed")
}

/// Whether a path is taken by a file that has to give way.
pub fn is_taken(files: &Vec<String>, path: &str) -> (r: bool)
    ensures
        r == files.deep_view().contains(path@),
{
    lists(files, path)
}

/// The answer to the end of an upload in parts.
pub fn complete_upload(bucket: &str, key: &str) -> (r: CompleteMultipartUploadResult)
    ensures
        r.location@ == "http://localhost:9000/"@ + bucket@ + "/"@ + key@,
        r.bucket@ == bucket@,
        r.key@ == key@,
        r.etag@ == "\"000-1\""@,
{
    let mut location = concat3("http://localhost:9000/", bucket, "/");
    location.append(key);
    CompleteMultipartUploadResult {
        location,
        bucket: bucket.to_owned(),
        key: key.to_owned(),
        etag: "\"000-1\"".to_owned(),
    }
}

/// The path that an object is copied from.
pub open spec fn copy_source(source: Seq<char>) -> Seq<char> {
    if "/"@.is_prefix_of(source) {
        source
    } else {
        "/"@ + source
    }
}

/// The path that an object is copied from.
pub fn source_path(source: &str) -> (r: String)
    ensures
        r@ == copy_source(source@),
{
    if starts_with(source, "/") {
        source.to_owned()
    } else {
        concat("/", source)
    }
}

/// The answer to a copy.
pub fn copied() -> (r: CopyObjectResult)
    ensures
        r.last_modified@ == "2025-01-01T00:00:00.000Z"@,
        r.etag@ == "\"000\""@,
{
    CopyObjectResult {
        last_modified: "2025-01-01T00:00:00.000Z".to_owned(),
        etag: "\"000\"".to_owned(),
    }
}

/// The status of the creation of a bucket: 409 if it exists already.
pub fn create_bucket_status(error: &Option<String>) -> (r: u16)
    ensures
        r == match error.deep_view() {
            None => 200u16,
            Some(e) => if occurs(e, "already exists"@) {
                409u16
            } else {
                500u16
            },
        },
{
    match error {
        None => 200,
        Some(e) => if contains_text(e.as_str(), "already exists") {
            409
        } else {
            500
        },
    }
}

/// The bucket holds nothing but the file that keeps it.
pub open spec fn is_vacant(files: Seq<Seq<char>>) -> bool {
    files.len() == 0 || (files.len() == 1 && ".s3keep"@.is_suffix_of(files[0]))
}

/// The error of deleting a bucket that is not empty.
pub open spec fn not_empty(bucket: Seq<char>) -> ErrorView {
    ErrorView {
        code: "BucketNotEmpty"@,
        message: "The bucket you tried to delete is not empty"@,
        resource: bucket,
        request_id: Seq::empty(),
    }
}

/// Decides on the deletion of a bucket whose files are given: nothing stands in
/// its way, or the error.
pub fn delete_bucket(bucket: &str, files: &Vec<String>) -> (r: Option<S3Error>)
    ensures
        match r {
            None => is_vacant(files.deep_view()),
            Some(e) => !is_vacant(files.deep_view()) && e@ == not_empty(bucket@),
        },
{
    if files.len() == 0 {
        return None;
    }
    assert(files.deep_view()[0] == files@[0]@);
    if files.len() == 1 && ends_with(files[0].as_str(), ".s3keep") {
        return None;
    }
    Some(
        S3Error {
            code: "BucketNotEmpty".to_owned(),
            message: "The bucket you tried to delete is not empty".to_owned(),
            resource: bucket.to_owned(),
            request_id: String::new(),
        },
    )
}

/// The keys of the objects to delete, each with its path.
pub open spec fn deletions(
    bucket: Seq<char>,
    objects: Seq<(Seq<char>, Option<Seq<char>>)>,
) -> Seq<(Seq<char>, Seq<char>)> {
    objects.map_values(|o: (Seq<char>, Option<Seq<char>>)| (o.0, path_of(bucket, o.0)))
}

/// Plans the deletion of many objects: the key and the path of each, in order.
pub fn plan_deletes(bucket: &str, req: &DeleteObjectsRequest) -> (r: Vec<(String, String)>)
    ensures
        r.deep_view() == deletions(bucket@, req.objects.deep_view()),
{
    let ghost want = deletions(bucket@, req.objects.deep_view());
    let mut r: Vec<(String, String)> = Vec::new();
    let mut i: usize = 0;
    while i < req.objects.len()
        invariant
            i <= req.objects@.len(),
            want == deletions(bucket@, req.objects.deep_view()),
            r@.len() == i,
            forall|j: int| 0 <= j < i ==> ((#[trigger] r@[j]).0@, r@[j].1@) == want[j],
        decreases req.objects@.len() - i,
    {
        let path = object_path(bucket, req.objects[i].key.as_str());
        r.push((req.objects[i].key.clone(), path));
        assert(want[i as int] == (req.objects@[i as int].key@, path@));
        i += 1;
    }
    proof {
        assert forall|j: int| 0 <= j < want.len() implies r.deep_view()[j] == want[j] by {
            assert((r@[j].0@, r@[j].1@) == want[j]);
        }
        assert(r.deep_view() =~= want);
    }
    r
}

/// The keys that were deleted, of outcomes that name a key and what went
/// wrong, if anything did.
pub open spec fn keys_deleted(outcomes: Seq<(Seq<char>, Option<Seq<char>>)>) -> Seq<Seq<char>>
    decreases outcomes.len(),
{
    if outcomes.len() == 0 {
        Seq::empty()
    } else {
        let rest = keys_deleted(outcomes.drop_last());
        match outcomes.last().1 {
            None => rest.push(outcomes.last().0),
            Some(_) => rest,
        }
    }
}

/// The deletions that failed: key, code and message.
pub open spec fn deletes_failed(outcomes: Seq<(Seq<char>, Option<Seq<char>>)>) -> Seq<
    (Seq<char>, Seq<char>, Seq<char>),
>
    decreases outcomes.len(),
{
    if outcomes.len() == 0 {
        Seq::empty()
    } else {
        let rest = deletes_failed(outcomes.drop_last());
        match outcomes.last().1 {
            None => rest,
            Some(e) => rest.push((outcomes.last().0, "InternalError"@, e)),
        }
    }
}

/// The answer to a request to delete many objects, from what became of each:
/// one that is to be quiet is told of failures alone.
pub fn delete_objects(quiet: bool, outcomes: &Vec<(String, Option<String>)>) -> (r:
    DeleteObjectsResult)
    ensures
        r.deleted.deep_view() == if quiet {
            Seq::empty()
        } else {
            keys_deleted(outcomes.deep_view())
        },
        r.errors.deep_view() == deletes_failed(outcomes.deep_view()),
{
    let ghost ov = outcomes.deep_view();
    let mut deleted: Vec<DeletedObject> = Vec::new();
    let mut errors: Vec<DeleteError> = Vec::new();
    let mut i: usize = 0;
    proof {
        assert(ov.take(0) =~= Seq::<(Seq<char>, Option<Seq<char>>)>::empty());
        assert(deleted.deep_view() =~= Seq::<Seq<char>>::empty());
        assert(errors.deep_view() =~= Seq::<(Seq<char>, Seq<char>, Seq<char>)>::empty());
    }
    while i < outcomes.len()
        invariant
            i <= outcomes@.len(),
            ov == outcomes.deep_view(),
            deleted.deep_view() == if quiet {
                Seq::empty()
            } else {
                keys_deleted(ov.take(i as int))
            },
            errors.deep_view() == deletes_failed(ov.take(i as int)),
        decreases outcomes@.len() - i,
    {
        let ghost dv = deleted.deep_view();
        let ghost ev = errors.deep_view();
        proof {
            assert(ov.take(i as int + 1).drop_last() =~= ov.take(i as int));
            assert(ov.take(i as int + 1).last() == ov[i as int]);
            assert(ov[i as int] == (outcomes@[i as int].0@, outcomes@[i as int].1.deep_view()));
        }
        match &outcomes[i].1 {
            None => {
                if !quiet {
                    let d = DeletedObject { key: outcomes[i].0.clone() };
                    deleted.push(d);
                    assert(deleted.deep_view() =~= dv.push(d@));
                }
            },
            Some(e) => {
                let x = DeleteError {
                    key: outcomes[i].0.clone(),
                    code: "InternalError".to_owned(),
                    message: e.clone(),
                };
                errors.push(x);
                assert(errors.deep_view() =~= ev.push(x@));
            },
        }
        i += 1;
    }
    assert(ov.take(ov.len() as int) =~= ov);
    DeleteObjectsResult { deleted, errors }
}

/// The headers that are kept with an object: those for users, later ones
/// replacing earlier ones of the same name.
pub open spec fn user_headers(headers: Seq<(Seq<char>, Seq<char>)>) -> Map<Seq<char>, Seq<char>>
    decreases headers.len(),
{
    if headers.len() == 0 {
        Map::empty()
    } else {
        let rest = user_headers(headers.drop_last());
        if "x-amz-meta-"@.is_prefix_of(headers.last().0) {
            rest.insert(headers.last().0, headers.last().1)
        } else {
            rest
        }
    }
}

/// The headers that are kept with an object, if there are any.
pub fn keep_headers(headers: &Vec<(String, String)>) -> (r: Option<Metadata>)
    ensures
        match r {
            Some(m) => m.headers@ == user_headers(headers.deep_view()) && m.headers@.len() > 0,
            None => user_headers(headers.deep_view()) == Map::<Seq<char>, Seq<char>>::empty(),
        },
{
    let ghost hs = headers.deep_view();
    let mut kept: StrMap<String> = StrMap::new();
    let mut i: usize = 0;
    assert(hs.take(0) =~= Seq::<(Seq<char>, Seq<char>)>::empty());
    while i < headers.len()
        invariant
            i <= headers@.len(),
            hs == headers.deep_view(),
            kept@ == user_headers(hs.take(i as int)),
        decreases headers@.len() - i,
    {
        proof {
            assert(hs.take(i as int + 1).drop_last() =~= hs.take(i as int));
            assert(hs.take(i as int + 1).last() == hs[i as int]);
            assert(hs[i as int] == (headers@[i as int].0@, headers@[i as int].1@));
        }
        if starts_with(headers[i].0.as_str(), "x-amz-meta-") {
            kept.insert(headers[i].0.clone(), headers[i].1.clone());
        }
        i += 1;
    }
    assert(hs.take(hs.len() as int) =~= hs);
    if kept.is_empty() {
        None
    } else {
        Some(Metadata { headers: kept })
    }
}

/// A directory with a completion marker is an object.
pub open spec fn has_marker(files: Seq<Seq<char>>) -> bool {
    exists|i: int|
        0 <= i < files.len() && ".s3_mpu_completed"@.is_suffix_of(#[trigger] files[i])
}

/// Whether the files of a directory make it an object.
pub fn is_multipart(files: &Vec<String>) -> (r: bool)
    ensures
        r == has_marker(files.deep_view()),
{
    let ghost fs = files.deep_view();
    let mut i: usize = 0;
    while i < files.len()
        invariant
            i <= files@.len(),
            fs == files.deep_view(),
            forall|j: int| 0 <= j < i ==> !".s3_mpu_completed"@.is_suffix_of(#[trigger] fs[j]),
        decreases files@.len() - i,
    {
        assert(fs[i as int] == files@[i as int]@);
        if ends_with(files[i].as_str(), ".s3_mpu_completed") {
            return true;
        }
        i += 1;
    }
    false
}

/// The number of a part, if the file is one.
pub open spec fn part_number(f: Seq<char>) -> Option<i32> {
    if ".s3keep"@.is_suffix_of(f) || ".s3_mpu_completed"@.is_suffix_of(f) {
        None
    } else {
        integer_of(after_last(f, '/'))
    }
}

/// How many leading parts have a number of at most `n`.
pub open spec fn part_rank(parts: Seq<(i32, Seq<char>)>, n: i32) -> nat
    decreases parts.len(),
{
    if parts.len() == 0 || parts[0].0 > n {
        0
    } else {
        1 + part_rank(parts.drop_first(), n)
    }
}

/// The parts of an object by rising number; where it is equal, as they came.
pub open spec fn ordered_parts(files: Seq<Seq<char>>) -> Seq<(i32, Seq<char>)>
    decreases files.len(),
{
    if files.len() == 0 {
        Seq::empty()
    } else {
        let rest = ordered_parts(files.drop_last());
        match part_number(files.last()) {
            Some(n) => rest.insert(part_rank(rest, n) as int, (n, files.last())),
            None => rest,
        }
    }
}

proof fn lemma_part_rank(parts: Seq<(i32, Seq<char>)>, n: i32, i: int)
    requires
        0 <= i <= parts.len(),
        forall|j: int| 0 <= j < i ==> (#[trigger] parts[j]).0 <= n,
        i == parts.len() || parts[i].0 > n,
    ensures
        part_rank(parts, n) == i,
    decreases i,
{
    if i > 0 {
        assert(parts[0].0 <= n);
        assert forall|j: int| 0 <= j < i - 1 implies (#[trigger] parts.drop_first()[j]).0 <= n by {
            assert(parts[j + 1].0 <= n);
        }
        lemma_part_rank(parts.drop_first(), n, i - 1);
    }
}

/// The parts of an object, in the order in which they are read.
pub fn order_parts(files: &Vec<String>) -> (r: Vec<(i32, String)>)
    ensures
        r.deep_view() == ordered_parts(files.deep_view()),
{
    let ghost fs = files.deep_view();
    let mut r: Vec<(i32, String)> = Vec::new();
    let mut i: usize = 0;
    assert(fs.take(0) =~= Seq::<Seq<char>>::empty());
    assert(r.deep_view() =~= Seq::<(i32, Seq<char>)>::empty());
    while i < files.len()
        invariant
            i <= files@.len(),
            fs == files.deep_view(),
            r.deep_view() == ordered_parts(fs.take(i as int)),
        decreases files@.len() - i,
    {
        let ghost rv = r.deep_view();
        proof {
            assert(fs.take(i as int + 1).drop_last() =~= fs.take(i as int));
            assert(fs.take(i as int + 1).last() == fs[i as int]);
            assert(fs[i as int] == files@[i as int]@);
        }
        let f = files[i].as_str();
        if !ends_with(f, ".s3keep") && !ends_with(f, ".s3_mpu_completed") {
            let name = last_part(f, '/');
            if let Some(n) = parse_integer(name.as_str()) {
                let mut p: usize = 0;
                while p < r.len() && r[p].0 <= n
                    invariant
                        p <= r@.len(),
                        rv == r.deep_view(),
                        forall|j: int| 0 <= j < p ==> (#[trigger] rv[j]).0 <= n,
                    decreases r@.len() - p,
                {
                    assert(rv[p as int] == (r@[p as int].0, r@[p as int].1@));
                    p += 1;
                }
                proof {
                    if p < r@.len() {
                        assert(rv[p as int] == (r@[p as int].0, r@[p as int].1@));
                    }
                    lemma_part_rank(rv, n, p as int);
                }
                r.insert(p, (n, files[i].clone()));
                assert(r.deep_view() =~= rv.insert(p as int, (n, fs[i as int])));
            }
        }
        i += 1;
    }
    assert(fs.take(fs.len() as int) =~= fs);
    r
}

/// The two ends that a range header names, if it has its form.
pub open spec fn range_ends(header: Option<Seq<char>>) -> Option<(Seq<char>, Seq<char>)> {
    match header {
        Some(h) => if "bytes="@.is_prefix_of(h) {
            let parts = split(h.skip("bytes="@.len() as int), '-');
            if parts.len() == 2 {
                Some((parts[0], parts[1]))
            } else {
                None
            }
        } else {
            None
        },
        None => None,
    }
}

/// The number, or `other` where the text is none.
pub open spec fn number_or(s: Seq<char>, other: u64) -> u64 {
    match number_of(s) {
        Some(n) => n,
        None => other,
    }
}

/// The first and the last byte that a range header asks for, of `total` bytes:
/// from the first one on where it names no beginning, to the last one where it
/// names no end or one that is too large.
pub open spec fn asked_range(header: Option<Seq<char>>, total: u64) -> Option<(u64, u64)> {
    match range_ends(header) {
        Some(e) => {
            let end = number_or(e.1, (total - 1) as u64);
            Some(
                (
                    number_or(e.0, 0),
                    if end <= total - 1 {
                        end
                    } else {
                        (total - 1) as u64
                    },
                ),
            )
        },
        None => None,
    }
}

fn find_ends(header: &Option<String>) -> (r: Option<Vec<String>>)
    ensures
        match r {
            Some(e) => e@.len() == 2 && range_ends(header.deep_view()) == Some((e@[0]@, e@[1]@)),
            None => range_ends(header.deep_view()) is None,
        },
{
    let h: &String = match header {
        Some(h) => h,
        None => {
            return None;
        },
    };
    if !starts_with(h.as_str(), "bytes=") {
        return None;
    }
    let v = chars_of(h.as_str());
    let b = chars_of("bytes=");
    let rest = part_of(&v, b.len(), v.len());
    assert(rest@ =~= h@.skip("bytes="@.len() as int));
    let parts = split_text(rest.as_str(), '-');
    if parts.len() != 2 {
        return None;
    }
    proof {
        assert(parts.deep_view()[0] == parts@[0]@);
        assert(parts.deep_view()[1] == parts@[1]@);
    }
    Some(parts)
}

/// Whether a header has the form of a range.
pub fn names_range(header: &Option<String>) -> (r: bool)
    ensures
        r == range_ends(header.deep_view()) is Some,
{
    find_ends(header).is_some()
}

fn find_range(header: &Option<String>, total: u64) -> (r: Option<(u64, u64)>)
    requires
        total > 0,
    ensures
        r == asked_range(header.deep_view(), total),
{
    let parts: Vec<String> = match find_ends(header) {
        Some(e) => e,
        None => {
            return None;
        },
    };
    let start: u64 = match parse_number(parts[0].as_str()) {
        Some(n) => n,
        None => 0,
    };
    let end: u64 = match parse_number(parts[1].as_str()) {
        Some(n) => n,
        None => total - 1,
    };
    let end: u64 = if end <= total - 1 {
        end
    } else {
        total - 1
    };
    Some((start, end))
}

/// Which bytes of an object are sent.
#[derive(Debug, Clone, Copy, PartialEq, Eq, Structural)]
pub struct ByteRange {
    pub start: u64,
    pub end: u64,
    /// The answer is a part of the object
    pub partial: bool,
}

/// The bytes of an object in parts that are sent: all, unless a range asks for
/// less; one that begins after its end is ignored.
pub open spec fn multipart_range(header: Option<Seq<char>>, total: u64) -> ByteRange {
    match asked_range(header, total) {
        Some(r) => if r.0 <= r.1 {
            ByteRange { start: r.0, end: r.1, partial: true }
        } else {
            ByteRange { start: 0, end: (total - 1) as u64, partial: false }
        },
        None => ByteRange { start: 0, end: (total - 1) as u64, partial: false },
    }
}

/// The bytes of an object in parts that are sent.
pub fn range_of_multipart(header: &Option<String>, total: u64) -> (r: ByteRange)
    requires
        total > 0,
    ensures
        r == multipart_range(header.deep_view(), total),
        r.start <= r.end < total,
{
    match find_range(header, total) {
        Some(r) => if r.0 <= r.1 {
            ByteRange { start: r.0, end: r.1, partial: true }
        } else {
            ByteRange { start: 0, end: total - 1, partial: false }
        },
        None => ByteRange { start: 0, end: total - 1, partial: false },
    }
}

/// The bytes of a plain object that are sent: all, unless a range asks for
/// less. A range that begins after its end is kept as it is; it cannot be
/// served.
pub open spec fn object_range(header: Option<Seq<char>>, total: u64) -> ByteRange {
    match asked_range(header, total) {
        Some(r) => ByteRange { start: r.0, end: r.1, partial: r.0 <= r.1 },
        None => ByteRange { start: 0, end: (total - 1) as u64, partial: false },
    }
}

/// The bytes of a plain object that are sent.
pub fn range_of_object(header: &Option<String>, total: u64) -> (r: ByteRange)
    requires
        total > 0,
    ensures
        r == object_range(header.deep_view(), total),
        r.partial ==> r.start <= r.end < total,
{
    match find_range(header, total) {
        Some(r) => ByteRange { start: r.0, end: r.1, partial: r.0 <= r.1 },
        None => ByteRange { start: 0, end: total - 1, partial: false },
    }
}

/// The bytes of a range.
pub fn bytes_in(data: &Vec<u8>, start: usize, end: usize) -> (r: Vec<u8>)
    requires
        start <= end < data@.len(),
    ensures
        r@ == data@.subrange(start as int, end + 1),
{
    let n: usize = data.len();
    let mut r: Vec<u8> = Vec::new();
    let mut i: usize = start;
    assert(data@.subrange(start as int, start as int) =~= Seq::<u8>::empty());
    while i <= end
        invariant
            start <= i <= end + 1,
            end < n,
            n == data@.len(),
            r@ == data@.subrange(start as int, i as int),
        decreases end + 1 - i,
    {
        r.push(data[i]);
        assert(data@.subrange(start as int, i + 1) =~= data@.subrange(start as int, i as int).push(
            data@[i as int],
        ));
        i += 1;
    }
    r
}

/// The headers of a partial answer: the range and the number of bytes.
pub fn range_headers(r: &ByteRange, total: u64) -> (h: (String, String))
    requires
        r.start <= r.end < total,
    ensures
        h.0@ == "bytes "@ + decimal(r.start as nat) + "-"@ + decimal(r.end as nat) + "/"@
            + decimal(total as nat),
        h.1@ == decimal((r.end - r.start + 1) as nat),
{
    let s = decimal_text(r.start);
    let e = decimal_text(r.end);
    let t = decimal_text(total);
    let mut range = concat3("bytes ", s.as_str(), "-");
    range.append(e.as_str());
    range.append("/");
    range.append(t.as_str());
    (range, decimal_text(r.end - r.start + 1))
}

/// What a request for an object is answered with; a partial answer names its
/// range and its length.
#[derive(Debug)]
pub struct ObjectAnswer {
    pub status: u16,
    pub content_range: Option<String>,
    pub content_length: Option<String>,
    pub body: Vec<u8>,
}

/// What such an answer stands for.
#[verifier::ext_equal]
pub struct ObjectAnswerView {
    pub status: u16,
    pub content_range: Option<Seq<char>>,
    pub content_length: Option<Seq<char>>,
    pub body: Seq<u8>,
}

impl View for ObjectAnswer {
    type V = ObjectAnswerView;

    open spec fn view(&self) -> ObjectAnswerView {
        ObjectAnswerView {
            status: self.status,
            content_range: self.content_range.deep_view(),
            content_length: self.content_length.deep_view(),
            body: self.body@,
        }
    }
}

/// The bytes of an object that are sent.
pub open spec fn range_sent(header: Option<Seq<char>>, multipart: bool, total: u64) -> ByteRange {
    if multipart {
        multipart_range(header, total)
    } else {
        object_range(header, total)
    }
}

/// A request for an object of `total` bytes can be answered: it has bytes, and
/// the range does not begin behind its end. Of an object in parts, which may
/// be empty, no range can be asked for then.
pub open spec fn is_servable(header: Option<Seq<char>>, multipart: bool, total: u64) -> bool {
    if total == 0 {
        multipart && range_ends(header) is None
    } else {
        range_sent(header, multipart, total).start <= range_sent(header, multipart, total).end
    }
}

/// Whether a request for an object of `total` bytes can be answered.
pub fn servable(header: &Option<String>, multipart: bool, total: u64) -> (r: bool)
    ensures
        r == is_servable(header.deep_view(), multipart, total),
{
    if total == 0 {
        multipart && !names_range(header)
    } else if multipart {
        let r = range_of_multipart(header, total);
        r.start <= r.end
    } else {
        let r = range_of_object(header, total);
        r.start <= r.end
    }
}

/// What a request for an object with these bytes is answered with: the whole
/// object, or the range that was asked for.
pub open spec fn object_answer(
    data: Seq<u8>,
    multipart: bool,
    header: Option<Seq<char>>,
) -> ObjectAnswerView {
    let total = data.len() as u64;
    let r = range_sent(header, multipart, total);
    if data.len() == 0 {
        ObjectAnswerView {
            status: 200,
            content_range: None,
            content_length: None,
            body: Seq::empty(),
        }
    } else if r.partial {
        ObjectAnswerView {
            status: 206,
            content_range: Some(
                "bytes "@ + decimal(r.start as nat) + "-"@ + decimal(r.end as nat) + "/"@ + decimal(
                    total as nat,
                ),
            ),
            content_length: Some(decimal((r.end - r.start + 1) as nat)),
            body: data.subrange(r.start as int, r.end + 1),
        }
    } else {
        ObjectAnswerView { status: 200, content_range: None, content_length: None, body: data }
    }
}

/// Answers a request for an object with these bytes.
pub fn get_object(data: Vec<u8>, multipart: bool, header: &Option<String>) -> (r: ObjectAnswer)
    requires
        is_servable(header.deep_view(), multipart, data@.len() as u64),
    ensures
        r@ == object_answer(data@, multipart, header.deep_view()),
{
    let total: u64 = data.len() as u64;
    if total == 0 {
        assert(data@ =~= Seq::<u8>::empty());
        return ObjectAnswer { status: 200, content_range: None, content_length: None, body: data };
    }
    let range = if multipart {
        range_of_multipart(header, total)
    } else {
        range_of_object(header, total)
    };
    if !range.partial {
        return ObjectAnswer { status: 200, content_range: None, content_length: None, body: data };
    }
    let (content_range, content_length) = range_headers(&range, total);
    let body = bytes_in(&data, range.start as usize, range.end as usize);
    ObjectAnswer {
        status: 206,
        content_range: Some(content_range),
        content_length: Some(content_length),
        body,
    }
}

/// The status of a request for the head of an object, whose list of files
/// could be read or not.
pub fn head_object_status(files: &Option<Vec<String>>, path: &str) -> (r: u16)
    ensures
        r == match files.deep_view() {
            None => 500u16,
            Some(f) => if f.contains(path@) {
                200u16
            } else {
                404u16
            },
        },
{
    match files {
        None => 500,
        Some(f) => if lists(f, path) {
            200
        } else {
            404
        },
    }
}

} // verus!
