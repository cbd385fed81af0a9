//! Bodies of S3 requests and answers.

use crate::strmap::StrMap;
use vstd::prelude::*;

verus! {

#[derive(Debug)]
pub struct ListAllMyBucketsResult {
    pub owner: Owner,
    pub buckets: Buckets,
}

#[derive(Debug)]
pub struct Owner {
    pub id: String,
    pub display_name: String,
}

#[derive(Debug)]
pub struct Buckets {
    pub bucket: Vec<Bucket>,
}

#[derive(Debug)]
pub struct Bucket {
    pub name: String,
    pub creation_date: String,
}

#[derive(Debug)]
pub struct ListBucketResult {
    pub name: String,
    pub prefix: String,
    pub marker: String,
    pub max_keys: i32,
    pub is_truncated: bool,
    pub contents: Vec<Object>,
    pub common_prefixes: Vec<CommonPrefix>,
}

#[derive(Debug)]
pub struct Object {
    pub key: String,
    pub last_modified: String,
    pub etag: String,
    pub size: u64,
    pub storage_class: String,
    pub owner: Owner,
}

#[derive(Debug)]
pub struct CommonPrefix {
    pub prefix: String,
}

#[derive(Debug)]
pub struct S3Error {
    pub code: String,
    pub message: String,
    pub resource: String,
    pub request_id: String,
}

#[derive(Debug)]
pub struct InitiateMultipartUploadResult {
    pub bucket: String,
    pub key: String,
    pub upload_id: String,
}

#[derive(Debug)]
pub struct CompleteMultipartUpload {
    pub parts: Vec<Part>,
}

#[derive(Debug)]
pub struct Part {
    pub part_number: i32,
    pub etag: String,
}

#[derive(Debug)]
pub struct CompleteMultipartUploadResult {
    pub location: String,
    pub bucket: String,
    pub key: String,
    pub etag: String,
}

#[derive(Debug)]
pub struct CopyObjectResult {
    pub last_modified: String,
    pub etag: String,
}

#[derive(Debug)]
pub struct ListBucketResultV2 {
    pub name: String,
    pub prefix: String,
    pub max_keys: i32,
    pub is_truncated: bool,
    pub contents: Vec<Object>,
    pub common_prefixes: Vec<CommonPrefix>,
    pub key_count: i32,
    pub continuation_token: Option<String>,
    pub next_continuation_token: Option<String>,
    pub start_after: Option<String>,
}

#[derive(Debug)]
pub struct Metadata {
    pub headers: StrMap<String>,
}

#[derive(Debug)]
pub struct DeleteObjectsRequest {
    pub objects: Vec<ObjectToDelete>,
    pub quiet: bool,
}

#[derive(Debug)]
pub struct ObjectToDelete {
    pub key: String,
    pub version_id: Option<String>,
}

#[derive(Debug)]
pub struct DeleteObjectsResult {
    pub deleted: Vec<DeletedObject>,
    pub errors: Vec<DeleteError>,
}

#[derive(Debug)]
pub struct DeletedObject {
    pub key: String,
}

#[derive(Debug)]
pub struct DeleteError {
    pub key: String,
    pub code: String,
    pub message: String,
}

/// The parameters of a request for a bucket or an object.
#[derive(Debug)]
pub struct S3Query {
    pub uploads: Option<String>,
    pub upload_id: Option<String>,
    pub part_number: Option<i32>,
    /// Many objects are to be deleted
    pub delete: Option<String>,
    pub prefix: Option<String>,
    pub delimiter: Option<String>,
    /// 2 for the second version
    pub list_type: Option<i32>,
    pub continuation_token: Option<String>,
    pub start_after: Option<String>,
}

/// What an object to delete stands for: its key and its version.
impl View for ObjectToDelete {
    type V = (Seq<char>, Option<Seq<char>>);

    open spec fn view(&self) -> (Seq<char>, Option<Seq<char>>) {
        (self.key@, self.version_id.deep_view())
    }
}

impl DeepView for ObjectToDelete {
    type V = (Seq<char>, Option<Seq<char>>);

    open spec fn deep_view(&self) -> (Seq<char>, Option<Seq<char>>) {
        self.view()
    }
}

impl View for DeletedObject {
    type V = Seq<char>;

    open spec fn view(&self) -> Seq<char> {
        self.key@
    }
}

impl DeepView for DeletedObject {
    type V = Seq<char>;

    open spec fn deep_view(&self) -> Seq<char> {
        self.view()
    }
}

/// What a failed deletion stands for: key, code and message.
impl View for DeleteError {
    type V = (Seq<char>, Seq<char>, Seq<char>);

    open spec fn view(&self) -> (Seq<char>, Seq<char>, Seq<char>) {
        (self.key@, self.code@, self.message@)
    }
}

impl DeepView for DeleteError {
    type V = (Seq<char>, Seq<char>, Seq<char>);

    open spec fn deep_view(&self) -> (Seq<char>, Seq<char>, Seq<char>) {
        self.view()
    }
}

/// What an object in a listing stands for.
#[verifier::ext_equal]
pub struct ObjectView {
    pub key: Seq<char>,
    pub last_modified: Seq<char>,
    pub etag: Seq<char>,
    pub size: u64,
    pub storage_class: Seq<char>,
    pub owner_id: Seq<char>,
    pub owner_name: Seq<char>,
}

impl View for Object {
    type V = ObjectView;

    open spec fn view(&self) -> ObjectView {
        ObjectView {
            key: self.key@,
            last_modified: self.last_modified@,
            etag: self.etag@,
            size: self.size,
            storage_class: self.storage_class@,
            owner_id: self.owner.id@,
            owner_name: self.owner.display_name@,
        }
    }
}

impl DeepView for Object {
    type V = ObjectView;

    open spec fn deep_view(&self) -> ObjectView {
        self.view()
    }
}

impl View for CommonPrefix {
    type V = Seq<char>;

    open spec fn view(&self) -> Seq<char> {
        self.prefix@
    }
}

impl DeepView for CommonPrefix {
    type V = Seq<char>;

    open spec fn deep_view(&self) -> Seq<char> {
        self.view()
    }
}

/// What a bucket in a listing stands for: its name and its date.
impl View for Bucket {
    type V = (Seq<char>, Seq<char>);

    open spec fn view(&self) -> (Seq<char>, Seq<char>) {
        (self.name@, self.creation_date@)
    }
}

impl DeepView for Bucket {
    type V = (Seq<char>, Seq<char>);

    open spec fn deep_view(&self) -> (Seq<char>, Seq<char>) {
        self.view()
    }
}

/// What an S3 error stands for.
pub struct ErrorView {
    pub code: Seq<char>,
    pub message: Seq<char>,
    pub resource: Seq<char>,
    pub request_id: Seq<char>,
}

impl View for S3Error {
    type V = ErrorView;

    open spec fn view(&self) -> ErrorView {
        ErrorView {
            code: self.code@,
            message: self.message@,
            resource: self.resource@,
            request_id: self.request_id@,
        }
    }
}

} // verus!
