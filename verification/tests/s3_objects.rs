// Requests for buckets and objects, and listings.

use dfs::s3::listing::{list_buckets, list_objects, list_objects_v2, parent_of};
use dfs::s3::objects::{
    bytes_in, completion_marker, complete_upload, copied, create_bucket_status, delete_bucket,
    delete_objects, get_object, names_range, plan_deletes, servable,
    handle_request, handle_root, head_object_status, initiate_upload, initiate_upload_as,
    is_multipart, is_taken, keep_headers, meta_path, object_path, order_parts, part_path,
    plan_moves, range_headers, range_of_multipart, range_of_object, source_path, Method, Operation,
};
use dfs::s3::types::{DeleteObjectsRequest, ObjectToDelete, S3Query};

fn texts(v: &[&str]) -> Vec<String> {
    v.iter().map(|s| s.to_string()).collect()
}

fn query() -> S3Query {
    S3Query {
        uploads: None,
        upload_id: None,
        part_number: None,
        delete: None,
        prefix: None,
        delimiter: None,
        list_type: None,
        continuation_token: None,
        start_after: None,
    }
}

#[test]
fn requests_for_buckets_are_told_apart() {
    let q = query();
    let t = handle_request("photos", Method::Put, &q, false);
    assert_eq!(t.bucket, "photos");
    assert_eq!(t.key, "");
    assert!(matches!(t.operation, Operation::CreateBucket));
    assert!(matches!(
        handle_request("photos/", Method::Delete, &q, false).operation,
        Operation::DeleteBucket
    ));
    assert!(matches!(
        handle_request("photos", Method::Head, &q, false).operation,
        Operation::HeadBucket
    ));
    assert!(matches!(
        handle_request("photos", Method::Get, &q, false).operation,
        Operation::ListObjects
    ));
    let mut v2 = query();
    v2.list_type = Some(2);
    assert!(matches!(
        handle_request("photos", Method::Get, &v2, false).operation,
        Operation::ListObjectsV2
    ));
    assert!(matches!(
        handle_request("photos", Method::Post, &q, false).operation,
        Operation::NotAllowed
    ));
    assert!(handle_root(Method::Get));
    assert!(!handle_root(Method::Put));
}

#[test]
fn requests_for_objects_are_told_apart() {
    let q = query();
    let t = handle_request("photos/a/b.jpg", Method::Get, &q, false);
    assert_eq!(t.bucket, "photos");
    assert_eq!(t.key, "a/b.jpg");
    assert!(matches!(t.operation, Operation::GetObject));
    assert!(matches!(
        handle_request("photos/x", Method::Put, &q, true).operation,
        Operation::CopyObject
    ));
    assert!(matches!(
        handle_request("photos/x", Method::Put, &q, false).operation,
        Operation::PutObject
    ));
    let mut start = query();
    start.uploads = Some(String::new());
    assert!(matches!(
        handle_request("photos/x", Method::Post, &start, false).operation,
        Operation::InitiateUpload
    ));
    let mut part = query();
    part.upload_id = Some("u1".to_string());
    part.part_number = Some(3);
    match handle_request("photos/x", Method::Put, &part, false).operation {
        Operation::UploadPart { upload_id, part_number } => {
            assert_eq!(upload_id, "u1");
            assert_eq!(part_number, 3);
        }
        other => panic!("Expected a part, got {:?}", other),
    }
    assert!(matches!(
        handle_request("photos/x", Method::Post, &part, false).operation,
        Operation::CompleteUpload { .. }
    ));
    assert!(matches!(
        handle_request("photos/x", Method::Delete, &part, false).operation,
        Operation::AbortUpload { .. }
    ));
}

#[test]
fn paths_of_objects_and_uploads() {
    assert_eq!(object_path("b", "k/x"), "/b/k/x");
    assert_eq!(meta_path("/b/k"), "/b/k.meta");
    assert_eq!(part_path("u1", 12), "/.s3_mpu/u1/12");
    assert_eq!(part_path("u1", -2), "/.s3_mpu/u1/-2");
    assert_eq!(source_path("b/k"), "/b/k");
    assert_eq!(source_path("/b/k"), "/b/k");
    assert_eq!(completion_marker("/b/k"), "/b/k/.s3_mpu_completed");
}

#[test]
fn uploads_in_parts() {
    let (r, keep) = initiate_upload_as("b", "k", "u1".to_string());
    assert_eq!(r.bucket, "b");
    assert_eq!(r.key, "k");
    assert_eq!(r.upload_id, "u1");
    assert_eq!(keep, "/.s3_mpu/u1/.s3keep");
    let (r, keep) = initiate_upload("b", "k");
    assert_eq!(r.upload_id.len(), 36);
    assert_eq!(keep, format!("/.s3_mpu/{}/.s3keep", r.upload_id));

    let files = texts(&["/.s3_mpu/u1/.s3keep", "/.s3_mpu/u1/1", "/.s3_mpu/u1/2"]);
    let moves = plan_moves(&files, "/b/k");
    assert_eq!(
        moves,
        vec![
            ("/.s3_mpu/u1/1".to_string(), "/b/k/1".to_string()),
            ("/.s3_mpu/u1/2".to_string(), "/b/k/2".to_string()),
        ]
    );
    let done = complete_upload("b", "k");
    assert_eq!(done.location, "http://localhost:9000/b/k");
    assert_eq!(done.etag, "\"000-1\"");

    let object = texts(&["/b/k/10", "/b/k/2", "/b/k/.s3_mpu_completed", "/b/k/x"]);
    assert!(is_multipart(&object));
    assert!(!is_multipart(&texts(&["/b/k/1"])));
    let parts = order_parts(&object);
    assert_eq!(parts, vec![(2, "/b/k/2".to_string()), (10, "/b/k/10".to_string())]);
}

#[test]
fn answers_to_simple_requests() {
    assert_eq!(create_bucket_status(&None), 200);
    assert_eq!(create_bucket_status(&Some("File already exists".to_string())), 409);
    assert_eq!(create_bucket_status(&Some("no leader".to_string())), 500);
    assert!(delete_bucket("b", &vec![]).is_none());
    assert!(delete_bucket("b", &texts(&["/b/.s3keep"])).is_none());
    let e = delete_bucket("b", &texts(&["/b/.s3keep", "/b/x"])).unwrap();
    assert_eq!(e.code, "BucketNotEmpty");
    assert_eq!(e.resource, "b");
    let files = texts(&["/b/x"]);
    assert_eq!(head_object_status(&Some(files.clone()), "/b/x"), 200);
    assert_eq!(head_object_status(&Some(files.clone()), "/b/y"), 404);
    assert_eq!(head_object_status(&None, "/b/x"), 500);
    assert!(is_taken(&files, "/b/x"));
    assert_eq!(copied().etag, "\"000\"");
    let kept = keep_headers(&vec![
        ("x-amz-meta-color".to_string(), "red".to_string()),
        ("host".to_string(), "h".to_string()),
    ])
    .unwrap();
    assert_eq!(kept.headers.len(), 1);
    assert_eq!(kept.headers.get("x-amz-meta-color").unwrap(), "red");
    assert!(keep_headers(&vec![("host".to_string(), "h".to_string())]).is_none());
}

#[test]
fn ranges_of_bytes() {
    let r = range_of_object(&Some("bytes=2-4".to_string()), 10);
    assert_eq!((r.start, r.end, r.partial), (2, 4, true));
    let r = range_of_object(&Some("bytes=7-".to_string()), 10);
    assert_eq!((r.start, r.end, r.partial), (7, 9, true));
    let r = range_of_object(&Some("bytes=7-99".to_string()), 10);
    assert_eq!((r.start, r.end, r.partial), (7, 9, true));
    let r = range_of_object(&None, 10);
    assert!(!r.partial);
    let r = range_of_object(&Some("lines=1-2".to_string()), 10);
    assert!(!r.partial);
    let r = range_of_multipart(&Some("bytes=8-3".to_string()), 10);
    assert_eq!((r.start, r.end, r.partial), (0, 9, false));
    let r = range_of_multipart(&Some("bytes=3-8".to_string()), 10);
    assert_eq!((r.start, r.end, r.partial), (3, 8, true));
    let (range, length) = range_headers(&r, 10);
    assert_eq!(range, "bytes 3-8/10");
    assert_eq!(length, "6");
    assert_eq!(bytes_in(&vec![1, 2, 3, 4], 1, 2), vec![2, 3]);
}

#[test]
fn buckets_are_listed_by_name() {
    let r = list_buckets(&texts(&["/b/x", "/a/y", "/b/z", "/.s3_mpu/u1/1"]));
    let names: Vec<&str> = r.buckets.bucket.iter().map(|b| b.name.as_str()).collect();
    assert!(names.contains(&"a"));
    assert!(names.contains(&"b"));
    assert_eq!(names.iter().filter(|n| **n == "b").count(), 1);
    assert_eq!(r.owner.id, "dfs");
}

#[test]
fn objects_are_listed() {
    let files = texts(&["/b/a.txt", "/b/dir/x", "/b/dir/y", "/b/.s3keep", "/c/z", "/b/a.txt.meta"]);
    let r = list_objects(&files, "b", &None, &None);
    let keys: Vec<&str> = r.contents.iter().map(|o| o.key.as_str()).collect();
    assert_eq!(r.name, "b");
    assert!(keys.contains(&"a.txt"));
    assert!(keys.contains(&"dir/x"));
    assert!(!keys.contains(&"z"));
    let r = list_objects(&files, "b", &Some("dir/".to_string()), &None);
    let keys: Vec<&str> = r.contents.iter().map(|o| o.key.as_str()).collect();
    assert_eq!(keys, vec!["dir/x", "dir/y"]);
    let r = list_objects(&files, "b", &None, &Some("/".to_string()));
    let prefixes: Vec<&str> = r.common_prefixes.iter().map(|p| p.prefix.as_str()).collect();
    assert_eq!(prefixes, vec!["dir/"]);
}

#[test]
fn objects_are_listed_page_by_page() {
    let files: Vec<String> = (0..1500).map(|i| format!("/b/k{:04}", i)).collect();
    let r = list_objects_v2(&files, "b", &None, &None, &None, &None);
    assert!(r.is_truncated);
    assert_eq!(r.key_count, 1000);
    assert_eq!(r.contents[0].key, "k0000");
    let token = r.next_continuation_token.clone();
    assert!(token.is_some());
    let rest = list_objects_v2(&files, "b", &None, &None, &token, &None);
    assert!(!rest.is_truncated);
    assert_eq!(rest.next_continuation_token, None);
    let seen = r.contents.len() + rest.contents.len();
    assert_eq!(seen, 1500);
    assert_eq!(rest.contents[rest.contents.len() - 1].key, "k1499");
    let after = list_objects_v2(&files, "b", &None, &None, &None, &Some("k1497".to_string()));
    let keys: Vec<&str> = after.contents.iter().map(|o| o.key.as_str()).collect();
    assert_eq!(keys, vec!["k1498", "k1499"]);
}

#[test]
fn parents_of_paths() {
    assert_eq!(parent_of("a/b/c"), Some("a/b".to_string()));
    assert_eq!(parent_of("a"), Some("".to_string()));
}

#[test]
fn objects_are_sent_whole_or_in_part() {
    let data: Vec<u8> = (0..10).collect();
    let asked = Some("bytes=2-4".to_string());
    let a = get_object(data.clone(), false, &asked);
    assert_eq!(a.status, 206);
    assert_eq!(a.body, vec![2, 3, 4]);
    assert_eq!(a.content_range, Some("bytes 2-4/10".to_string()));
    assert_eq!(a.content_length, Some("3".to_string()));
    let a = get_object(data.clone(), true, &asked);
    assert_eq!((a.status, a.body), (206, vec![2, 3, 4]));
    let a = get_object(data.clone(), false, &None);
    assert_eq!((a.status, a.body, a.content_range), (200, data.clone(), None));

    let behind = Some("bytes=8-3".to_string());
    let a = get_object(data.clone(), true, &behind);
    assert_eq!((a.status, a.body), (200, data));
    assert!(!servable(&behind, false, 10));
    assert!(servable(&behind, true, 10));
    assert!(!servable(&None, false, 0));
    assert!(servable(&None, true, 0));
    assert!(!servable(&asked, true, 0));
    assert!(names_range(&asked));
    assert!(!names_range(&Some("lines=1-2".to_string())));
    let a = get_object(vec![], true, &None);
    assert_eq!((a.status, a.body), (200, vec![]));
}

#[test]
fn many_objects_are_deleted() {
    let mut q = query();
    assert!(matches!(
        handle_request("b", Method::Post, &q, false).operation,
        Operation::NotAllowed
    ));
    q.delete = Some(String::new());
    let t = handle_request("b", Method::Post, &q, false);
    assert!(matches!(t.operation, Operation::DeleteObjects));
    let item = |k: &str| ObjectToDelete { key: k.to_string(), version_id: None };
    let req = DeleteObjectsRequest { objects: vec![item("k1"), item("d/k2")], quiet: false };
    let plan = plan_deletes(&t.bucket, &req);
    assert_eq!(plan[0], ("k1".to_string(), "/b/k1".to_string()));
    assert_eq!(plan[1], ("d/k2".to_string(), "/b/d/k2".to_string()));
    let outcomes =
        vec![("k1".to_string(), None), ("d/k2".to_string(), Some("Access Denied".to_string()))];
    let r = delete_objects(false, &outcomes);
    assert_eq!(r.deleted.len(), 1);
    assert_eq!(r.deleted[0].key, "k1");
    assert_eq!(r.errors.len(), 1);
    assert_eq!(r.errors[0].key, "d/k2");
    assert_eq!(r.errors[0].code, "InternalError");
    assert_eq!(r.errors[0].message, "Access Denied");
    let r = delete_objects(true, &outcomes);
    assert_eq!((r.deleted.len(), r.errors.len()), (0, 1));
}
