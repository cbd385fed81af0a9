// Requests and answers in XML.

use dfs::s3::objects::{delete_objects, plan_deletes};
use dfs::s3::types::{
    CopyObjectResult, DeleteError, DeleteObjectsRequest, DeleteObjectsResult, DeletedObject,
    ObjectToDelete,
};
use quick_xml::de::from_str;
use quick_xml::se::to_string;
use serde::de::{Deserialize, Deserializer, IgnoredAny, MapAccess, Visitor};
use serde::ser::{Serialize, SerializeStruct, Serializer};
use std::fmt::Formatter;

struct Item(ObjectToDelete);

struct ItemVisitor;

impl<'de> Visitor<'de> for ItemVisitor {
    type Value = Item;

    fn expecting(&self, f: &mut Formatter) -> std::fmt::Result {
        f.write_str("an object to delete")
    }

    fn visit_map<A: MapAccess<'de>>(self, mut map: A) -> Result<Item, A::Error> {
        let mut item = ObjectToDelete { key: String::new(), version_id: None };
        while let Some(name) = map.next_key::<String>()? {
            match name.as_str() {
                "Key" => item.key = map.next_value()?,
                "VersionId" => item.version_id = Some(map.next_value()?),
                _ => {
                    map.next_value::<IgnoredAny>()?;
                }
            }
        }
        Ok(Item(item))
    }
}

impl<'de> Deserialize<'de> for Item {
    fn deserialize<D: Deserializer<'de>>(d: D) -> Result<Item, D::Error> {
        d.deserialize_map(ItemVisitor)
    }
}

struct Body(DeleteObjectsRequest);

struct BodyVisitor;

impl<'de> Visitor<'de> for BodyVisitor {
    type Value = Body;

    fn expecting(&self, f: &mut Formatter) -> std::fmt::Result {
        f.write_str("a request to delete objects")
    }

    fn visit_map<A: MapAccess<'de>>(self, mut map: A) -> Result<Body, A::Error> {
        let mut req = DeleteObjectsRequest { objects: Vec::new(), quiet: false };
        while let Some(name) = map.next_key::<String>()? {
            match name.as_str() {
                "Object" => req.objects.push(map.next_value::<Item>()?.0),
                "Quiet" => req.quiet = map.next_value()?,
                _ => {
                    map.next_value::<IgnoredAny>()?;
                }
            }
        }
        Ok(Body(req))
    }
}

impl<'de> Deserialize<'de> for Body {
    fn deserialize<D: Deserializer<'de>>(d: D) -> Result<Body, D::Error> {
        d.deserialize_map(BodyVisitor)
    }
}

struct Done<'a>(&'a DeletedObject);

impl Serialize for Done<'_> {
    fn serialize<S: Serializer>(&self, s: S) -> Result<S::Ok, S::Error> {
        let mut x = s.serialize_struct("Deleted", 1)?;
        x.serialize_field("Key", &self.0.key)?;
        x.end()
    }
}

struct Failed<'a>(&'a DeleteError);

impl Serialize for Failed<'_> {
    fn serialize<S: Serializer>(&self, s: S) -> Result<S::Ok, S::Error> {
        let mut x = s.serialize_struct("Error", 3)?;
        x.serialize_field("Key", &self.0.key)?;
        x.serialize_field("Code", &self.0.code)?;
        x.serialize_field("Message", &self.0.message)?;
        x.end()
    }
}

struct Answer<'a>(&'a DeleteObjectsResult);

impl Serialize for Answer<'_> {
    fn serialize<S: Serializer>(&self, s: S) -> Result<S::Ok, S::Error> {
        let mut x = s.serialize_struct("DeleteResult", 2)?;
        let done: Vec<Done> = self.0.deleted.iter().map(Done).collect();
        let failed: Vec<Failed> = self.0.errors.iter().map(Failed).collect();
        x.serialize_field("Deleted", &done)?;
        x.serialize_field("Error", &failed)?;
        x.end()
    }
}

struct Copied<'a>(&'a CopyObjectResult);

impl Serialize for Copied<'_> {
    fn serialize<S: Serializer>(&self, s: S) -> Result<S::Ok, S::Error> {
        let mut x = s.serialize_struct("CopyObjectResult", 2)?;
        x.serialize_field("LastModified", &self.0.last_modified)?;
        x.serialize_field("ETag", &self.0.etag)?;
        x.end()
    }
}

#[test]
fn test_parse_delete_objects_request() {
    let xml = r#"<Delete>
        <Object>
            <Key>file1</Key>
        </Object>
        <Object>
            <Key>file2</Key>
            <VersionId>123</VersionId>
        </Object>
        <Quiet>true</Quiet>
    </Delete>"#;

    let req: DeleteObjectsRequest = from_str::<Body>(xml).expect("Should parse").0;
    assert_eq!(req.objects.len(), 2);
    assert_eq!(req.objects[0].key, "file1");
    assert_eq!(req.objects[1].key, "file2");
    assert_eq!(req.objects[1].version_id, Some("123".to_string()));
    assert!(req.quiet);

    let plan = plan_deletes("b", &req);
    assert_eq!(plan[1], ("file2".to_string(), "/b/file2".to_string()));
}

#[test]
fn test_serialize_delete_objects_result() {
    let result = DeleteObjectsResult {
        deleted: vec![DeletedObject { key: "file1".into() }],
        errors: vec![DeleteError {
            key: "file2".into(),
            code: "AccessDenied".into(),
            message: "Access Denied".into(),
        }],
    };

    let xml = to_string(&Answer(&result)).expect("Should serialize");
    assert!(xml.contains("<DeleteResult>"));
    assert!(xml.contains("<Deleted>"));
    assert!(xml.contains("<Key>file1</Key>"));
    assert!(xml.contains("<Error>"));
    assert!(xml.contains("<Code>AccessDenied</Code>"));

    let made = delete_objects(false, &vec![("k1".to_string(), None), ("k2".to_string(), None)]);
    let xml = to_string(&Answer(&made)).expect("Should serialize");
    assert_eq!(
        xml,
        "<DeleteResult><Deleted><Key>k1</Key></Deleted><Deleted><Key>k2</Key></Deleted></DeleteResult>"
    );
}

#[test]
fn test_serialize_copy_object_result() {
    let result = CopyObjectResult {
        last_modified: "2025-01-01T00:00:00Z".into(),
        etag: "\"abc\"".into(),
    };

    let xml = to_string(&Copied(&result)).expect("Should serialize");
    assert!(xml.contains("<CopyObjectResult>"));
    assert!(xml.contains("<LastModified>2025-01-01T00:00:00Z</LastModified>"));
    assert!(xml.contains("<ETag>\"abc\"</ETag>"));
}
