use std::collections::BTreeMap;

use nova_forms::Data;
use nova_forms::FormData;
use nova_forms::QueryString;

struct Record {
    name: String,
}

struct RecordVisitor;

impl<'de> serde::de::Visitor<'de> for RecordVisitor {
    type Value = Record;

    fn expecting(&self, f: &mut std::fmt::Formatter) -> std::fmt::Result {
        f.write_str("a record with a name")
    }

    fn visit_map<A: serde::de::MapAccess<'de>>(self, mut map: A) -> Result<Record, A::Error> {
        let mut name: Option<String> = None;
        while let Some(k) = map.next_key::<String>()? {
            if k == "name" {
                name = Some(map.next_value::<String>()?);
            } else {
                let _ = map.next_value::<serde::de::IgnoredAny>()?;
            }
        }
        match name {
            Some(name) => Ok(Record { name }),
            None => Err(serde::de::Error::missing_field("name")),
        }
    }
}

impl<'de> serde::Deserialize<'de> for Record {
    fn deserialize<D: serde::Deserializer<'de>>(d: D) -> Result<Record, D::Error> {
        d.deserialize_map(RecordVisitor)
    }
}

struct Root {
    a: Vec<Record>,
}

struct RootVisitor;

impl<'de> serde::de::Visitor<'de> for RootVisitor {
    type Value = Root;

    fn expecting(&self, f: &mut std::fmt::Formatter) -> std::fmt::Result {
        f.write_str("a root with a list of records")
    }

    fn visit_map<A: serde::de::MapAccess<'de>>(self, mut map: A) -> Result<Root, A::Error> {
        let mut a: Option<Vec<Record>> = None;
        while let Some(k) = map.next_key::<String>()? {
            if k == "a" {
                a = Some(map.next_value::<Vec<Record>>()?);
            } else {
                let _ = map.next_value::<serde::de::IgnoredAny>()?;
            }
        }
        match a {
            Some(a) => Ok(Root { a }),
            None => Err(serde::de::Error::missing_field("a")),
        }
    }
}

impl<'de> serde::Deserialize<'de> for Root {
    fn deserialize<D: serde::Deserializer<'de>>(d: D) -> Result<Root, D::Error> {
        d.deserialize_map(RootVisitor)
    }
}

#[test]
fn test_typed_records_decode() {
    // the engine's wire form feeds straight into generic deserialization
    let form_data = FormData::from_urlencoded("a[0][name]=Alice&a[1][name]=Bob");
    let wire = form_data.get(&QueryString::new()).unwrap().to_urlencoded();
    let root: Root = serde_qs::from_str(&wire).unwrap();
    assert_eq!(root.a.len(), 2);
    assert_eq!(root.a[0].name, "Alice");
    assert_eq!(root.a[1].name, "Bob");
}

#[test]
fn test_typed_map_decode() {
    let form_data = FormData::from_urlencoded("a=1&b=2&c=3");
    let wire = form_data.get(&QueryString::new()).unwrap().to_urlencoded();
    let values: BTreeMap<String, i32> = serde_qs::from_str(&wire).unwrap();
    assert_eq!(values.get("a"), Some(&1));
    assert_eq!(values.get("b"), Some(&2));
    assert_eq!(values.get("c"), Some(&3));
}

#[test]
fn test_typed_map_encode() {
    // serde's wire form feeds straight into the engine
    let mut values: BTreeMap<String, String> = BTreeMap::new();
    values.insert("a".to_string(), "x y".to_string());
    let wire = serde_qs::to_string(&values).unwrap();
    let tree = Data::from_urlencoded(&wire);
    assert_eq!(
        tree.get(&QueryString::from("a")).unwrap().as_input().unwrap().raw(),
        "x y"
    );
}
