use nova_forms::Data;
use nova_forms::FormData;
use nova_forms::QueryString;

#[test]
fn test_from_urlencoded() {
    let form_data = FormData::from_urlencoded("a=1&b=2&c=3");
    assert_eq!(
        form_data.get(&QueryString::from("a")).unwrap().as_input().unwrap().raw(),
        "1"
    );
    assert_eq!(
        form_data.get(&QueryString::from("b")).unwrap().as_input().unwrap().raw(),
        "2"
    );
    assert_eq!(
        form_data.get(&QueryString::from("c")).unwrap().as_input().unwrap().raw(),
        "3"
    );
}

#[test]
fn test_to_urlencoded() {
    let form_data = FormData::from_urlencoded("a=1&b=2&c=3");
    assert_eq!(
        form_data.get(&QueryString::from("a")).unwrap().as_input().unwrap().raw(),
        "1"
    );
    assert_eq!(
        form_data.get(&QueryString::from("b")).unwrap().as_input().unwrap().raw(),
        "2"
    );
    assert_eq!(
        form_data.get(&QueryString::from("c")).unwrap().as_input().unwrap().raw(),
        "3"
    );
    assert_eq!(
        form_data.get(&QueryString::new()).unwrap().to_urlencoded(),
        "a=1&b=2&c=3"
    );
}

#[test]
fn test_set_value() {
    let mut form_data = FormData::from_urlencoded("a=1&b=2&c=3");
    form_data.set(&QueryString::from("b"), Data::new_input("7".to_owned()));
    assert_eq!(
        form_data.get(&QueryString::from("a")).unwrap().as_input().unwrap().raw(),
        "1"
    );
    assert_eq!(
        form_data.get(&QueryString::from("b")).unwrap().as_input().unwrap().raw(),
        "7"
    );
    assert_eq!(
        form_data.get(&QueryString::from("c")).unwrap().as_input().unwrap().raw(),
        "3"
    );
}

#[test]
fn test_len() {
    let form_data = FormData::from_urlencoded("a[0]=1&a[3]=21&a[2]=23&a[1]=3");
    assert_eq!(
        form_data.get(&QueryString::from("a")).unwrap().as_group().unwrap().len(),
        4
    );
}

#[test]
fn test_len_at_sparse() {
    // the inferred array length is one more than the greatest index,
    // not the number of entries
    let form_data = FormData::from_urlencoded("a[0]=x&a[3]=y&a[1]=z&c[x]=1");
    assert_eq!(form_data.len(&QueryString::from("a")), Some(4));
    assert_eq!(form_data.len(&QueryString::from("b")), None);
    // a group with no index-keyed children has no known array length
    assert_eq!(form_data.len(&QueryString::from("c")), None);
}

#[test]
fn test_flat_roundtrip() {
    let mut t = Data::new_group();
    t.set(&QueryString::from("a[0][name]"), Data::new_input("Alice".to_owned()));
    t.set(&QueryString::from("a[1][name]"), Data::new_input("Bob".to_owned()));
    t.set(&QueryString::from("b"), Data::new_input("x".to_owned()));
    let flat = t.to_flat();
    assert_eq!(flat.len(), 3);
    let rebuilt = Data::from_flat(&flat);
    assert_eq!(rebuilt, t);
}

#[test]
fn test_auto_vivify() {
    let mut t = Data::new_group();
    t.set(&QueryString::from("x[y][z]"), Data::new_input("deep".to_owned()));
    assert_eq!(
        t.get(&QueryString::from("x[y][z]")).unwrap().as_input().unwrap().raw(),
        "deep"
    );
    assert!(t.get(&QueryString::from("x[y]")).unwrap().as_group().is_some());
    assert!(t.get(&QueryString::from("x[missing]")).is_none());
}

#[test]
fn test_set_below_input_is_noop() {
    let mut t = Data::new_group();
    t.set(&QueryString::from("a"), Data::new_input("leaf".to_owned()));
    let before = t.clone();
    t.set(&QueryString::from("a[b]"), Data::new_input("lost".to_owned()));
    assert_eq!(t, before);
}

#[test]
fn test_value_encoding() {
    let mut t = Data::new_group();
    t.set(&QueryString::from("v"), Data::new_input("a b&c=d".to_owned()));
    assert_eq!(t.to_urlencoded(), "v=a+b%26c%3Dd");
    let back = Data::from_urlencoded("v=a+b%26c%3Dd");
    assert_eq!(
        back.get(&QueryString::from("v")).unwrap().as_input().unwrap().raw(),
        "a b&c=d"
    );
}

#[test]
fn test_raw_value_absent() {
    let form_data = FormData::from_urlencoded("a=1");
    assert_eq!(form_data.raw_value(&QueryString::from("a")), "1");
    assert_eq!(form_data.raw_value(&QueryString::from("zz")), "");
}

#[test]
fn test_percent_decoding_in_values() {
    let form_data = FormData::from_urlencoded("v=%41%2b1&w=x%20y");
    assert_eq!(form_data.raw_value(&QueryString::from("v")), "A+1");
    assert_eq!(form_data.raw_value(&QueryString::from("w")), "x y");
}

#[test]
fn test_empty_wire() {
    let form_data = FormData::from_urlencoded("a=&b=2");
    assert_eq!(form_data.raw_value(&QueryString::from("a")), "");
    assert_eq!(form_data.raw_value(&QueryString::from("b")), "2");
}
