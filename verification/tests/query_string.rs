use nova_forms::QueryString;
use nova_forms::QueryStringPart;

#[test]
fn test_extends() {
    assert_eq!(
        QueryString::from("form_data[a][b]").extends(&QueryString::from("form_data[a]")),
        Some(QueryString::from("b"))
    );
}

#[test]
fn test_join() {
    assert_eq!(
        QueryString::from("a").join(QueryString::from("b")),
        QueryString::from("a[b]")
    );
}

#[test]
fn test_add() {
    assert_eq!(QueryString::from("a").add_key("b"), QueryString::from("a[b]"));
    assert_eq!(QueryString::from("a").add_index(0), QueryString::from("a[0]"));
}

#[test]
fn test_qs_remove() {
    let qs = QueryString::new()
        .add_key("a")
        .add_key("b")
        .add_key("d")
        .remove()
        .add_key("c");
    assert_eq!(qs, QueryString::from("a[b][c]"));
}

#[test]
fn test_qs_macro() {
    let qs = QueryString::new().add_key("a").add_key("b").add_key("c");
    assert_eq!(qs, QueryString::from("a[b][c]"));
    let qs = QueryString::new().add_key("a").add_index(0).add_key("c");
    assert_eq!(qs, QueryString::from("a[0][c]"));
    let qs = QueryString::new().add_key("a");
    assert_eq!(qs, QueryString::from("a"));
    let qs = QueryString::new();
    assert_eq!(qs, QueryString::default());
}

#[test]
fn test_first() {
    let qs = QueryString::from("a[b][c]");
    assert_eq!(qs.first(), Some(QueryStringPart::Key(String::from("a"))));
}

#[test]
fn test_remove() {
    let qs = QueryString::from("a[b][c]");
    assert_eq!(qs.remove(), QueryString::from("a[b]"));
}

#[test]
fn test_remove_first() {
    let qs = QueryString::from("a[b][c]");
    assert_eq!(qs.remove_first(), QueryString::from("b[c]"));
}

#[test]
fn test_to_string_brackets() {
    assert_eq!(QueryString::from("a[0][c]").to_string(), "a[0][c]");
    assert_eq!(QueryString::new().add_key("x").add_index(12).to_string(), "x[12]");
    assert_eq!(QueryString::new().to_string(), "");
}

#[test]
fn test_parse_format_roundtrip() {
    let qs = QueryString::new()
        .add_key("person")
        .add_key("addresses")
        .add_index(0)
        .add_key("city");
    assert_eq!(QueryString::from(qs.to_string().as_str()), qs);
}

#[test]
fn test_parse_index_segments() {
    let qs = QueryString::from("a[3]");
    assert_eq!(qs, QueryString::new().add_key("a").add_index(3));
    let qs = QueryString::from("7");
    assert_eq!(qs, QueryString::new().add_index(7));
}

#[test]
fn test_extends_mismatch() {
    assert_eq!(QueryString::from("a[b]").extends(&QueryString::from("c")), None);
    assert_eq!(QueryString::from("a").extends(&QueryString::from("a[b]")), None);
}

#[test]
fn test_join_then_extends() {
    let a = QueryString::from("form[page]");
    let b = QueryString::from("row[2][city]");
    assert_eq!(a.clone().join(b.clone()).extends(&a), Some(b));
}

#[test]
fn test_parse_plus_index() {
    // a bare segment that parses as a number reads as an index,
    // including with an explicit plus sign
    let qs = QueryString::from("a[+12]");
    assert_eq!(qs, QueryString::new().add_key("a").add_index(12));
}

#[test]
fn test_parse_numeric_overflow_key() {
    // a digit string too large for an index stays a key
    let qs = QueryString::from("99999999999999999999999999");
    assert_eq!(
        qs.first(),
        Some(QueryStringPart::Key(String::from("99999999999999999999999999")))
    );
}
