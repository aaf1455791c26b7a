use nova_forms::FormData;
use nova_forms::QueryString;
use nova_forms::Repeatable;

#[test]
fn test_wire_scenario_records() {
    // decoding the wire input yields the two records
    let mut form_data = FormData::from_urlencoded("a[0][name]=Alice&a[1][name]=Bob");
    assert_eq!(form_data.raw_value(&QueryString::from("a[0][name]")), "Alice");
    assert_eq!(form_data.raw_value(&QueryString::from("a[1][name]")), "Bob");

    // updating one field and re-encoding keeps every other value exact
    form_data.set_raw_value(&QueryString::from("a[1][name]"), "Bobby".to_string());
    assert_eq!(
        form_data.to_urlencoded(),
        "a[0][name]=Alice&a[1][name]=Bobby"
    );
}

#[test]
fn test_wire_scenario_repeatable_row() {
    // adding a third repeatable row raises the inferred length from 2 to 3
    // without any explicit count field being written
    let mut form_data = FormData::from_urlencoded("a[0][name]=Alice&a[1][name]=Bob");
    assert_eq!(form_data.len(&QueryString::from("a")), Some(2));

    let mut rows = Repeatable::new(QueryString::from("a"), &form_data);
    assert_eq!(rows.len(), 2);
    let row = rows.add_row();
    assert_eq!(rows.len(), 3);
    assert_eq!(row, QueryString::from("a[2]"));

    // the new row's own field populates the store lazily
    form_data.set_raw_value(&row.add_key("name"), "Carol".to_string());
    assert_eq!(form_data.len(&QueryString::from("a")), Some(3));
}

#[test]
fn test_wire_scenario_remove_row_keeps_data() {
    // removing a row only lowers the displayed count; the data under the
    // removed index stays and an immediate re-add restores it
    let form_data = FormData::from_urlencoded("a[0][name]=Alice&a[1][name]=Bob");
    let mut rows = Repeatable::new(QueryString::from("a"), &form_data);
    rows.remove_row();
    assert_eq!(rows.len(), 1);
    assert_eq!(form_data.raw_value(&QueryString::from("a[1][name]")), "Bob");
    rows.add_row();
    assert_eq!(rows.len(), 2);
    assert_eq!(form_data.raw_value(&QueryString::from("a[1][name]")), "Bob");
}
