use nova_forms::BaseGroupContext;
use nova_forms::FieldWiring;
use nova_forms::FormData;
use nova_forms::QueryString;
use nova_forms::QueryStringPart;

fn key(s: &str) -> QueryStringPart {
    QueryStringPart::Key(String::from(s))
}

#[test]
fn test_input() {
    let mut form_data = FormData::new();
    let mut tree = BaseGroupContext::new();
    let root = QueryString::new();

    let input = tree.register_input(&root, &key("a"));
    form_data.set_raw_value(&input, "test".to_string());

    assert_eq!(
        form_data.get(&QueryString::from("a")).unwrap().as_input().unwrap().raw(),
        "test"
    );
}

#[test]
fn test_input_group() {
    let mut form_data = FormData::new();
    let mut tree = BaseGroupContext::new();
    let root = QueryString::new();

    let group = tree.register_group(&root, &key("a"));
    let input = tree.register_input(&group, &key("b"));
    form_data.set_raw_value(&input, "test".to_string());

    assert_eq!(
        form_data.get(&QueryString::from("a[b]")).unwrap().as_input().unwrap().raw(),
        "test"
    );
}

#[test]
fn test_input_group_modify() {
    let mut form_data = FormData::new();
    let mut tree = BaseGroupContext::new();
    let root = QueryString::new();

    let group = tree.register_group(&root, &key("a"));
    let input = tree.register_input(&group, &key("b"));
    form_data.set_raw_value(&input, "test".to_string());

    assert_eq!(
        form_data.get(&QueryString::from("a[b]")).unwrap().as_input().unwrap().raw(),
        "test"
    );

    form_data.set_raw_value(&input, "test2".to_string());
    assert_eq!(
        form_data.get(&QueryString::from("a[b]")).unwrap().as_input().unwrap().raw(),
        "test2"
    );
}

#[test]
fn test_input_group_validate() {
    let mut tree = BaseGroupContext::new();
    let root = QueryString::new();

    let group = tree.register_group(&root, &key("a"));
    let input1 = tree.register_input(&group, &key("b"));
    let input2 = tree.register_input(&group, &key("c"));
    tree.validate(&group);
    let input3 = tree.register_input(&group, &key("d"));

    assert_eq!(tree.validate_signal(&input1), true);
    assert_eq!(tree.validate_signal(&input2), true);
    assert_eq!(tree.validate_signal(&input3), false);
}

#[test]
fn test_input_group_disable() {
    let mut tree = BaseGroupContext::new();
    let root = QueryString::new();

    let group = tree.register_group(&root, &key("a"));
    let input1 = tree.register_input(&group, &key("b"));
    let input2 = tree.register_input(&group, &key("c"));
    tree.set_disabled(&group, true);
    let input3 = tree.register_input(&group, &key("d"));

    assert_eq!(tree.disabled(&input1), true);
    assert_eq!(tree.disabled(&input2), true);
    assert_eq!(tree.disabled(&input3), true);
}

#[test]
fn test_input_group_error() {
    let mut tree = BaseGroupContext::new();
    let root = QueryString::new();

    let group = tree.register_group(&root, &key("a"));
    let _input1 = tree.register_input(&group, &key("b"));
    assert_eq!(tree.error(&group), false);

    let input2 = tree.register_input(&group, &key("c"));
    tree.set_error(&input2, true);
    let _input3 = tree.register_input(&group, &key("d"));

    assert_eq!(tree.error(&group), true);
}

#[test]
fn test_node_macro() {
    let mut form_data = FormData::new();
    let mut tree = BaseGroupContext::new();
    let root = QueryString::new();

    let group = tree.register_group(&root, &key("a"));
    let input = tree.register_input(&group, &key("b"));
    form_data.set_raw_value(&input, "test".to_string());

    let node = tree.get(&QueryString::from("a[b]"));
    assert_eq!(
        node.unwrap().as_input().unwrap().qs(),
        QueryString::from("a[b]")
    );
}

#[test]
fn test_input_macro() {
    let mut form_data = FormData::new();
    let mut tree = BaseGroupContext::new();
    let root = QueryString::new();

    let group = tree.register_group(&root, &key("a"));
    let input = tree.register_input(&group, &key("b"));
    form_data.set_raw_value(&input, "test".to_string());

    let node = tree.get(&QueryString::from("a[b]"));
    assert_eq!(node.unwrap().qs(), QueryString::from("a[b]"));
}

#[test]
fn test_group_macro() {
    let mut form_data = FormData::new();
    let mut tree = BaseGroupContext::new();
    let root = QueryString::new();

    let group = tree.register_group(&root, &key("a"));
    let input = tree.register_input(&group, &key("b"));
    form_data.set_raw_value(&input, "test".to_string());

    let node = tree.get(&QueryString::from("a"));
    assert_eq!(node.unwrap().as_group().unwrap().nodes().len(), 1);
}

#[test]
fn test_value_macro() {
    let mut form_data = FormData::new();
    let mut tree = BaseGroupContext::new();
    let root = QueryString::new();

    let group = tree.register_group(&root, &key("a"));
    let input = tree.register_input(&group, &key("b"));
    form_data.set_raw_value(&input, "test".to_string());

    assert_eq!(form_data.raw_value(&QueryString::from("a[b]")), "test");
}

#[test]
fn test_deregister() {
    let mut tree = BaseGroupContext::new();
    let root = QueryString::new();

    let group = tree.register_group(&root, &key("a"));
    let input = tree.register_input(&group, &key("b"));
    tree.set_error(&input, true);
    assert_eq!(tree.error(&group), true);

    // the node's contribution to the aggregated error disappears with it
    tree.deregister(&group, &key("b"));
    assert_eq!(tree.error(&group), false);
    assert!(tree.get(&QueryString::from("a[b]")).is_none());
}

#[test]
fn test_disable_restore() {
    let mut tree = BaseGroupContext::new();
    let root = QueryString::new();

    let group = tree.register_group(&root, &key("a"));
    let input1 = tree.register_input(&group, &key("b"));
    let input2 = tree.register_input(&group, &key("c"));
    tree.set_disabled(&group, true);
    tree.set_disabled(&group, false);
    // per-node control is independent again after re-enabling
    tree.set_disabled(&input2, true);
    assert_eq!(tree.disabled(&input1), false);
    assert_eq!(tree.disabled(&input2), true);
}

#[test]
fn test_field_wiring() {
    let mut wiring = FieldWiring::wire(QueryString::from("a[b]"));
    // untouched fields show no parse error
    assert_eq!(
        wiring.error_message(None, Some("bad".to_string())),
        None
    );
    // an explicit message always shows
    assert_eq!(
        wiring.error_message(Some("use digits".to_string()), Some("bad".to_string())),
        Some("use digits".to_string())
    );
    // a validation sweep reveals the parse error
    wiring.on_validate(true);
    assert_eq!(
        wiring.error_message(None, Some("bad".to_string())),
        Some("bad".to_string())
    );
}

#[test]
fn test_field_wiring_edit() {
    let mut wiring = FieldWiring::wire(QueryString::from("a"));
    wiring.on_validate(false);
    assert_eq!(wiring.error_message(None, Some("bad".to_string())), None);
    wiring.on_edit();
    assert_eq!(
        wiring.error_message(None, Some("bad".to_string())),
        Some("bad".to_string())
    );
}
