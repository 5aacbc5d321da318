use next_intl_resolver::json::{get_member, JsonValue};
use next_intl_resolver::messages::MessageHandler;
use next_intl_resolver::visitor::ExtractionResult;

fn text(v: &str) -> JsonValue {
    JsonValue::Str(v.to_string())
}

fn object(members: Vec<(&str, JsonValue)>) -> JsonValue {
    JsonValue::Object(members.into_iter().map(|(k, v)| (k.to_string(), v)).collect())
}

fn members(members: Vec<(&str, JsonValue)>) -> Vec<(String, JsonValue)> {
    members.into_iter().map(|(k, v)| (k.to_string(), v)).collect()
}

fn create_test_message_handler() -> MessageHandler {
    MessageHandler::new(members(vec![
        (
            "namespace1",
            object(vec![("key1", text("value1")), ("key2", text("value2")), ("key3", text("value3"))]),
        ),
        ("namespace2", object(vec![("key4", text("value4")), ("key5", text("value5"))])),
    ]))
}

fn str_at<'a>(members: &'a Vec<(String, JsonValue)>, key: &str) -> Option<&'a str> {
    get_member(members, key).and_then(|v| v.as_str())
}

#[test]
fn test_merge_messages_with_existing_keys() {
    let mut handler = create_test_message_handler();
    handler.add_extracted_message("namespace1".to_string(), "key1".to_string(), "test_file".to_string());
    handler.add_extracted_message("namespace1".to_string(), "key2".to_string(), "test_file".to_string());

    let merged = handler.merge_messages();

    assert_eq!(merged.len(), 1);
    let namespace1 = get_member(&merged, "namespace1").unwrap().as_object().unwrap();
    assert_eq!(namespace1.len(), 2);
    assert_eq!(str_at(namespace1, "key1"), Some("value1"));
    assert_eq!(str_at(namespace1, "key2"), Some("value2"));
    assert!(get_member(namespace1, "key3").is_none());
}

#[test]
fn test_merge_messages_with_new_keys() {
    let mut handler = create_test_message_handler();
    handler.add_extracted_message("namespace1".to_string(), "key1".to_string(), "test_file".to_string());
    handler.add_extracted_message("namespace1".to_string(), "new_key".to_string(), "test_file".to_string());

    let merged = handler.merge_messages();

    assert_eq!(merged.len(), 1);
    let namespace1 = get_member(&merged, "namespace1").unwrap().as_object().unwrap();
    assert_eq!(namespace1.len(), 2);
    assert_eq!(str_at(namespace1, "key1"), Some("value1"));
    assert_eq!(str_at(namespace1, "new_key"), Some("namespace1.new_key"));
}

#[test]
fn test_merge_messages_with_new_namespace() {
    let mut handler = create_test_message_handler();
    handler.add_extracted_message("new_namespace".to_string(), "new_key".to_string(), "test_file".to_string());

    let merged = handler.merge_messages();

    assert_eq!(merged.len(), 1);
    let new_namespace = get_member(&merged, "new_namespace").unwrap().as_object().unwrap();
    assert_eq!(new_namespace.len(), 1);
    assert_eq!(str_at(new_namespace, "new_key"), Some("new_namespace.new_key"));
}

#[test]
fn test_merge_messages_with_multiple_namespaces() {
    let mut handler = create_test_message_handler();
    handler.add_extracted_message("namespace1".to_string(), "key1".to_string(), "test_file".to_string());
    handler.add_extracted_message("namespace2".to_string(), "key4".to_string(), "test_file".to_string());
    handler.add_extracted_message("namespace2".to_string(), "new_key".to_string(), "test_file".to_string());

    let merged = handler.merge_messages();

    assert_eq!(merged.len(), 2);
    let namespace1 = get_member(&merged, "namespace1").unwrap().as_object().unwrap();
    assert_eq!(namespace1.len(), 1);
    assert_eq!(str_at(namespace1, "key1"), Some("value1"));

    let namespace2 = get_member(&merged, "namespace2").unwrap().as_object().unwrap();
    assert_eq!(namespace2.len(), 2);
    assert_eq!(str_at(namespace2, "key4"), Some("value4"));
    assert_eq!(str_at(namespace2, "new_key"), Some("namespace2.new_key"));
}

#[test]
fn test_add_extracted_messages() {
    let mut handler = create_test_message_handler();
    let mut nested_messages = ExtractionResult::new();
    nested_messages.insert_key("nested_key".to_string(), "test".to_string());
    handler.add_extracted_messages(nested_messages, "test_file".to_string());

    let merged = handler.merge_messages();
    assert_eq!(merged.len(), 1);
    let nested_key = get_member(&merged, "nested_key").unwrap().as_object().unwrap();
    assert_eq!(str_at(nested_key, "test"), Some("nested_key.test"));
}

#[test]
fn test_namespace_conflicts() {
    let mut handler = create_test_message_handler();

    handler.add_extracted_message("namespace1".to_string(), "key1".to_string(), "file1.ts".to_string());
    handler.add_extracted_message("namespace1".to_string(), "key1".to_string(), "file2.ts".to_string());

    let conflicts = handler.get_conflicts();

    assert_eq!(conflicts.len(), 1);
    let conflict = &conflicts[0];
    assert_eq!(conflict.namespace, "namespace1");
    assert_eq!(conflict.key, "key1");
    assert_eq!(conflict.files.len(), 2);
    assert!(conflict.files.contains(&"file1.ts".to_string()));
    assert!(conflict.files.contains(&"file2.ts".to_string()));

    let merged = handler.merge_messages();
    assert_eq!(merged.len(), 1);
    let namespace1 = get_member(&merged, "namespace1").unwrap().as_object().unwrap();
    assert_eq!(namespace1.len(), 1);
    assert_eq!(str_at(namespace1, "key1"), Some("value1"));
}

#[test]
fn test_remove_messages_for_file() {
    let mut handler = create_test_message_handler();

    handler.add_extracted_message("namespace1".to_string(), "key1".to_string(), "file1.ts".to_string());
    handler.add_extracted_message("namespace1".to_string(), "key2".to_string(), "file1.ts".to_string());
    handler.add_extracted_message("namespace2".to_string(), "key4".to_string(), "file2.ts".to_string());

    handler.remove_messages_for_file("file1.ts");

    let merged = handler.merge_messages();

    assert_eq!(merged.len(), 1);
    assert!(get_member(&merged, "namespace1").is_none());
    let namespace2 = get_member(&merged, "namespace2").unwrap().as_object().unwrap();
    assert_eq!(namespace2.len(), 1);
    assert_eq!(str_at(namespace2, "key4"), Some("value4"));
}

#[test]
fn test_remove_messages_with_conflicts() {
    let mut handler = create_test_message_handler();

    handler.add_extracted_message("namespace1".to_string(), "key1".to_string(), "file1.ts".to_string());
    handler.add_extracted_message("namespace1".to_string(), "key1".to_string(), "file2.ts".to_string());

    assert_eq!(handler.get_conflicts().len(), 1);

    handler.remove_messages_for_file("file1.ts");

    assert_eq!(handler.get_conflicts().len(), 0);

    let merged = handler.merge_messages();
    assert_eq!(merged.len(), 1);
    let namespace1 = get_member(&merged, "namespace1").unwrap().as_object().unwrap();
    assert_eq!(namespace1.len(), 1);
    assert_eq!(str_at(namespace1, "key1"), Some("value1"));
}

#[test]
fn test_remove_nested_messages() {
    let mut handler = create_test_message_handler();

    handler.add_extracted_message("parent.child".to_string(), "key1".to_string(), "file1.ts".to_string());
    handler.add_extracted_message("parent.child".to_string(), "key2".to_string(), "file2.ts".to_string());

    handler.remove_messages_for_file("file1.ts");

    let merged = handler.merge_messages();

    assert_eq!(merged.len(), 1);
    let parent = get_member(&merged, "parent").unwrap().as_object().unwrap();
    let child = get_member(parent, "child").unwrap().as_object().unwrap();
    assert_eq!(child.len(), 1);
    assert!(get_member(child, "key1").is_none());
    assert!(get_member(child, "key2").is_some());
}

#[test]
fn same_key_twice_from_one_file_is_no_conflict() {
    let mut handler = create_test_message_handler();
    handler.add_extracted_message("namespace1".to_string(), "key1".to_string(), "a.ts".to_string());
    handler.add_extracted_message("namespace1".to_string(), "key1".to_string(), "a.ts".to_string());
    assert!(handler.get_conflicts().is_empty());
}

#[test]
fn repeated_collision_grows_one_record() {
    let mut handler = create_test_message_handler();
    handler.add_extracted_message("ns".to_string(), "k".to_string(), "a.ts".to_string());
    handler.add_extracted_message("ns".to_string(), "k".to_string(), "b.ts".to_string());
    handler.add_extracted_message("ns".to_string(), "k".to_string(), "c.ts".to_string());
    let conflicts = handler.get_conflicts();
    assert_eq!(conflicts.len(), 1);
    assert_eq!(conflicts[0].files, vec!["a.ts".to_string(), "b.ts".to_string(), "c.ts".to_string()]);
}

#[test]
fn leaf_on_the_way_refuses_the_key() {
    let mut handler = create_test_message_handler();
    handler.add_extracted_message("a".to_string(), "b".to_string(), "x.ts".to_string());
    handler.add_extracted_message("a.b".to_string(), "c".to_string(), "y.ts".to_string());
    let conflicts = handler.get_conflicts();
    assert_eq!(conflicts.len(), 1);
    assert_eq!(conflicts[0].namespace, "a.b");
    assert_eq!(conflicts[0].key, "b");
    assert_eq!(conflicts[0].files, vec!["x.ts".to_string(), "y.ts".to_string()]);
    let merged = handler.merge_messages();
    let a = get_member(&merged, "a").unwrap().as_object().unwrap();
    assert_eq!(str_at(a, "b"), Some("a.b"));
}

#[test]
fn branch_at_the_key_refuses_the_key() {
    let mut handler = create_test_message_handler();
    handler.add_extracted_message("a.b".to_string(), "c".to_string(), "x.ts".to_string());
    handler.add_extracted_message("a".to_string(), "b".to_string(), "y.ts".to_string());
    let conflicts = handler.get_conflicts();
    assert_eq!(conflicts.len(), 1);
    assert_eq!(conflicts[0].namespace, "a");
    assert_eq!(conflicts[0].key, "b");
    assert_eq!(conflicts[0].files, vec!["x.ts".to_string(), "y.ts".to_string()]);
    let merged = handler.merge_messages();
    let a = get_member(&merged, "a").unwrap().as_object().unwrap();
    let b = get_member(a, "b").unwrap().as_object().unwrap();
    assert_eq!(str_at(b, "c"), Some("a.b.c"));
}

#[test]
fn catalog_value_that_is_not_an_object_gives_placeholder() {
    let mut handler = MessageHandler::new(members(vec![("ns", text("flat"))]));
    handler.add_extracted_message("ns".to_string(), "k".to_string(), "a.ts".to_string());
    let merged = handler.merge_messages();
    let ns = get_member(&merged, "ns").unwrap().as_object().unwrap();
    assert_eq!(str_at(ns, "k"), Some("ns.k"));
}

#[test]
fn conflict_scenario_one_record_then_none_after_removal() {
    let mut handler = MessageHandler::new(Vec::new());
    handler.add_extracted_message("ns1".to_string(), "key1".to_string(), "A".to_string());
    handler.add_extracted_message("ns1".to_string(), "key1".to_string(), "B".to_string());
    assert_eq!(handler.get_conflicts().len(), 1);
    assert_eq!(handler.get_conflicts()[0].files, vec!["A".to_string(), "B".to_string()]);
    handler.remove_messages_for_file("A");
    assert!(handler.get_conflicts().is_empty());
}

#[test]
fn merge_with_catalog_scenario() {
    let mut handler = MessageHandler::new(members(vec![("ns1", object(vec![("k1", text("v1"))]))]));
    handler.add_extracted_message("ns1".to_string(), "k1".to_string(), "f.ts".to_string());
    handler.add_extracted_message("ns1".to_string(), "new_key".to_string(), "f.ts".to_string());
    let merged = handler.merge_messages();
    assert_eq!(merged.len(), 1);
    let ns1 = get_member(&merged, "ns1").unwrap().as_object().unwrap();
    assert_eq!(ns1.len(), 2);
    assert_eq!(str_at(ns1, "k1"), Some("v1"));
    assert_eq!(str_at(ns1, "new_key"), Some("ns1.new_key"));
}

#[test]
fn nested_namespace_from_two_files_scenario() {
    let mut handler = MessageHandler::new(Vec::new());
    handler.add_extracted_message("parent.child".to_string(), "k".to_string(), "a.ts".to_string());
    handler.add_extracted_message("parent.child".to_string(), "k".to_string(), "b.ts".to_string());
    let merged = handler.merge_messages();
    assert_eq!(merged.len(), 1);
    let parent = get_member(&merged, "parent").unwrap().as_object().unwrap();
    assert_eq!(parent.len(), 1);
    let child = get_member(parent, "child").unwrap().as_object().unwrap();
    assert_eq!(child.len(), 1);
    assert_eq!(str_at(child, "k"), Some("parent.child.k"));
    let conflicts = handler.get_conflicts();
    assert_eq!(conflicts.len(), 1);
    assert_eq!(conflicts[0].namespace, "parent.child");
    assert_eq!(conflicts[0].key, "k");
}

#[test]
fn catalog_object_value_is_copied() {
    let mut handler =
        MessageHandler::new(members(vec![("ns", object(vec![("k", object(vec![("deep", text("d"))]))]))]));
    handler.add_extracted_message("ns".to_string(), "k".to_string(), "a.ts".to_string());
    let merged = handler.merge_messages();
    let ns = get_member(&merged, "ns").unwrap().as_object().unwrap();
    let k = get_member(ns, "k").unwrap().as_object().unwrap();
    assert_eq!(str_at(k, "deep"), Some("d"));
}

#[test]
fn removing_the_later_of_two_files_keeps_the_key() {
    let mut handler = MessageHandler::new(Vec::new());
    handler.add_extracted_message("ns".to_string(), "k".to_string(), "A".to_string());
    handler.add_extracted_message("ns".to_string(), "k".to_string(), "B".to_string());
    handler.remove_messages_for_file("B");
    assert!(handler.get_conflicts().is_empty());
    let merged = handler.merge_messages();
    let ns = get_member(&merged, "ns").unwrap().as_object().unwrap();
    assert_eq!(str_at(ns, "k"), Some("ns.k"));
}

#[test]
fn removing_one_of_three_files_keeps_the_conflict() {
    let mut handler = MessageHandler::new(Vec::new());
    handler.add_extracted_message("ns".to_string(), "k".to_string(), "A".to_string());
    handler.add_extracted_message("ns".to_string(), "k".to_string(), "B".to_string());
    handler.add_extracted_message("ns".to_string(), "k".to_string(), "C".to_string());
    handler.remove_messages_for_file("B");
    let conflicts = handler.get_conflicts();
    assert_eq!(conflicts.len(), 1);
    assert_eq!(conflicts[0].files, vec!["A".to_string(), "C".to_string()]);
    let merged = handler.merge_messages();
    let ns = get_member(&merged, "ns").unwrap().as_object().unwrap();
    assert_eq!(str_at(ns, "k"), Some("ns.k"));
}
