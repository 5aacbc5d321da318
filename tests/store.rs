use next_intl_resolver::json::{get_member, JsonValue};
use next_intl_resolver::store::IncrementalStore;
use next_intl_resolver::syntax::Node;
use next_intl_resolver::watch::{check_event, ChangeKind, PathFilter, WatchAction};

fn component(name: &str, namespace: &str, keys: &[&str]) -> Vec<Node> {
    let mut body = vec![Node::VariableDeclarator {
        name: Some("t".to_string()),
        init: Some(Box::new(Node::Call {
            callee: Box::new(Node::Identifier("useTranslations".to_string())),
            arguments: vec![Node::StringLiteral(namespace.to_string())],
        })),
    }];
    for k in keys {
        body.push(Node::Call {
            callee: Box::new(Node::Identifier("t".to_string())),
            arguments: vec![Node::StringLiteral(k.to_string())],
        });
    }
    vec![Node::Function { name: Some(name.to_string()), body }]
}

fn catalog() -> Vec<(String, JsonValue)> {
    vec![(
        "ns1".to_string(),
        JsonValue::Object(vec![("k1".to_string(), JsonValue::Str("v1".to_string()))]),
    )]
}

fn same(a: &JsonValue, b: &JsonValue) -> bool {
    match (a, b) {
        (JsonValue::Str(x), JsonValue::Str(y)) => x == y,
        (JsonValue::Other(x), JsonValue::Other(y)) => x == y,
        (JsonValue::Object(x), JsonValue::Object(y)) => same_members(x, y),
        _ => false,
    }
}

fn same_members(a: &[(String, JsonValue)], b: &[(String, JsonValue)]) -> bool {
    a.len() == b.len() && a.iter().zip(b.iter()).all(|((k1, v1), (k2, v2))| k1 == k2 && same(v1, v2))
}

fn str_at<'a>(members: &'a Vec<(String, JsonValue)>, key: &str) -> Option<&'a str> {
    get_member(members, key).and_then(|v| v.as_str())
}

#[test]
fn change_then_output() {
    let mut store = IncrementalStore::new(catalog());
    store.on_file_changed("a.tsx".to_string(), &component("A", "ns1", &["k1", "new_key"]));
    let out = store.output();
    let ns1 = get_member(&out, "ns1").unwrap().as_object().unwrap();
    assert_eq!(ns1.len(), 2);
    assert_eq!(str_at(ns1, "k1"), Some("v1"));
    assert_eq!(str_at(ns1, "new_key"), Some("ns1.new_key"));
    assert!(store.conflicts().is_empty());
}

#[test]
fn same_change_twice_gives_same_output() {
    let mut store = IncrementalStore::new(catalog());
    store.on_file_changed("b.tsx".to_string(), &component("B", "ns2", &["x"]));
    store.on_file_changed("a.tsx".to_string(), &component("A", "ns1", &["k1"]));
    let once = store.output();
    let conflicts_once = store.conflicts().len();
    store.on_file_changed("a.tsx".to_string(), &component("A", "ns1", &["k1"]));
    let twice = store.output();
    assert!(same_members(&once, &twice));
    assert_eq!(once.len(), 2);
    assert_eq!(conflicts_once, store.conflicts().len());
}

#[test]
fn change_then_removal_is_as_if_never_seen() {
    let mut store = IncrementalStore::new(catalog());
    store.on_file_changed("b.tsx".to_string(), &component("B", "ns2", &["x"]));
    let before = store.output();
    store.on_file_changed("a.tsx".to_string(), &component("A", "ns1", &["k1"]));
    assert_eq!(store.output().len(), 2);
    store.on_file_removed(&"a.tsx".to_string());
    let after = store.output();
    assert!(same_members(&before, &after));
    assert!(get_member(&after, "ns1").is_none());
    let ns2 = get_member(&after, "ns2").unwrap().as_object().unwrap();
    assert_eq!(str_at(ns2, "x"), Some("ns2.x"));
}

#[test]
fn conflict_goes_away_with_one_of_its_files() {
    let mut store = IncrementalStore::new(Vec::new());
    store.on_file_changed("A".to_string(), &component("A", "ns1", &["key1"]));
    store.on_file_changed("B".to_string(), &component("B", "ns1", &["key1"]));
    assert_eq!(store.conflicts().len(), 1);
    assert_eq!(store.conflicts()[0].files, vec!["A".to_string(), "B".to_string()]);
    store.on_file_removed(&"A".to_string());
    assert!(store.conflicts().is_empty());
    let out = store.output();
    let ns1 = get_member(&out, "ns1").unwrap().as_object().unwrap();
    assert_eq!(str_at(ns1, "key1"), Some("ns1.key1"));
}

#[test]
fn file_edited_drops_old_keys() {
    let mut store = IncrementalStore::new(Vec::new());
    store.on_file_changed("a.tsx".to_string(), &component("A", "TestNS", &["hello"]));
    store.on_file_changed("a.tsx".to_string(), &component("A", "TestNS", &["goodbye"]));
    let out = store.output();
    let ns = get_member(&out, "TestNS").unwrap().as_object().unwrap();
    assert_eq!(ns.len(), 1);
    assert_eq!(str_at(ns, "goodbye"), Some("TestNS.goodbye"));
    assert!(store.conflicts().is_empty());
}

#[test]
fn unparsable_file_counts_as_empty() {
    let mut store = IncrementalStore::new(Vec::new());
    store.on_file_changed("a.tsx".to_string(), &component("A", "TestNS", &["hello"]));
    store.on_file_changed("a.tsx".to_string(), &Vec::new());
    assert!(store.output().is_empty());
}

#[test]
fn watch_decisions() {
    assert_eq!(check_event(ChangeKind::Created, true, true), WatchAction::Reextract);
    assert_eq!(check_event(ChangeKind::Modified, true, true), WatchAction::Reextract);
    assert_eq!(check_event(ChangeKind::Modified, true, false), WatchAction::Skip);
    assert_eq!(check_event(ChangeKind::Removed, true, false), WatchAction::Drop);
    assert_eq!(check_event(ChangeKind::Removed, false, true), WatchAction::Skip);
    assert_eq!(check_event(ChangeKind::Other, true, true), WatchAction::Skip);
}

#[test]
fn watch_pattern_filters_paths() {
    let filter = PathFilter::new("**/*.tsx").unwrap();
    assert!(filter.matches("src/test.tsx"));
    assert!(!filter.matches("src/test.ts"));
    assert_eq!(filter.classify(ChangeKind::Created, "src/test.tsx", true), WatchAction::Reextract);
    assert_eq!(filter.classify(ChangeKind::Created, "src/test.ts", true), WatchAction::Skip);
    assert_eq!(filter.classify(ChangeKind::Removed, "test.tsx", false), WatchAction::Drop);
}

#[test]
fn invalid_watch_pattern_is_refused() {
    assert!(PathFilter::new("a/**b").is_none());
}
