use next_intl_resolver::syntax::Node;
use next_intl_resolver::text::join_strings;
use next_intl_resolver::visitor::{
    extract, extract_namespace_from_translations_call, TranslationFunction,
    TranslationFunctionVisitor,
};

fn ident(name: &str) -> Node {
    Node::Identifier(name.to_string())
}

fn lit(value: &str) -> Node {
    Node::StringLiteral(value.to_string())
}

fn call(callee: Node, arguments: Vec<Node>) -> Node {
    Node::Call { callee: Box::new(callee), arguments }
}

fn member(object: Node, property: &str) -> Node {
    Node::StaticMember { object: Box::new(object), property: property.to_string() }
}

fn declare(name: &str, init: Node) -> Node {
    Node::VariableDeclarator { name: Some(name.to_string()), init: Some(Box::new(init)) }
}

fn function(name: &str, body: Vec<Node>) -> Node {
    Node::Function { name: Some(name.to_string()), body }
}

fn property(key: &str, value: Node) -> Node {
    Node::Property { key: Some(key.to_string()), value: Box::new(value) }
}

fn keys_of(result: &next_intl_resolver::visitor::ExtractionResult, namespace: &str) -> Vec<String> {
    result.get(namespace).cloned().unwrap_or_default()
}

#[test]
fn test_new_visitor() {
    let visitor = TranslationFunctionVisitor::new();
    assert!(visitor.translation_functions().is_empty());
    assert!(visitor.current_scope().is_empty());
}

#[test]
fn test_scope_management() {
    let mut visitor = TranslationFunctionVisitor::new();
    visitor.enter_scope("Component");
    visitor.enter_scope("SubComponent");
    assert_eq!(visitor.current_scope_name(), "Component.SubComponent");
    visitor.exit_scope();
    assert_eq!(visitor.current_scope_name(), "Component");
}

#[test]
fn test_merge_by_namespace() {
    let mut visitor = TranslationFunctionVisitor::new();

    visitor.insert_translation_function(
        "comp1".to_string(),
        TranslationFunction::new("ns1".to_string(), vec!["key1".to_string(), "key2".to_string()]),
    );
    visitor.insert_translation_function(
        "comp2".to_string(),
        TranslationFunction::new("ns1".to_string(), vec!["key2".to_string(), "key3".to_string()]),
    );

    let merged = visitor.merge_by_namespace();
    assert_eq!(merged.len(), 1);
    let ns1 = merged.get("ns1").unwrap();
    assert_eq!(ns1.len(), 3);
    assert!(ns1.contains(&"key1".to_string()));
    assert!(ns1.contains(&"key2".to_string()));
    assert!(ns1.contains(&"key3".to_string()));
}

#[test]
fn exit_scope_with_none_open_keeps_it_empty() {
    let mut visitor = TranslationFunctionVisitor::new();
    visitor.exit_scope();
    assert!(visitor.current_scope().is_empty());
    assert_eq!(visitor.current_scope_name(), "");
}

#[test]
fn join_strings_puts_separator_between_parts() {
    let parts = vec!["a".to_string(), "".to_string(), "c".to_string()];
    assert_eq!(join_strings(&parts, "."), "a..c");
    assert_eq!(join_strings(&Vec::new(), "."), "");
}

#[test]
fn use_translations_binding_collects_keys() {
    let program = vec![function(
        "Page",
        vec![
            declare("t", call(ident("useTranslations"), vec![lit("home")])),
            call(ident("t"), vec![lit("title")]),
            call(member(ident("t"), "rich"), vec![lit("body")]),
            call(ident("t"), vec![lit("title")]),
        ],
    )];
    let result = extract(&program);
    assert_eq!(result.len(), 1);
    assert_eq!(keys_of(&result, "home"), vec!["title".to_string(), "body".to_string()]);
}

#[test]
fn awaited_get_translations_with_namespace_object() {
    let program = vec![function(
        "Page",
        vec![
            declare(
                "t",
                Node::Await(Box::new(call(
                    ident("getTranslations"),
                    vec![Node::Object(vec![property("locale", lit("en")), property("namespace", lit("meta"))])],
                ))),
            ),
            call(ident("t"), vec![lit("description")]),
        ],
    )];
    let result = extract(&program);
    assert_eq!(keys_of(&result, "meta"), vec!["description".to_string()]);
}

#[test]
fn computed_namespace_binds_nothing() {
    let program = vec![function(
        "Page",
        vec![
            declare("t", call(ident("useTranslations"), vec![call(ident("pick"), vec![lit("x")])])),
            call(ident("t"), vec![lit("hello")]),
        ],
    )];
    let result = extract(&program);
    assert!(result.is_empty());

    let mut visitor = TranslationFunctionVisitor::new();
    visitor.visit_all(&program);
    assert!(visitor.translation_functions().is_empty());
}

#[test]
fn namespace_from_arguments() {
    assert_eq!(extract_namespace_from_translations_call(&vec![lit("ns")]), Some("ns".to_string()));
    assert_eq!(
        extract_namespace_from_translations_call(&vec![Node::Object(vec![property("namespace", lit("a.b"))])]),
        Some("a.b".to_string())
    );
    assert_eq!(
        extract_namespace_from_translations_call(&vec![Node::Object(vec![property("namespace", ident("x"))])]),
        None
    );
    assert_eq!(extract_namespace_from_translations_call(&vec![ident("ns")]), None);
    assert_eq!(extract_namespace_from_translations_call(&Vec::new()), None);
}

#[test]
fn file_without_hooks_yields_nothing() {
    let program = vec![function(
        "Page",
        vec![declare("x", call(ident("compute"), vec![lit("a")])), call(ident("x"), vec![lit("b")])],
    )];
    assert!(extract(&program).is_empty());
    assert!(extract(&Vec::new()).is_empty());
}

#[test]
fn binding_is_not_found_from_a_nested_scope() {
    let program = vec![function(
        "Outer",
        vec![
            declare("t", call(ident("useTranslations"), vec![lit("outer")])),
            function("Inner", vec![call(ident("t"), vec![lit("hidden")])]),
            call(ident("t"), vec![lit("seen")]),
        ],
    )];
    let result = extract(&program);
    assert_eq!(keys_of(&result, "outer"), vec!["seen".to_string()]);
}

#[test]
fn calls_nested_in_arguments_and_initializers_are_found() {
    let program = vec![function(
        "Page",
        vec![
            declare("t", call(ident("useTranslations"), vec![lit("ns")])),
            declare("title", call(ident("t"), vec![lit("a")])),
            call(ident("render"), vec![call(ident("t"), vec![lit("b")])]),
        ],
    )];
    let result = extract(&program);
    assert_eq!(keys_of(&result, "ns"), vec!["a".to_string(), "b".to_string()]);
}

#[test]
fn bindings_of_one_namespace_are_merged() {
    let program = vec![
        function("A", vec![declare("t", call(ident("useTranslations"), vec![lit("ns")])), call(ident("t"), vec![lit("x")])]),
        function("B", vec![declare("t", call(ident("useTranslations"), vec![lit("ns")])), call(ident("t"), vec![lit("y")])]),
        function("C", vec![declare("u", call(ident("useTranslations"), vec![lit("other")]))]),
    ];
    let result = extract(&program);
    assert_eq!(result.len(), 2);
    assert_eq!(keys_of(&result, "ns"), vec!["x".to_string(), "y".to_string()]);
    assert_eq!(keys_of(&result, "other"), Vec::<String>::new());
}
