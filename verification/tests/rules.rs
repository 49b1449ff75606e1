use bumblebee::document::{Document, Object};
use bumblebee::errors::TransformError;
use bumblebee::namespace::Namespace;
use bumblebee::rules::{Destination, Mapping, NodeRule, Rule, Source, Transform};

fn text(s: &str) -> Document {
    Document::String(String::from(s))
}

fn number(n: u64) -> Document {
    Document::Number(serde_json::Number::from(n))
}

fn object(fields: Vec<(&str, Document)>) -> Document {
    let mut object = Object::new();
    for (key, value) in fields {
        object.insert(String::from(key), value);
    }
    Document::Object(object)
}

fn fields(document: Document) -> Object {
    match document {
        Document::Object(object) => object,
        _ => panic!("not an object"),
    }
}

fn direct(from: &str, to: &str) -> Transform {
    Transform::parse(Mapping::Direct {
        from: String::from(from),
        to: String::from(to),
    })
    .unwrap()
    .1
}

fn applied(rule: &Transform, from: &Document, to: Document) -> Document {
    let mut to = fields(to);
    rule.apply(from, &mut to).unwrap();
    Document::Object(to)
}

#[test]
fn test_parse_direct_mapping() {
    let (path, rule) = Transform::parse(Mapping::Direct {
        from: String::from("a.b[2].c"),
        to: String::from("x.y[3]"),
    })
    .unwrap();
    assert_eq!(
        vec![
            Namespace::Object { id: String::from("a") },
            Namespace::Array { id: String::from("b"), index: 2 },
        ],
        path
    );
    match rule.source {
        Source::Direct(id) => assert_eq!("c", id),
        _ => panic!("wrong source"),
    }
    match rule.destination {
        Destination::DirectArray { namespace, id, index } => {
            assert_eq!(vec![Namespace::Object { id: String::from("x") }], namespace);
            assert_eq!("y", id);
            assert_eq!(3, index);
        }
        _ => panic!("wrong destination"),
    }
}

#[test]
fn test_parse_array_source_and_direct_destination() {
    let (path, rule) = Transform::parse(Mapping::Direct {
        from: String::from("list[4]"),
        to: String::from("out"),
    })
    .unwrap();
    assert!(path.is_empty());
    match rule.source {
        Source::DirectArray { id, index } => {
            assert_eq!("list", id);
            assert_eq!(4, index);
        }
        _ => panic!("wrong source"),
    }
    match rule.destination {
        Destination::Direct { namespace, id } => {
            assert!(namespace.is_empty());
            assert_eq!("out", id);
        }
        _ => panic!("wrong destination"),
    }
}

#[test]
fn test_parse_constant_mapping() {
    let (path, rule) = Transform::parse(Mapping::Constant {
        from: number(5),
        to: String::from("a.b"),
    })
    .unwrap();
    assert!(path.is_empty());
    match rule.source {
        Source::Constant(value) => assert_eq!(number(5), value),
        _ => panic!("wrong source"),
    }
    match rule.destination {
        Destination::Direct { namespace, id } => {
            assert_eq!(vec![Namespace::Object { id: String::from("a") }], namespace);
            assert_eq!("b", id);
        }
        _ => panic!("wrong destination"),
    }
}

#[test]
fn test_parse_flatten_mapping() {
    let flatten = |to: &str| {
        Transform::parse(Mapping::Flatten {
            from: String::from("in.src"),
            to: String::from(to),
            prefix: Some(String::from("p")),
            separator: None,
            manipulation: None,
            recursive: true,
        })
        .unwrap()
    };
    let (path, rule) = flatten("");
    assert_eq!(vec![Namespace::Object { id: String::from("in") }], path);
    match rule.destination {
        Destination::FlattenDirect { namespace, id, prefix, separator, manipulation, recursive } => {
            assert!(namespace.is_empty());
            assert_eq!(None, id);
            assert_eq!("p", prefix);
            assert_eq!("", separator);
            assert!(manipulation.is_none());
            assert!(recursive);
        }
        _ => panic!("wrong destination"),
    }
    match flatten("a.b").1.destination {
        Destination::FlattenDirect { namespace, id, .. } => {
            assert_eq!(vec![Namespace::Object { id: String::from("a") }], namespace);
            assert_eq!(Some(String::from("b")), id);
        }
        _ => panic!("wrong destination"),
    }
    match flatten("a.b[7]").1.destination {
        Destination::FlattenArray { namespace, id, index, prefix, separator, recursive, .. } => {
            assert_eq!(vec![Namespace::Object { id: String::from("a") }], namespace);
            assert_eq!("b", id);
            assert_eq!(7, index);
            assert_eq!("p", prefix);
            assert_eq!("", separator);
            assert!(recursive);
        }
        _ => panic!("wrong destination"),
    }
}

fn parse_error(mapping: Mapping) -> TransformError {
    match Transform::parse(mapping) {
        Err(e) => e,
        Ok(_) => panic!("the mapping was accepted"),
    }
}

#[test]
fn test_parse_mapping_errors() {
    let direct = |from: &str, to: &str| Mapping::Direct {
        from: String::from(from),
        to: String::from(to),
    };
    match parse_error(direct("a", "")) {
        TransformError::InvalidNamespace(message) => {
            assert_eq!("No field defined for namespace", message)
        }
        other => panic!("unexpected: {:?}", other),
    }
    match parse_error(direct("a[x]", "b[y]")) {
        TransformError::InvalidNamespaceArrayIndex(bad) => assert_eq!("x", bad),
        other => panic!("unexpected: {:?}", other),
    }
    match parse_error(direct("a[x]", "")) {
        TransformError::InvalidNamespaceArrayIndex(bad) => assert_eq!("x", bad),
        other => panic!("unexpected: {:?}", other),
    }
    match parse_error(direct("", "b[y]")) {
        TransformError::InvalidNamespaceArrayIndex(bad) => assert_eq!("y", bad),
        other => panic!("unexpected: {:?}", other),
    }
    assert!(matches!(
        parse_error(Mapping::Constant { from: Document::Null, to: String::from("") }),
        TransformError::InvalidNamespace(_)
    ));
    assert!(matches!(
        parse_error(Mapping::Flatten {
            from: String::from("a"),
            to: String::from("b[-]"),
            prefix: None,
            separator: None,
            manipulation: None,
            recursive: false,
        }),
        TransformError::InvalidNamespaceArrayIndex(_)
    ));
}

#[test]
fn test_empty_source_path_reads_the_field_with_the_empty_name() {
    let (path, rule) = Transform::parse(Mapping::Direct {
        from: String::from(""),
        to: String::from("out"),
    })
    .unwrap();
    assert!(path.is_empty());
    match &rule.source {
        Source::Direct(id) => assert_eq!("", id),
        _ => panic!("wrong source"),
    }
    assert_eq!(
        object(vec![("out", text("v"))]),
        applied(&rule, &object(vec![("", text("v")), ("a", text("w"))]), object(vec![]))
    );
    assert_eq!(
        object(vec![("out", Document::Null)]),
        applied(&rule, &object(vec![("a", text("w"))]), object(vec![]))
    );

    let (path, rule) = Transform::parse(Mapping::Flatten {
        from: String::from(""),
        to: String::from("a."),
        prefix: None,
        separator: None,
        manipulation: None,
        recursive: false,
    })
    .unwrap();
    assert!(path.is_empty());
    match rule.destination {
        Destination::FlattenDirect { namespace, id, .. } => {
            assert_eq!(vec![Namespace::Object { id: String::from("a") }], namespace);
            assert_eq!(None, id);
        }
        _ => panic!("wrong destination"),
    }

    let (path, rule) = Transform::parse(Mapping::Direct {
        from: String::from("a."),
        to: String::from("b."),
    })
    .unwrap();
    assert_eq!(vec![Namespace::Object { id: String::from("a") }], path);
    match rule.destination {
        Destination::Direct { namespace, id } => {
            assert_eq!(vec![Namespace::Object { id: String::from("b") }], namespace);
            assert_eq!("", id);
        }
        _ => panic!("wrong destination"),
    }
}

#[test]
fn test_missing_source_is_written_as_null() {
    let rule = direct("x", "y");
    let expected = object(vec![("y", Document::Null)]);
    assert_eq!(expected, applied(&rule, &object(vec![("other", text("v"))]), object(vec![])));
    assert_eq!(expected, applied(&rule, &text("scalar"), object(vec![])));
    assert_eq!(expected, applied(&rule, &Document::Array(vec![text("v")]), object(vec![])));
    assert_eq!(
        object(vec![("y", text("v"))]),
        applied(&rule, &object(vec![("x", text("v"))]), object(vec![("y", text("old"))]))
    );
}

#[test]
fn test_array_source() {
    let rule = direct("list[1]", "out");
    let list = Document::Array(vec![text("zero"), text("one")]);
    let out = |value: Document| object(vec![("out", value)]);
    assert_eq!(out(text("one")), applied(&rule, &object(vec![("list", list.clone())]), object(vec![])));
    assert_eq!(out(text("one")), applied(&rule, &list, object(vec![])));
    assert_eq!(
        out(Document::Null),
        applied(&rule, &object(vec![("list", Document::Array(vec![text("zero")]))]), object(vec![]))
    );
    assert_eq!(out(Document::Null), applied(&rule, &object(vec![("list", text("no list"))]), object(vec![])));
    assert_eq!(out(Document::Null), applied(&rule, &object(vec![]), object(vec![])));
    assert_eq!(out(Document::Null), applied(&rule, &Document::Null, object(vec![])));
}

#[test]
fn test_array_destination_grows_with_null() {
    let rule = direct("x", "list[2]");
    let from = object(vec![("x", text("v"))]);
    let grown = Document::Array(vec![Document::Null, Document::Null, text("v")]);
    assert_eq!(object(vec![("list", grown)]), applied(&rule, &from, object(vec![])));
    assert_eq!(
        object(vec![("list", Document::Array(vec![text("a"), Document::Null, text("v")]))]),
        applied(&rule, &from, object(vec![("list", Document::Array(vec![text("a")]))]))
    );
    assert_eq!(
        object(vec![("list", Document::Array(vec![text("a"), text("b"), text("v"), text("d")]))]),
        applied(
            &rule,
            &from,
            object(vec![(
                "list",
                Document::Array(vec![text("a"), text("b"), text("c"), text("d")])
            )])
        )
    );
    assert_eq!(
        object(vec![("list", text("no list"))]),
        applied(&rule, &from, object(vec![("list", text("no list"))]))
    );
    let first = direct("x", "list[0]");
    assert_eq!(
        object(vec![("list", Document::Array(vec![text("v")]))]),
        applied(&first, &from, object(vec![]))
    );
}

#[test]
fn test_destination_path_makes_objects() {
    let rule = direct("x", "a.b.c");
    let from = object(vec![("x", text("v"))]);
    assert_eq!(
        object(vec![("a", object(vec![("b", object(vec![("c", text("v"))]))]))]),
        applied(&rule, &from, object(vec![]))
    );
    assert_eq!(
        object(vec![
            ("first", text("kept")),
            ("a", object(vec![("other", text("kept")), ("b", object(vec![("c", text("v"))]))])),
        ]),
        applied(
            &rule,
            &from,
            object(vec![("first", text("kept")), ("a", object(vec![("other", text("kept"))]))])
        )
    );
}

#[test]
fn test_blocked_destination_path_is_an_error_and_writes_nothing() {
    let from = object(vec![("x", text("v"))]);
    let before = object(vec![("a", object(vec![("b", text("no object"))]))]);
    let mut to = fields(before.clone());
    match direct("x", "a.b.c").apply(&from, &mut to) {
        Err(TransformError::InvalidNamespace(message)) => {
            assert_eq!("destination path leads through a value that is not an object", message)
        }
        other => panic!("unexpected: {:?}", other),
    }
    assert_eq!(before, Document::Object(to));

    let mut to = Object::new();
    assert!(matches!(
        direct("x", "list[1].c").apply(&from, &mut to),
        Err(TransformError::InvalidNamespace(_))
    ));
    assert_eq!(0, to.len());

    let mut to = fields(object(vec![("list", Document::Array(vec![object(vec![])]))]));
    assert!(matches!(
        direct("x", "list[0].c").apply(&from, &mut to),
        Err(TransformError::InvalidNamespace(_))
    ));

    assert_eq!(
        object(vec![("list", object(vec![("c", text("v"))]))]),
        applied(&direct("x", "list[1].c"), &from, object(vec![("list", object(vec![]))]))
    );
}

#[test]
fn test_flatten_destinations() {
    let flatten = |to: &str| {
        Transform::parse(Mapping::Flatten {
            from: String::from("src"),
            to: String::from(to),
            prefix: Some(String::from("p")),
            separator: Some(String::from("_")),
            manipulation: None,
            recursive: false,
        })
        .unwrap()
        .1
    };
    let from = object(vec![("src", object(vec![("k", text("v"))]))]);
    let flat = object(vec![("p_k", text("v"))]);
    assert_eq!(
        object(vec![("old", Document::Null), ("p_k", text("v"))]),
        applied(&flatten(""), &from, object(vec![("old", Document::Null)]))
    );
    assert_eq!(
        object(vec![("out", flat.clone())]),
        applied(&flatten("out"), &from, object(vec![("out", object(vec![("gone", Document::Null)]))]))
    );
    assert_eq!(
        object(vec![("out", Document::Array(vec![Document::Null, flat.clone()]))]),
        applied(&flatten("out[1]"), &from, object(vec![]))
    );
    assert_eq!(
        object(vec![("out", Document::Array(vec![flat.clone(), text("kept")]))]),
        applied(
            &flatten("out[0]"),
            &from,
            object(vec![("out", Document::Array(vec![text("old"), text("kept")]))])
        )
    );
    assert_eq!(
        object(vec![("out", Document::Bool(true))]),
        applied(&flatten("out[0]"), &from, object(vec![("out", Document::Bool(true))]))
    );
    assert_eq!(
        object(vec![("p", Document::Null)]),
        applied(&flatten(""), &object(vec![]), object(vec![]))
    );
}

#[test]
fn test_node_rule_applies_the_rule_it_holds() {
    let rule = NodeRule::Transform(direct("x", "y"));
    let mut to = Object::new();
    rule.apply(&object(vec![("x", number(1))]), &mut to).unwrap();
    assert_eq!(object(vec![("y", number(1))]), Document::Object(to));
}
