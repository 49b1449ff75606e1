use bumblebee::errors::TransformError;
use bumblebee::namespace::Namespace;

#[test]
fn test_namespace() {
    let ns = "embedded.array[0][1]";
    let results = Namespace::parse(ns).unwrap();
    let expected = vec![
        Namespace::Object {
            id: String::from("embedded"),
        },
        Namespace::Array {
            id: String::from("array"),
            index: 0,
        },
        Namespace::Array {
            id: String::from(""),
            index: 1,
        },
    ];
    assert_eq!(expected, results);
}

#[test]
fn test_blank() {
    let ns = "field";
    let results = Namespace::parse(ns).unwrap();
    let expected = vec![Namespace::Object {
        id: String::from("field"),
    }];
    assert_eq!(expected, results);

    let ns = "array-field[0]";
    let results = Namespace::parse(ns).unwrap();
    let expected = vec![Namespace::Array {
        id: String::from("array-field"),
        index: 0,
    }];
    assert_eq!(expected, results);
}

#[test]
fn test_parse_empty_text_is_the_field_with_the_empty_name() {
    let expected = vec![Namespace::Object {
        id: String::from(""),
    }];
    assert_eq!(expected, Namespace::parse("").unwrap());
}

#[test]
fn test_parse_keeps_empty_names_between_dots() {
    let object = |id: &str| Namespace::Object {
        id: String::from(id),
    };
    assert_eq!(
        vec![object("a"), object(""), object("b")],
        Namespace::parse("a..b").unwrap()
    );
    assert_eq!(
        vec![object("a"), object("b"), object("")],
        Namespace::parse("a.b.").unwrap()
    );
    assert_eq!(
        vec![object(""), object("a")],
        Namespace::parse(".a").unwrap()
    );
    assert_eq!(vec![object(""), object("")], Namespace::parse(".").unwrap());
}

#[test]
fn test_parse_cuts_after_every_closing_bracket() {
    let object = |id: &str| Namespace::Object {
        id: String::from(id),
    };
    let array = |id: &str, index: usize| Namespace::Array {
        id: String::from(id),
        index,
    };
    assert_eq!(vec![array("a", 0)], Namespace::parse("a[0]").unwrap());
    assert_eq!(vec![array("a", 0)], Namespace::parse("a[0").unwrap());
    assert_eq!(
        vec![array("a", 0), object("b")],
        Namespace::parse("a[0]b").unwrap()
    );
    assert_eq!(
        vec![array("a", 0), object("")],
        Namespace::parse("a[0]]").unwrap()
    );
    assert_eq!(
        vec![array("a", 0), object("")],
        Namespace::parse("a[0].").unwrap()
    );
    assert_eq!(vec![object("a")], Namespace::parse("a]").unwrap());
    assert_eq!(vec![object("")], Namespace::parse("]").unwrap());
}

#[test]
fn test_parse_top_level_index() {
    let expected = vec![Namespace::Array {
        id: String::from(""),
        index: 0,
    }];
    assert_eq!(expected, Namespace::parse("[0]").unwrap());
}

#[test]
fn test_parse_index_with_plus_and_leading_zeros() {
    let expected = vec![Namespace::Array {
        id: String::from("a"),
        index: 12,
    }];
    assert_eq!(expected, Namespace::parse("a[+012]").unwrap());
}

#[test]
fn test_parse_non_ascii_names() {
    let expected = vec![
        Namespace::Object {
            id: String::from("größe"),
        },
        Namespace::Array {
            id: String::from("値"),
            index: 3,
        },
    ];
    assert_eq!(expected, Namespace::parse("größe.値[3]").unwrap());
}

#[test]
fn test_parse_rejects_bad_index() {
    match Namespace::parse("a[x]") {
        Err(TransformError::InvalidNamespaceArrayIndex(text)) => assert_eq!("x", text),
        other => panic!("unexpected: {:?}", other),
    }
    match Namespace::parse("ok.a[].b[y]") {
        Err(TransformError::InvalidNamespaceArrayIndex(text)) => assert_eq!("", text),
        other => panic!("unexpected: {:?}", other),
    }
    match Namespace::parse("a[-1]") {
        Err(TransformError::InvalidNamespaceArrayIndex(text)) => assert_eq!("-1", text),
        other => panic!("unexpected: {:?}", other),
    }
    match Namespace::parse("a[[0]") {
        Err(TransformError::InvalidNamespaceArrayIndex(text)) => assert_eq!("[0", text),
        other => panic!("unexpected: {:?}", other),
    }
}

#[test]
fn test_parse_rejects_index_beyond_machine_word() {
    let text = format!("a[{}0]", usize::MAX);
    assert!(matches!(
        Namespace::parse(&text),
        Err(TransformError::InvalidNamespaceArrayIndex(_))
    ));
    let text = format!("a[{}]", usize::MAX);
    let expected = vec![Namespace::Array {
        id: String::from("a"),
        index: usize::MAX,
    }];
    assert_eq!(expected, Namespace::parse(&text).unwrap());
}

#[test]
fn test_step_accessors() {
    let field = Namespace::Object {
        id: String::from("f"),
    };
    let item = Namespace::Array {
        id: String::from("a"),
        index: 2,
    };
    assert!(field.is_object());
    assert!(!field.is_array());
    assert!(item.is_array());
    assert!(!item.is_object());
    assert_eq!(Some(&String::from("f")), field.as_object());
    assert_eq!(None, item.as_object());
    assert_eq!(Some((&String::from("a"), &2)), item.as_array());
    assert_eq!(None, field.as_array());
    assert_eq!("f", field.id());
    assert_eq!("a", item.id());
}
