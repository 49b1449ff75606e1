use bumblebee::document::{Document, Object};
use bumblebee::errors::TransformError;
use bumblebee::namespace::Namespace;
use bumblebee::rules::{FlattenOps, Mapping, Rule};
use bumblebee::transformer::{transform, transform_recursive, Mode, Transformer, TransformerBuilder};
use bumblebee::tree::Arena;

fn text(s: &str) -> Document {
    Document::String(String::from(s))
}

fn number(n: u64) -> Document {
    Document::Number(serde_json::Number::from(n))
}

fn object(fields: Vec<(&str, Document)>) -> Document {
    let mut object = Object::new();
    for (key, value) in fields {
        object.insert(String::from(key), value);
    }
    Document::Object(object)
}

fn renamer() -> Transformer {
    TransformerBuilder::default()
        .add_direct("user_id", "id")
        .unwrap()
        .add_direct("full_name", "name")
        .unwrap()
        .build()
        .unwrap()
}

fn user(id: u64, name: &str) -> Document {
    object(vec![("user_id", number(id)), ("full_name", text(name))])
}

#[test]
fn test_many_to_many_is_element_by_element() {
    let trans = renamer();
    let inputs = vec![user(1, "A"), user(2, "B"), text("no object"), Document::Array(vec![user(3, "C")])];
    let singles: Vec<Document> = inputs.iter().map(|v| {
        let one = TransformerBuilder::default()
            .mode(Mode::One2One)
            .add_direct("user_id", "id")
            .unwrap()
            .add_direct("full_name", "name")
            .unwrap()
            .build()
            .unwrap();
        one.apply(v).unwrap()
    }).collect();
    assert_eq!(Document::Array(singles), trans.apply(&Document::Array(inputs)).unwrap());
    assert_eq!(
        Document::Array(vec![
            object(vec![("id", number(1)), ("name", text("A"))]),
            object(vec![("id", number(2)), ("name", text("B"))]),
        ]),
        trans.apply(&Document::Array(vec![user(1, "A"), user(2, "B")])).unwrap()
    );
    assert_eq!(Document::Array(vec![]), trans.apply(&Document::Array(vec![])).unwrap());
    assert_eq!(
        object(vec![("id", number(1)), ("name", text("A"))]),
        trans.apply(&user(1, "A")).unwrap()
    );
}

#[test]
fn test_one_to_one_sees_the_array() {
    let trans = TransformerBuilder::default()
        .mode(Mode::One2One)
        .add_direct("[1].user_id", "second")
        .unwrap()
        .add_direct("user_id", "none")
        .unwrap()
        .build()
        .unwrap();
    assert_eq!(
        object(vec![("none", Document::Null), ("second", number(2))]),
        trans.apply(&Document::Array(vec![user(1, "A"), user(2, "B")])).unwrap()
    );
}

#[test]
fn test_same_build_gives_same_output_in_same_order() {
    let build = || {
        TransformerBuilder::default()
            .add_direct("z", "zz")
            .unwrap()
            .add_direct("n.a", "aa")
            .unwrap()
            .add_constant(number(1), "one")
            .unwrap()
            .add_flatten("n", "", FlattenOps { recursive: true, prefix: Some("f"), separator: Some("."), manipulation: None })
            .unwrap()
            .add_direct("n.b", "deep.bb")
            .unwrap()
            .build()
            .unwrap()
    };
    let input = object(vec![
        ("n", object(vec![("b", text("B")), ("a", text("A"))])),
        ("z", text("Z")),
    ]);
    let first = build().apply(&input).unwrap();
    let second = build().apply(&input).unwrap();
    assert_eq!(first, second);
    assert_eq!(
        object(vec![
            ("zz", text("Z")),
            ("one", number(1)),
            ("f.b", text("B")),
            ("f.a", text("A")),
            ("aa", text("A")),
            ("deep", object(vec![("bb", text("B"))])),
        ]),
        first
    );
}

#[test]
fn test_missing_subtree_is_skipped() {
    let trans = TransformerBuilder::default()
        .add_direct("a.b.c", "deep.copy")
        .unwrap()
        .add_direct("list[1].c", "item")
        .unwrap()
        .add_direct("[0].c", "top")
        .unwrap()
        .add_direct("d", "shallow")
        .unwrap()
        .build()
        .unwrap();
    assert_eq!(object(vec![("shallow", Document::Null)]), trans.apply(&object(vec![])).unwrap());
    assert_eq!(
        object(vec![("shallow", Document::Null)]),
        trans
            .apply(&object(vec![
                ("a", object(vec![("x", Document::Null)])),
                ("list", Document::Array(vec![object(vec![("c", text("v"))])])),
            ]))
            .unwrap()
    );
    assert_eq!(
        object(vec![
            ("shallow", Document::Null),
            ("deep", object(vec![("copy", Document::Null)])),
            ("item", text("v")),
        ]),
        trans
            .apply(&object(vec![
                ("a", object(vec![("b", text("no object"))])),
                ("list", Document::Array(vec![Document::Null, object(vec![("c", text("v"))])])),
            ]))
            .unwrap()
    );
}

#[test]
fn test_apply_from_str_reads_json() {
    let trans = TransformerBuilder::default()
        .add_direct("a", "b")
        .unwrap()
        .build()
        .unwrap();
    let result = trans
        .apply_from_str(r#" {"a": [1, -2, 2.5, "t", true, null, {"k": []}]} "#)
        .unwrap();
    let expected = object(vec![(
        "b",
        Document::Array(vec![
            number(1),
            Document::Number(serde_json::Number::from(-2i64)),
            Document::Number(serde_json::Number::from_f64(2.5).unwrap()),
            text("t"),
            Document::Bool(true),
            Document::Null,
            object(vec![("k", Document::Array(vec![]))]),
        ]),
    )]);
    assert_eq!(expected, result);
    assert!(matches!(trans.apply_from_str("{\"a\": "), Err(TransformError::Json(_))));
    assert!(matches!(trans.apply_from_str(""), Err(TransformError::Json(_))));
    assert!(matches!(trans.apply_from_str("{} {}"), Err(TransformError::Json(_))));
}

struct Failing {}

impl Rule for Failing {
    fn apply(&self, _from: &Document, _to: &mut Object) -> Result<(), TransformError> {
        Err(TransformError::Rule(String::from("refused")))
    }
}

struct Marking {}

impl Rule for Marking {
    fn apply(&self, from: &Document, to: &mut Object) -> Result<(), TransformError> {
        to.insert(String::from("seen"), from.clone());
        Ok(())
    }
}

#[test]
fn test_custom_rules() {
    let path = vec![Namespace::Object { id: String::from("a") }];
    let trans = TransformerBuilder::default()
        .add(&path, Marking {})
        .unwrap()
        .add_direct("a", "copy")
        .unwrap()
        .build()
        .unwrap();
    assert_eq!(
        object(vec![("copy", text("v")), ("seen", text("v"))]),
        trans.apply(&object(vec![("a", text("v"))])).unwrap()
    );

    let trans = TransformerBuilder::default()
        .add_direct("x", "first")
        .unwrap()
        .add(&path, Failing {})
        .unwrap()
        .build()
        .unwrap();
    match trans.apply(&object(vec![("a", text("v"))])) {
        Err(TransformError::Rule(message)) => assert_eq!("refused", message),
        other => panic!("unexpected: {:?}", other),
    }
    assert_eq!(object(vec![("first", Document::Null)]), trans.apply(&object(vec![])).unwrap());
    match trans.apply(&Document::Array(vec![object(vec![]), object(vec![("a", text("v"))])])) {
        Err(TransformError::Rule(message)) => assert_eq!("refused", message),
        other => panic!("unexpected: {:?}", other),
    }
}

#[test]
fn test_blocked_destination_fails_the_transformation() {
    let trans = TransformerBuilder::default()
        .add_direct("a", "x")
        .unwrap()
        .add_direct("b", "x.y")
        .unwrap()
        .build()
        .unwrap();
    assert!(matches!(
        trans.apply(&object(vec![])),
        Err(TransformError::InvalidNamespace(_))
    ));
}

#[test]
fn test_add_mappings_in_order_and_first_error() {
    let direct = |from: &str, to: &str| Mapping::Direct {
        from: String::from(from),
        to: String::from(to),
    };
    let trans = TransformerBuilder::default()
        .add_mappings(vec![
            direct("a", "out"),
            Mapping::Constant { from: text("constant"), to: String::from("out") },
            direct("b", "last"),
        ])
        .unwrap()
        .build()
        .unwrap();
    assert_eq!(
        object(vec![("out", text("constant")), ("last", Document::Null)]),
        trans.apply(&object(vec![("a", text("v"))])).unwrap()
    );

    match TransformerBuilder::default().add_mappings(vec![
        direct("a", "out"),
        direct("a[x]", "out"),
        direct("a", ""),
    ]) {
        Err(TransformError::InvalidNamespaceArrayIndex(bad)) => assert_eq!("x", bad),
        Err(other) => panic!("unexpected: {:?}", other),
        Ok(_) => panic!("accepted"),
    }
    assert!(TransformerBuilder::default().add_mappings(vec![]).is_ok());
}

#[test]
fn test_builder_errors() {
    assert!(matches!(
        TransformerBuilder::default().add_direct("a", ""),
        Err(TransformError::InvalidNamespace(_))
    ));
    assert!(matches!(
        TransformerBuilder::default().add_constant(Document::Null, ""),
        Err(TransformError::InvalidNamespace(_))
    ));
    assert!(matches!(
        TransformerBuilder::default().add_direct("a[1", "b[]"),
        Err(TransformError::InvalidNamespaceArrayIndex(_))
    ));
    assert!(matches!(
        TransformerBuilder::default().add_flatten("a[z]", "", FlattenOps::default()),
        Err(TransformError::InvalidNamespaceArrayIndex(_))
    ));
    assert!(TransformerBuilder::default().add_direct("a[1", "b[2").is_ok());
}

#[test]
fn test_modes() {
    assert_eq!(Mode::Many2Many, Mode::default());
    let options = FlattenOps::default();
    assert!(!options.recursive);
    assert!(options.prefix.is_none());
    assert!(options.separator.is_none());
    assert!(options.manipulation.is_none());
}

#[test]
fn test_transform_on_an_arena() {
    let arena = Arena::default();
    assert_eq!(1, arena.tree.len());
    assert_eq!(object(vec![]), transform(&Mode::Many2Many, &arena, &text("v")).unwrap());
    assert_eq!(
        Document::Array(vec![object(vec![]), object(vec![])]),
        transform(&Mode::Many2Many, &arena, &Document::Array(vec![text("v"), Document::Null])).unwrap()
    );
    assert_eq!(
        object(vec![]),
        transform(&Mode::One2One, &arena, &Document::Array(vec![text("v")])).unwrap()
    );
    let mut dest = Object::new();
    dest.insert(String::from("kept"), Document::Null);
    transform_recursive(&arena, 0, &text("v"), &mut dest).unwrap();
    assert_eq!(object(vec![("kept", Document::Null)]), Document::Object(dest));
}

#[test]
fn test_single_rule_transformer() {
    let trans = TransformerBuilder::default()
        .add_direct("a.b[1].c", "deep.y")
        .unwrap()
        .build()
        .unwrap();
    let with_c = object(vec![(
        "a",
        object(vec![("b", Document::Array(vec![Document::Null, object(vec![("c", number(7))])]))]),
    )]);
    let without_c = object(vec![(
        "a",
        object(vec![("b", Document::Array(vec![Document::Null, object(vec![("d", number(7))])]))]),
    )]);
    let short_list = object(vec![("a", object(vec![("b", Document::Array(vec![Document::Null]))]))]);
    let no_list = object(vec![("a", object(vec![("b", text("no list"))]))]);
    let nothing = object(vec![]);
    let written = |value: Document| object(vec![("deep", object(vec![("y", value)]))]);
    assert_eq!(written(number(7)), trans.apply(&with_c).unwrap());
    assert_eq!(written(Document::Null), trans.apply(&without_c).unwrap());
    assert_eq!(object(vec![]), trans.apply(&short_list).unwrap());
    assert_eq!(object(vec![]), trans.apply(&no_list).unwrap());
    assert_eq!(object(vec![]), trans.apply(&nothing).unwrap());
    assert_eq!(object(vec![]), trans.apply(&Document::Null).unwrap());
}

struct WritingThenFailing {}

impl Rule for WritingThenFailing {
    fn apply(&self, _from: &Document, to: &mut Object) -> Result<(), TransformError> {
        to.insert(String::from("half"), Document::Bool(true));
        Err(TransformError::Rule(String::from("gave up")))
    }
}

fn arena_of(rules: Vec<(Vec<Namespace>, bumblebee::rules::NodeRule)>) -> Arena {
    let mut arena = Arena::default();
    for (path, rule) in rules {
        arena.add(&path, rule);
    }
    arena
}

fn built_in(from: &str, to: &str) -> (Vec<Namespace>, bumblebee::rules::NodeRule) {
    let (path, rule) = bumblebee::rules::Transform::parse(Mapping::Direct {
        from: String::from(from),
        to: String::from(to),
    })
    .unwrap();
    (path, bumblebee::rules::NodeRule::Transform(rule))
}

fn custom<R: Rule + 'static>(path: &str, rule: R) -> (Vec<Namespace>, bumblebee::rules::NodeRule) {
    (
        Namespace::parse(path).unwrap(),
        bumblebee::rules::NodeRule::Custom(bumblebee::rules::CustomRule { rule: Box::new(rule) }),
    )
}

#[test]
fn test_failed_built_in_rule_leaves_what_earlier_rules_wrote() {
    let arena = arena_of(vec![
        built_in("a", "first"),
        built_in("n.b", "second"),
        built_in("n.c", "second.blocked"),
        built_in("n.d", "never"),
        built_in("e", "never_either"),
    ]);
    let source = object(vec![
        ("a", text("A")),
        ("e", text("E")),
        ("n", object(vec![("b", text("B")), ("c", text("C")), ("d", text("D"))])),
    ]);
    let mut dest = Object::new();
    dest.insert(String::from("kept"), Document::Null);
    match transform_recursive(&arena, 0, &source, &mut dest) {
        Err(TransformError::InvalidNamespace(_)) => {}
        other => panic!("unexpected: {:?}", other),
    }
    assert_eq!(
        object(vec![
            ("kept", Document::Null),
            ("first", text("A")),
            ("never_either", text("E")),
            ("second", text("B")),
        ]),
        Document::Object(dest)
    );
    let mut dest = Object::new();
    assert!(transform_recursive(&arena, 0, &source, &mut dest).is_err());
    assert_eq!(3, dest.len());
}

#[test]
fn test_failed_rule_of_the_user_ends_the_evaluation() {
    let arena = arena_of(vec![
        built_in("a", "first"),
        custom("n", WritingThenFailing {}),
        custom("n", Marking {}),
        built_in("n.d", "never"),
        custom("z", Marking {}),
    ]);
    let source = object(vec![
        ("a", text("A")),
        ("z", text("Z")),
        ("n", object(vec![("d", text("D"))])),
    ]);
    let mut dest = Object::new();
    match transform_recursive(&arena, 0, &source, &mut dest) {
        Err(TransformError::Rule(message)) => assert_eq!("gave up", message),
        other => panic!("unexpected: {:?}", other),
    }
    assert_eq!(
        object(vec![("first", text("A")), ("half", Document::Bool(true))]),
        Document::Object(dest)
    );
    let mut again = Object::new();
    assert!(transform_recursive(&arena, 0, &object(vec![("a", text("A"))]), &mut again).is_ok());
    assert_eq!(object(vec![("first", text("A"))]), Document::Object(again));
}

#[test]
fn test_fields_of_a_text_keep_their_order() {
    let trans = TransformerBuilder::default()
        .add_flatten("n", "", FlattenOps::default())
        .unwrap()
        .add_direct("n", "copy")
        .unwrap()
        .build()
        .unwrap();
    let result = trans
        .apply_from_str(r#"{"n": {"zeta": 1, "alpha": 2, "mid": 3, "zeta": 4}}"#)
        .unwrap();
    let n = object(vec![("zeta", number(4)), ("alpha", number(2)), ("mid", number(3))]);
    assert_eq!(
        object(vec![
            ("zeta", number(4)),
            ("alpha", number(2)),
            ("mid", number(3)),
            ("copy", n),
        ]),
        result
    );
}

#[test]
fn test_transformer_taken_apart_and_put_together() {
    let trans = TransformerBuilder::default()
        .mode(Mode::One2One)
        .add_direct("a.b", "x")
        .unwrap()
        .add_direct("[0]", "first")
        .unwrap()
        .build()
        .unwrap();
    let inputs = vec![
        object(vec![("a", object(vec![("b", text("v"))]))]),
        Document::Array(vec![text("one"), text("two")]),
        Document::Null,
    ];
    let before: Vec<Document> = inputs.iter().map(|d| trans.apply(d).unwrap()).collect();
    let (arena, mode) = trans.into_parts();
    assert_eq!(Mode::One2One, mode);
    assert_eq!(2, arena.tree.len());
    let again = Transformer::from_parts(arena, mode).unwrap();
    let after: Vec<Document> = inputs.iter().map(|d| again.apply(d).unwrap()).collect();
    assert_eq!(before, after);
    assert_eq!(
        object(vec![("first", text("one"))]),
        after[1].clone()
    );
}

#[test]
fn test_no_transformer_of_a_malformed_tree() {
    let mut arena = Arena::default();
    arena.add(&[Namespace::Object { id: String::from("a") }], built_in("x", "y").1);
    arena.tree.swap(0, 1);
    assert!(Transformer::from_parts(arena, Mode::Many2Many).is_none());
    assert!(Transformer::from_parts(Arena { tree: Vec::new() }, Mode::Many2Many).is_none());
    assert!(Transformer::from_parts(Arena::default(), Mode::Many2Many).is_some());
}
