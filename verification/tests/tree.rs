use bumblebee::document::{Document, Object};
use bumblebee::errors::TransformError;
use bumblebee::namespace::Namespace;
use bumblebee::rules::{CustomRule, NodeRule, Rule};
use bumblebee::tree::{Arena, Node};

struct MyRule {}

impl Rule for MyRule {
    fn apply(&self, _from: &Document, to: &mut Object) -> Result<(), TransformError> {
        to.insert(String::from("MyRule"), Document::Null);
        Ok(())
    }
}

struct MyRule2 {}

impl Rule for MyRule2 {
    fn apply(&self, _from: &Document, to: &mut Object) -> Result<(), TransformError> {
        to.insert(String::from("MyRule2"), Document::Null);
        Ok(())
    }
}

fn rule() -> NodeRule {
    NodeRule::Custom(CustomRule {
        rule: Box::new(MyRule {}),
    })
}

fn rule2() -> NodeRule {
    NodeRule::Custom(CustomRule {
        rule: Box::new(MyRule2 {}),
    })
}

fn object(id: &str) -> Namespace {
    Namespace::Object {
        id: String::from(id),
    }
}

fn rule_name(rule: &NodeRule) -> String {
    let mut trace = Object::new();
    rule.apply(&Document::Null, &mut trace).unwrap();
    assert_eq!(1, trace.len());
    trace.entry(0).0.clone()
}

fn describe(arena: &Arena) -> String {
    let mut lines = Vec::new();
    for node in &arena.tree {
        let (kind, id, children, rules) = match node {
            Node::Object {
                id,
                children,
                rules,
            } => (String::from("Object"), id, children, rules),
            Node::Array {
                index,
                id,
                children,
                rules,
            } => (format!("Array[{}]", index), id, children, rules),
        };
        let names: Option<Vec<String>> = rules.as_ref().map(|list| list.iter().map(rule_name).collect());
        lines.push(format!("{} {:?} {:?} {:?}", kind, id, children, names));
    }
    lines.join("\n")
}

#[test]
fn test_simple() {
    let namespace = vec![];

    let mut arena = Arena::default();
    arena.add(&namespace, rule());

    arena.add(&namespace, rule2());

    // add a nested value
    let embedded = vec![object("embedded")];
    arena.add(&embedded, rule());

    // add a nested value
    arena.add(&embedded, rule2());

    let embedded = vec![object("embedded2")];
    arena.add(&embedded, rule());

    let embedded = vec![object("embedded"), object("injected-child")];
    arena.add(&embedded, rule());

    let embedded = vec![object("embedded"), object("injected-child2")];
    arena.add(&embedded, rule());

    let embedded = vec![object("embedded2"), object("embedded2-injected-child")];
    arena.add(&embedded, rule());

    let embedded = vec![object("embedded"), object("injected-child3")];
    arena.add(&embedded, rule());

    let embedded = vec![object("embedded2"), object("embedded2-injected-child2")];
    arena.add(&embedded, rule());

    // add a nested value
    let embedded = vec![object("injected-embedded-after")];
    arena.add(&embedded, rule());

    let tree = vec![
        Node::Object {
            id: "".to_string(),
            children: Some((1, 3)),
            rules: Some(vec![rule(), rule2()]),
        },
        Node::Object {
            id: "embedded".to_string(),
            children: Some((4, 6)),
            rules: Some(vec![rule(), rule2()]),
        },
        Node::Object {
            id: "embedded2".to_string(),
            children: Some((7, 8)),
            rules: Some(vec![rule()]),
        },
        Node::Object {
            id: "injected-embedded-after".to_string(),
            children: None,
            rules: Some(vec![rule()]),
        },
        Node::Object {
            id: "injected-child".to_string(),
            children: None,
            rules: Some(vec![rule()]),
        },
        Node::Object {
            id: "injected-child2".to_string(),
            children: None,
            rules: Some(vec![rule()]),
        },
        Node::Object {
            id: "injected-child3".to_string(),
            children: None,
            rules: Some(vec![rule()]),
        },
        Node::Object {
            id: "embedded2-injected-child".to_string(),
            children: None,
            rules: Some(vec![rule()]),
        },
        Node::Object {
            id: "embedded2-injected-child2".to_string(),
            children: None,
            rules: Some(vec![rule()]),
        },
    ];
    let expected = Arena { tree };
    assert_eq!(describe(&expected), describe(&arena));
}

fn ranges(arena: &Arena) -> Vec<(usize, usize, usize)> {
    let mut found = Vec::new();
    for (i, node) in arena.tree.iter().enumerate() {
        if let Some((start, end)) = node.child_range() {
            found.push((i, start, end));
        }
    }
    found
}

#[test]
fn test_children_stay_side_by_side() {
    let mut arena = Arena::default();
    let paths = vec![
        vec![object("a"), object("x")],
        vec![object("b"), object("y"), object("deep")],
        vec![object("a"), object("z")],
        vec![
            object("b"),
            Namespace::Array {
                id: String::from("y"),
                index: 0,
            },
        ],
        vec![object("c")],
        vec![object("a"), object("x"), object("below")],
        vec![object("b"), object("y"), object("deeper")],
    ];
    for path in &paths {
        arena.add(path, rule());
        let found = ranges(&arena);
        let mut parents = vec![0usize; arena.tree.len()];
        for &(i, start, end) in &found {
            assert!(i < start && start <= end && end < arena.tree.len());
            for c in start..=end {
                parents[c] += 1;
            }
        }
        assert_eq!(0, parents[0]);
        for c in 1..arena.tree.len() {
            assert_eq!(1, parents[c]);
        }
    }
    assert_eq!(11, arena.tree.len());
    assert_eq!(
        vec![
            (0, 1, 3),
            (1, 4, 5),
            (2, 6, 7),
            (4, 10, 10),
            (6, 8, 9)
        ],
        ranges(&arena)
    );
}

#[test]
fn test_same_path_shares_one_node() {
    let mut arena = Arena::default();
    let path = vec![object("a"), object("b")];
    arena.add(&path, rule());
    let size = arena.tree.len();
    arena.add(&path, rule2());
    assert_eq!(size, arena.tree.len());
    assert_eq!(3, size);
    match &arena.tree[2] {
        Node::Object { id, rules, .. } => {
            assert_eq!("b", id);
            let names: Vec<String> = rules.as_ref().unwrap().iter().map(rule_name).collect();
            assert_eq!(vec!["MyRule", "MyRule2"], names);
        }
        _ => panic!("not an object step"),
    }
}

#[test]
fn test_object_and_array_steps_of_one_name_differ() {
    let mut arena = Arena::default();
    arena.add(&[object("a")], rule());
    arena.add(
        &[Namespace::Array {
            id: String::from("a"),
            index: 0,
        }],
        rule(),
    );
    arena.add(
        &[Namespace::Array {
            id: String::from("a"),
            index: 1,
        }],
        rule(),
    );
    arena.add(
        &[Namespace::Array {
            id: String::from("a"),
            index: 0,
        }],
        rule2(),
    );
    assert_eq!(4, arena.tree.len());
    assert_eq!(vec![(0, 1, 3)], ranges(&arena));
}

fn node(id: &str, children: Option<(usize, usize)>) -> Node {
    Node::Object {
        id: String::from(id),
        children,
        rules: None,
    }
}

fn item(id: &str, index: usize, children: Option<(usize, usize)>) -> Node {
    Node::Array {
        index,
        id: String::from(id),
        children,
        rules: None,
    }
}

#[test]
fn test_built_trees_are_well_formed() {
    let mut arena = Arena::default();
    assert!(arena.is_well_formed());
    arena.add(&[object("a"), object("x")], rule());
    arena.add(&[object("b")], rule());
    arena.add(&[object("a"), object("y")], rule2());
    arena.add(
        &[Namespace::Array {
            id: String::from("a"),
            index: 3,
        }],
        rule(),
    );
    assert!(arena.is_well_formed());
}

#[test]
fn test_well_formed_trees_by_hand() {
    let well = |tree: Vec<Node>| Arena { tree }.is_well_formed();
    assert!(well(vec![node("", None)]));
    assert!(well(vec![
        node("", Some((1, 2))),
        node("a", Some((3, 3))),
        item("a", 0, None),
        node("a", None),
    ]));
    assert!(well(vec![
        node("", Some((2, 3))),
        node("x", None),
        node("a", Some((1, 1))),
        item("", 1, None),
    ]) == false);
}

#[test]
fn test_malformed_trees_are_found() {
    let well = |tree: Vec<Node>| Arena { tree }.is_well_formed();
    assert!(!well(vec![]));
    assert!(!well(vec![node("root", None)]));
    assert!(!well(vec![item("", 0, None)]));
    // children that lie outside the tree
    assert!(!well(vec![node("", Some((1, 1)))]));
    assert!(!well(vec![node("", Some((1, 2))), node("a", None)]));
    // children that do not come after their parent
    assert!(!well(vec![node("", Some((0, 0)))]));
    assert!(!well(vec![node("", Some((1, 1))), node("a", Some((1, 1)))]));
    // a range that ends before it begins
    assert!(!well(vec![node("", Some((2, 1))), node("a", None), node("b", None)]));
    // children of two nodes that overlap
    assert!(!well(vec![
        node("", Some((1, 2))),
        node("a", Some((2, 3))),
        node("b", None),
        node("c", None),
    ]));
    // a node that is the child of no node
    assert!(!well(vec![node("", Some((1, 1))), node("a", None), node("b", None)]));
    assert!(!well(vec![node("", None), node("a", None)]));
    // two children of one node that stand for the same step
    assert!(!well(vec![node("", Some((1, 2))), node("a", None), node("a", None)]));
    assert!(!well(vec![node("", Some((1, 2))), item("a", 1, None), item("a", 1, None)]));
    assert!(well(vec![node("", Some((1, 2))), item("a", 1, None), item("a", 2, None)]));
    assert!(well(vec![node("", Some((1, 2))), item("a", 1, None), node("a", None)]));
}
