//! A declarative transformer for JSON-shaped documents.
//!
//! A transformer is built from mappings, each of which says where a value of
//! the input is found and where it goes in the output. The mappings are
//! compiled into a rule tree, and the tree is applied to any number of
//! documents. A value that a rule looks for and does not find is written as
//! `null`.
//!
//! A path is a row of names with dots between them, each with any number
//! of indices in square brackets behind it, as in `nested.my_arr[1]`. A
//! name may be empty: the empty text is the field with the empty name, and
//! as the destination of a flatten rule it stands for the output itself.
//!
//! ```text
//! let trans = TransformerBuilder::default()
//!     .add_direct("user_id", "id")?
//!     .add_direct("full-name", "name")?
//!     .add_flatten(
//!         "nicknames",
//!         "",
//!         FlattenOps {
//!             recursive: true,
//!             prefix: Some("nickname"),
//!             separator: Some("_"),
//!             manipulation: None,
//!         },
//!     )?
//!     .add_direct("nested.inner.key", "prev_nested")?
//!     .add_direct("nested.my_arr[1]", "prev_arr")?
//!     .build()?;
//! let output = trans.apply_from_str(
//!     r#"{
//!         "user_id": "111",
//!         "full-name": "Dean Karn",
//!         "nicknames": ["Deano", "Joey Bloggs"],
//!         "nested": {"inner": {"key": "value"}, "my_arr": [null, "arr_value", null]}
//!     }"#,
//! )?;
//! // {"id": "111", "name": "Dean Karn", "nickname_1": "Deano",
//! //  "nickname_2": "Joey Bloggs", "prev_nested": "value", "prev_arr": "arr_value"}
//! ```
//!
//! Every function of the library is verified against a contract over a
//! mathematical model of its data: [`document::Json`] for documents,
//! [`namespace::Segment`] for the steps of a path, [`tree::NodeModel`] for
//! the nodes of the rule tree. The modules:
//!
//! - [`document`]: documents, and objects as ordered maps;
//! - [`namespace`]: the path language and its parser;
//! - [`flatten`]: the flatten engine;
//! - [`rules`]: mappings, the rules they compile to, and how a rule is applied;
//! - [`tree`]: the rule tree and the insertion of rules;
//! - [`transformer`]: the builder, and the evaluation of the rule tree;
//! - [`chain`]: what the transformer of a single rule does;
//! - [`errors`]: the errors.

pub mod chain;
pub mod document;
pub mod errors;
pub mod flatten;
pub mod namespace;
pub mod prelude;
pub mod rules;
pub mod transformer;
pub mod tree;
