//! Rules: what is done with the value that a path of the input leads to.

use crate::document::{
    items_view, lemma_lookup_store, lemma_position, lookup, store, Document, Fields, Json, Object,
};
use crate::errors::{Failure, TransformError};
use crate::flatten::{flatten, flattened};
use crate::namespace::{parsed, path_view, Namespace, Segment};
use vstd::prelude::*;

verus! {

/// What the application of a rule leaves behind: the output object as it
/// then is, and the error where the rule failed.
pub struct Outcome {
    pub fields: Fields,
    pub failure: Option<Failure>,
}

impl Outcome {
    /// The outcome of an application that went well and left `fields`.
    pub open spec fn written(fields: Fields) -> Outcome {
        Outcome { fields, failure: None }
    }

    /// The outcome of an application that failed and left `fields`.
    pub open spec fn failed(fields: Fields, failure: Failure) -> Outcome {
        Outcome { fields, failure: Some(failure) }
    }

    /// Whether this is the outcome of an application that returned `r` and
    /// left the output object as `fields`.
    pub open spec fn describes(self, r: Result<(), TransformError>, fields: Fields) -> bool {
        &&& self.fields == fields
        &&& match r {
            Ok(_) => self.failure is None,
            Err(e) => self.failure == Some(e@),
        }
    }

    /// Whether the application failed.
    pub open spec fn is_failure(self) -> bool {
        self.failure is Some
    }
}

/// A rule of the rule tree. It reads the value that the rule's path leads to
/// and writes into the output object.
///
/// Users implement this trait for rules of their own. What `apply` does
/// must depend on the rule and its two arguments alone: `outcome` names it,
/// and everything that is proved of a transformer with such a rule is proved
/// from that. A verified implementation defines `outcome` and proves that
/// `apply` meets it. An implementation in ordinary Rust leaves `outcome` as
/// it is, and nothing checks that its `apply` is a function of its
/// arguments: what is proved then rests on that it is.
pub trait Rule {
    /// What `apply` makes of the output object `to`, and the error it
    /// returns where it fails. Nothing is known of it but that it is one
    /// function: a rule that fails may leave in `to` what it likes, and
    /// `outcome` says what that is.
    open spec fn outcome(&self, from: Json, to: Fields) -> Outcome {
        arbitrary::<spec_fn(&Self, Json, Fields) -> Outcome>()(self, from, to)
    }

    /// Applies the rule to the value `from`, writing into `to`.
    fn apply(&self, from: &Document, to: &mut Object) -> (r: Result<(), TransformError>)
        ensures
            self.outcome(from@, old(to)@).describes(r, final(to)@),
    ;
}

/// A change of the keys that a flatten rule writes.
///
/// Users implement this trait. What `apply` returns must depend on the
/// manipulation and the input alone: `renamed` names it, and what is proved
/// of a flatten rule with a manipulation is proved from that. A verified
/// implementation defines `renamed` and proves that `apply` meets it. An
/// implementation in ordinary Rust leaves `renamed` as it is, and nothing
/// checks that its `apply` is a function of its input: what is proved then
/// rests on that it is.
pub trait StringManipulation {
    /// The key that `apply` makes of `input`. Nothing is known of it but
    /// that it is one function.
    open spec fn renamed(&self, input: Seq<char>) -> Seq<char> {
        arbitrary::<spec_fn(&Self, Seq<char>) -> Seq<char>>()(self, input)
    }

    /// Gives the key to write in place of `input`.
    fn apply(&self, input: &str) -> (out: String)
        ensures
            out@ == self.renamed(input@),
    ;
}

/// What a rule reads from the value that its path leads to.
pub enum Source {
    /// The field `id` of an object.
    Direct(String),
    /// The element `index` of the array in the field `id` of an object, or of
    /// the value itself where it is an array.
    DirectArray { id: String, index: usize },
    /// A fixed value, whatever the input.
    Constant(Document),
}

/// Where a rule writes, and how. `namespace` is the path of objects from the
/// output's root down to the object that holds the field `id`.
#[allow(inconsistent_fields)]
pub enum Destination {
    /// The value is written to the field `id`.
    Direct { namespace: Vec<Namespace>, id: String },
    /// The value is written to the element `index` of the array in the
    /// field `id`.
    DirectArray { namespace: Vec<Namespace>, id: String, index: usize },
    /// The value is flattened: into an object of its own in the field `id`,
    /// or, without an `id`, into the object at the end of the path itself.
    FlattenDirect {
        namespace: Vec<Namespace>,
        id: Option<String>,
        prefix: String,
        separator: String,
        manipulation: Option<Box<dyn StringManipulation>>,
        recursive: bool,
    },
    /// The value is flattened into an object of its own, which is written
    /// to the element `index` of the array in the field `id`.
    FlattenArray {
        namespace: Vec<Namespace>,
        id: String,
        prefix: String,
        separator: String,
        manipulation: Option<Box<dyn StringManipulation>>,
        index: usize,
        recursive: bool,
    },
}

/// A built-in rule: it reads a value as `source` says and writes it as
/// `destination` says.
pub struct Transform {
    pub source: Source,
    pub destination: Destination,
}

/// A rule of the user's, as the rule tree holds it.
pub struct CustomRule {
    pub rule: Box<dyn Rule>,
}

/// A rule as the rule tree holds it: a built-in one, or one of the user's.
pub enum NodeRule {
    Transform(Transform),
    Custom(CustomRule),
}

/// Mathematical model of a [`Source`].
pub enum SourceModel {
    Direct(Seq<char>),
    DirectArray { id: Seq<char>, index: usize },
    Constant(Json),
}

impl View for Source {
    type V = SourceModel;

    open spec fn view(&self) -> SourceModel {
        match self {
            Source::Direct(id) => SourceModel::Direct(id@),
            Source::DirectArray { id, index } => SourceModel::DirectArray {
                id: id@,
                index: *index,
            },
            Source::Constant(value) => SourceModel::Constant(value@),
        }
    }
}

/// Mathematical model of a [`Destination`].
#[allow(inconsistent_fields)]
pub enum DestinationModel {
    Direct { namespace: Seq<Segment>, id: Seq<char> },
    DirectArray { namespace: Seq<Segment>, id: Seq<char>, index: usize },
    FlattenDirect {
        namespace: Seq<Segment>,
        id: Option<Seq<char>>,
        prefix: Seq<char>,
        separator: Seq<char>,
        manipulation: Option<Box<dyn StringManipulation>>,
        recursive: bool,
    },
    FlattenArray {
        namespace: Seq<Segment>,
        id: Seq<char>,
        prefix: Seq<char>,
        separator: Seq<char>,
        manipulation: Option<Box<dyn StringManipulation>>,
        index: usize,
        recursive: bool,
    },
}

impl DestinationModel {
    /// The path of objects from the output's root down to the object that
    /// the rule writes into.
    pub open spec fn namespace(self) -> Seq<Segment> {
        match self {
            DestinationModel::Direct { namespace, .. } => namespace,
            DestinationModel::DirectArray { namespace, .. } => namespace,
            DestinationModel::FlattenDirect { namespace, .. } => namespace,
            DestinationModel::FlattenArray { namespace, .. } => namespace,
        }
    }
}

impl View for Destination {
    type V = DestinationModel;

    open spec fn view(&self) -> DestinationModel {
        match self {
            Destination::Direct { namespace, id } => DestinationModel::Direct {
                namespace: path_view(namespace@),
                id: id@,
            },
            Destination::DirectArray { namespace, id, index } => DestinationModel::DirectArray {
                namespace: path_view(namespace@),
                id: id@,
                index: *index,
            },
            Destination::FlattenDirect {
                namespace,
                id,
                prefix,
                separator,
                manipulation,
                recursive,
            } => DestinationModel::FlattenDirect {
                namespace: path_view(namespace@),
                id: match id {
                    Some(id) => Some(id@),
                    None => None,
                },
                prefix: prefix@,
                separator: separator@,
                manipulation: *manipulation,
                recursive: *recursive,
            },
            Destination::FlattenArray {
                namespace,
                id,
                prefix,
                separator,
                manipulation,
                index,
                recursive,
            } => DestinationModel::FlattenArray {
                namespace: path_view(namespace@),
                id: id@,
                prefix: prefix@,
                separator: separator@,
                manipulation: *manipulation,
                index: *index,
                recursive: *recursive,
            },
        }
    }
}

/// Mathematical model of a [`Transform`].
pub struct TransformModel {
    pub source: SourceModel,
    pub destination: DestinationModel,
}

impl View for Transform {
    type V = TransformModel;

    open spec fn view(&self) -> TransformModel {
        TransformModel { source: self.source@, destination: self.destination@ }
    }
}

/// The element `index` of an array; `Null` where the value is no array or
/// has no such element.
pub open spec fn element(value: Json, index: usize) -> Json {
    match value {
        Json::Array(items) => if index < items.len() {
            items[index as int]
        } else {
            Json::Null
        },
        _ => Json::Null,
    }
}

/// What a source reads from the value `from`: `Null` where what it looks
/// for is not there.
pub open spec fn read(source: SourceModel, from: Json) -> Json {
    match source {
        SourceModel::Direct(id) => match from {
            Json::Object(fields) => match lookup(fields, id) {
                Some(value) => value,
                None => Json::Null,
            },
            _ => Json::Null,
        },
        SourceModel::DirectArray { id, index } => match from {
            Json::Object(fields) => match lookup(fields, id) {
                Some(value) => element(value, index),
                None => Json::Null,
            },
            Json::Array(_) => element(from, index),
            _ => Json::Null,
        },
        SourceModel::Constant(value) => value,
    }
}

/// `n` times `Null`.
pub open spec fn nulls(n: nat) -> Seq<Json> {
    Seq::new(n, |i: int| Json::Null)
}

/// The array with `value` at `index`: an array that ends before `index` is
/// first made longer with `Null`.
pub open spec fn set_element(items: Seq<Json>, index: usize, value: Json) -> Seq<Json> {
    if index < items.len() {
        items.update(index as int, value)
    } else {
        items + nulls((index - items.len()) as nat).push(value)
    }
}

/// The fields after `value` has been written to the element `index` of the
/// array in the field `id`. A missing field becomes an array; a field that
/// holds something else than an array is left as it is.
pub open spec fn put_at(to: Fields, id: Seq<char>, index: usize, value: Json) -> Fields {
    match lookup(to, id) {
        Some(Json::Array(items)) => store(to, id, Json::Array(set_element(items, index, value))),
        Some(_) => to,
        None => store(to, id, Json::Array(set_element(Seq::empty(), index, value))),
    }
}

/// The object that a destination writes into, after it has written `field`.
pub open spec fn leaf_written(destination: DestinationModel, to: Fields, field: Json) -> Fields {
    match destination {
        DestinationModel::Direct { id, .. } => store(to, id, field),
        DestinationModel::DirectArray { id, index, .. } => put_at(to, id, index, field),
        DestinationModel::FlattenDirect {
            id,
            prefix,
            separator,
            manipulation,
            recursive,
            ..
        } => match id {
            Some(id) => store(
                to,
                id,
                Json::Object(
                    flattened(manipulation, separator, prefix, field, Seq::empty(), recursive),
                ),
            ),
            None => flattened(manipulation, separator, prefix, field, to, recursive),
        },
        DestinationModel::FlattenArray {
            id,
            prefix,
            separator,
            manipulation,
            index,
            recursive,
            ..
        } => put_at(
            to,
            id,
            index,
            Json::Object(
                flattened(manipulation, separator, prefix, field, Seq::empty(), recursive),
            ),
        ),
    }
}

/// What a step of a destination's path makes where the output has no field
/// of its name: an empty object, or an array of `index` times `Null`.
pub open spec fn fresh(step: Segment) -> Json {
    match step {
        Segment::Object { .. } => Json::Object(Seq::empty()),
        Segment::Array { index, .. } => Json::Array(nulls(index as nat)),
    }
}

/// The output object `to` after a destination has written `field`, where
/// `to` is the object that the steps of the destination's path before step
/// `k` lead to. Each further step leads into the field of its name, which is
/// made where it is missing; there is no result where that field holds
/// something else than an object.
pub open spec fn routed(
    to: Fields,
    namespace: Seq<Segment>,
    k: int,
    destination: DestinationModel,
    field: Json,
) -> Option<Fields>
    decreases namespace.len() - k,
{
    if k < 0 || k >= namespace.len() {
        Some(leaf_written(destination, to, field))
    } else {
        let child = match lookup(to, namespace[k].id()) {
            Some(value) => value,
            None => fresh(namespace[k]),
        };
        match child {
            Json::Object(inner) => match routed(inner, namespace, k + 1, destination, field) {
                Some(written) => Some(store(to, namespace[k].id(), Json::Object(written))),
                None => None,
            },
            _ => None,
        }
    }
}

/// What the error says where a destination's path leads through a value
/// that is not an object.
pub open spec fn blocked_message() -> Seq<char> {
    "destination path leads through a value that is not an object"@
}

/// What a built-in rule makes of the output object `to` when it is applied
/// to the value `from`. Where the path of its destination is blocked, the
/// rule fails and leaves `to` as it was.
pub open spec fn transformed(rule: TransformModel, from: Json, to: Fields) -> Outcome {
    match routed(to, rule.destination.namespace(), 0, rule.destination, read(rule.source, from)) {
        Some(written) => Outcome::written(written),
        None => Outcome::failed(to, Failure::InvalidNamespace(blocked_message())),
    }
}

/// A built-in rule that fails has written nothing.
pub proof fn lemma_failed_rule_writes_nothing(rule: TransformModel, from: Json, to: Fields)
    requires
        transformed(rule, from, to).is_failure(),
    ensures
        transformed(rule, from, to).fields == to,
{
}

/// A source that looks for a field reads `Null` where there is no such
/// field: where the value is no object, and where the object has no field
/// of that name.
pub proof fn lemma_missing_is_null(id: Seq<char>, from: Json)
    requires
        match from {
            Json::Object(fields) => lookup(fields, id) is None,
            _ => true,
        },
    ensures
        read(SourceModel::Direct(id), from) == Json::Null,
{
}

/// The value of the field `id` of the object that the steps of `namespace`
/// from step `k` on lead to, each into the field of its name.
pub open spec fn found(fields: Fields, namespace: Seq<Segment>, k: int, id: Seq<char>) -> Option<
    Json,
>
    decreases namespace.len() - k,
{
    if k < 0 || k >= namespace.len() {
        lookup(fields, id)
    } else {
        match lookup(fields, namespace[k].id()) {
            Some(Json::Object(inner)) => found(inner, namespace, k + 1, id),
            _ => None,
        }
    }
}

/// What a rule that copies has written is found where its destination says.
pub proof fn lemma_written_is_found(
    to: Fields,
    namespace: Seq<Segment>,
    k: int,
    destination: DestinationModel,
    field: Json,
)
    requires
        destination is Direct,
        routed(to, namespace, k, destination, field) is Some,
    ensures
        found(
            routed(to, namespace, k, destination, field)->0,
            namespace,
            k,
            destination->Direct_id,
        ) == Some(field),
    decreases namespace.len() - k,
{
    let id = destination->Direct_id;
    if k < 0 || k >= namespace.len() {
        lemma_lookup_store(to, id, field, id);
    } else {
        let name = namespace[k].id();
        let child = match lookup(to, name) {
            Some(value) => value,
            None => fresh(namespace[k]),
        };
        let inner = child->Object_0;
        lemma_written_is_found(inner, namespace, k + 1, destination, field);
        let written = routed(inner, namespace, k + 1, destination, field)->0;
        lemma_lookup_store(to, name, Json::Object(written), name);
    }
}

/// A rule that copies a field that is missing in the input writes `Null`:
/// where the rule can write at all, the output then has the field that the
/// rule's destination names, and it holds `Null`.
pub proof fn lemma_missing_is_written_as_null(rule: TransformModel, from: Json, to: Fields)
    requires
        rule.source is Direct,
        rule.destination is Direct,
        match from {
            Json::Object(fields) => lookup(fields, rule.source->Direct_0) is None,
            _ => true,
        },
        !transformed(rule, from, to).is_failure(),
    ensures
        found(
            transformed(rule, from, to).fields,
            rule.destination.namespace(),
            0,
            rule.destination->Direct_id,
        ) == Some(Json::Null),
{
    lemma_missing_is_null(rule.source->Direct_0, from);
    lemma_written_is_found(to, rule.destination.namespace(), 0, rule.destination, Json::Null);
}

/// Writing to the element `index` of an array that is missing or ends at
/// or before `index` gives an array of `index + 1` elements: those that
/// were there, then `Null` up to `index`, then the value.
pub proof fn lemma_array_growth(to: Fields, id: Seq<char>, index: usize, value: Json)
    requires
        match lookup(to, id) {
            Some(Json::Array(items)) => items.len() <= index,
            Some(_) => false,
            None => true,
        },
    ensures
        ({
            let was = match lookup(to, id) {
                Some(Json::Array(items)) => items,
                _ => Seq::empty(),
            };
            let now = lookup(put_at(to, id, index, value), id);
            &&& now is Some
            &&& now->0 is Array
            &&& now->0->Array_0.len() == index + 1
            &&& now->0->Array_0[index as int] == value
            &&& forall|j: int| 0 <= j < was.len() ==> now->0->Array_0[j] == was[j]
            &&& forall|j: int| was.len() <= j < index ==> now->0->Array_0[j] == Json::Null
        }),
{
    let was = match lookup(to, id) {
        Some(Json::Array(items)) => items,
        _ => Seq::empty(),
    };
    lemma_lookup_store(to, id, Json::Array(set_element(was, index, value)), id);
}

/// Reads the element `index` of an array.
fn read_element(value: &Document, index: usize) -> (field: Document)
    ensures
        field@ == element(value@, index),
{
    match value {
        Document::Array(items) => {
            if index < items.len() {
                items[index].clone()
            } else {
                Document::Null
            }
        },
        _ => Document::Null,
    }
}

/// Reads what `source` looks for in `from`.
fn read_source(source: &Source, from: &Document) -> (field: Document)
    ensures
        field@ == read(source@, from@),
{
    match source {
        Source::Direct(id) => match from {
            Document::Object(object) => match object.get(id) {
                Some(value) => value.clone(),
                None => Document::Null,
            },
            _ => Document::Null,
        },
        Source::DirectArray { id, index } => match from {
            Document::Object(object) => match object.get(id) {
                Some(value) => read_element(value, *index),
                None => Document::Null,
            },
            Document::Array(_) => read_element(from, *index),
            _ => Document::Null,
        },
        Source::Constant(value) => value.clone(),
    }
}

/// Writes `value` to the element `index` of `items`, which is first made
/// longer with `Null` where it ends before `index`.
fn set_item(items: &mut Vec<Document>, index: usize, value: Document)
    ensures
        items_view(final(items)@) == set_element(items_view(old(items)@), index, value@),
{
    let ghost before = items_view(items@);
    if index < items.len() {
        items[index] = value;
    } else {
        while items.len() < index
            invariant
                before.len() <= items.len() <= index,
                items_view(items@) == before + nulls((items.len() - before.len()) as nat),
            decreases index - items.len(),
        {
            let ghost was = items_view(items@);
            items.push(Document::Null);
            assert(items_view(items@) =~= was.push(Json::Null));
        }
        let ghost was = items_view(items@);
        items.push(value);
        assert(items_view(items@) =~= was.push(value@));
    }
}

/// Writes `value` to the element `index` of the array in the field `id`.
fn place(current: &mut Object, id: &String, index: usize, value: Document)
    ensures
        final(current)@ == put_at(old(current)@, id@, index, value@),
{
    let ghost before = current@;
    proof {
        lemma_position(before, id@);
    }
    match current.find(id) {
        Some(i) => {
            let (_, held) = current.entry(i);
            match held {
                Document::Array(_) => {
                    let taken = current.replace_at(i, Document::Null);
                    match taken {
                        Document::Array(mut items) => {
                            set_item(&mut items, index, value);
                            let _ = current.replace_at(i, Document::Array(items));
                        },
                        other => {
                            let _ = current.replace_at(i, other);
                        },
                    }
                },
                _ => {},
            }
        },
        None => {
            let mut items: Vec<Document> = Vec::new();
            set_item(&mut items, index, value);
            current.insert(id.clone(), Document::Array(items));
        },
    }
}

impl Destination {
    /// The path of objects from the output's root down to the object that
    /// the rule writes into.
    pub fn namespace(&self) -> (r: &Vec<Namespace>)
        ensures
            path_view(r@) == self@.namespace(),
    {
        match self {
            Destination::Direct { namespace, .. } => namespace,
            Destination::DirectArray { namespace, .. } => namespace,
            Destination::FlattenDirect { namespace, .. } => namespace,
            Destination::FlattenArray { namespace, .. } => namespace,
        }
    }

    /// Writes `field` into `current`, the object at the end of the
    /// destination's path.
    fn write_leaf(&self, current: &mut Object, field: Document)
        ensures
            final(current)@ == leaf_written(self@, old(current)@, field@),
    {
        match self {
            Destination::Direct { id, .. } => {
                current.insert(id.clone(), field);
            },
            Destination::DirectArray { id, index, .. } => {
                place(current, id, *index, field);
            },
            Destination::FlattenDirect { id, prefix, separator, manipulation, recursive, .. } => {
                match id {
                    Some(id) => {
                        let mut flat = Object::new();
                        flatten(
                            manipulation,
                            separator.as_str(),
                            prefix.as_str(),
                            &field,
                            &mut flat,
                            *recursive,
                        );
                        current.insert(id.clone(), Document::Object(flat));
                    },
                    None => {
                        flatten(
                            manipulation,
                            separator.as_str(),
                            prefix.as_str(),
                            &field,
                            current,
                            *recursive,
                        );
                    },
                }
            },
            Destination::FlattenArray {
                id,
                prefix,
                separator,
                manipulation,
                index,
                recursive,
                ..
            } => {
                let mut flat = Object::new();
                flatten(
                    manipulation,
                    separator.as_str(),
                    prefix.as_str(),
                    &field,
                    &mut flat,
                    *recursive,
                );
                place(current, id, *index, Document::Object(flat));
            },
        }
    }

    /// Walks the destination's path from its step `k` on, starting in
    /// `current`, and writes `field` at its end. Where the path is blocked,
    /// nothing is written.
    fn route(&self, k: usize, current: &mut Object, field: Document) -> (r: Result<
        (),
        TransformError,
    >)
        ensures
            match r {
                Ok(_) => routed(old(current)@, self@.namespace(), k as int, self@, field@) == Some(
                    final(current)@,
                ),
                Err(e) => routed(old(current)@, self@.namespace(), k as int, self@, field@) is None
                    && e@ == Failure::InvalidNamespace(blocked_message()) && final(current)@ == old(
                    current,
                )@,
            },
        decreases self@.namespace().len() - k,
    {
        let namespace = self.namespace();
        let ghost before = current@;
        if k >= namespace.len() {
            self.write_leaf(current, field);
            return Ok(());
        }
        let step = &namespace[k];
        let id = step.id();
        proof {
            lemma_position(before, id@);
        }
        match current.find(id) {
            Some(i) => {
                let (_, held) = current.entry(i);
                match held {
                    Document::Object(_) => {
                        let taken = current.replace_at(i, Document::Null);
                        match taken {
                            Document::Object(mut inner) => {
                                let r = self.route(k + 1, &mut inner, field);
                                let _ = current.replace_at(i, Document::Object(inner));
                                r
                            },
                            other => {
                                let _ = current.replace_at(i, other);
                                Err(blocked())
                            },
                        }
                    },
                    _ => Err(blocked()),
                }
            },
            None => {
                match step {
                    Namespace::Object { .. } => {
                        let mut inner = Object::new();
                        match self.route(k + 1, &mut inner, field) {
                            Ok(_) => {
                                current.insert(id.clone(), Document::Object(inner));
                                Ok(())
                            },
                            Err(e) => Err(e),
                        }
                    },
                    Namespace::Array { .. } => Err(blocked()),
                }
            },
        }
    }
}

/// The error for a destination's path that is blocked.
fn blocked() -> (e: TransformError)
    ensures
        e@ == Failure::InvalidNamespace(blocked_message()),
{
    TransformError::InvalidNamespace(
        "destination path leads through a value that is not an object".to_owned(),
    )
}

impl Rule for Transform {
    /// What the rule writes: see [`transformed`].
    open spec fn outcome(&self, from: Json, to: Fields) -> Outcome {
        transformed(self@, from, to)
    }

    /// Reads what the rule's source looks for in `from` and writes it where
    /// the rule's destination says. Where the destination's path is blocked,
    /// `to` is left as it is.
    fn apply(&self, from: &Document, to: &mut Object) -> (r: Result<(), TransformError>) {
        let field = read_source(&self.source, from);
        self.destination.route(0, to, field)
    }
}

/// Mathematical model of a [`NodeRule`].
pub enum RuleModel {
    Transform(TransformModel),
    Custom(CustomRule),
}

impl View for NodeRule {
    type V = RuleModel;

    open spec fn view(&self) -> RuleModel {
        match self {
            NodeRule::Transform(rule) => RuleModel::Transform(rule@),
            NodeRule::Custom(rule) => RuleModel::Custom(*rule),
        }
    }
}

/// The models of a list of rules.
pub open spec fn rules_view(rules: Seq<NodeRule>) -> Seq<RuleModel> {
    Seq::new(rules.len(), |i: int| rules[i]@)
}

impl RuleModel {
    /// What the rule makes of the output object `to`, and the error it
    /// returns where it fails.
    pub open spec fn outcome(self, from: Json, to: Fields) -> Outcome {
        match self {
            RuleModel::Transform(rule) => transformed(rule, from, to),
            RuleModel::Custom(custom) => custom.rule.outcome(from, to),
        }
    }
}

impl NodeRule {
    /// Applies the rule to the value `from`, writing into `to`.
    pub fn apply(&self, from: &Document, to: &mut Object) -> (r: Result<(), TransformError>)
        ensures
            self@.outcome(from@, old(to)@).describes(r, final(to)@),
    {
        match self {
            NodeRule::Transform(rule) => rule.apply(from, to),
            NodeRule::Custom(custom) => custom.rule.apply(from, to),
        }
    }
}

/// The options of a flatten rule.
pub struct FlattenOps<'a> {
    /// Whether entries that are objects or arrays are flattened in turn.
    pub recursive: bool,
    /// What every key begins with; nothing where it is `None`.
    pub prefix: Option<&'a str>,
    /// What stands between the prefix and an entry's token.
    pub separator: Option<&'a str>,
    /// A change of the keys of objects.
    pub manipulation: Option<Box<dyn StringManipulation>>,
}

impl<'a> Default for FlattenOps<'a> {
    /// No prefix, no separator, no manipulation, and not recursive.
    fn default() -> (r: Self)
        ensures
            !r.recursive,
            r.prefix is None,
            r.separator is None,
            r.manipulation is None,
    {
        FlattenOps { recursive: false, prefix: None, separator: None, manipulation: None }
    }
}

/// The description of one rule, as its author writes it: paths are texts.
#[allow(inconsistent_fields)]
pub enum Mapping {
    /// Copies the value at `from` to `to`.
    Direct { from: String, to: String },
    /// Writes the value `from` to `to`.
    Constant { from: Document, to: String },
    /// Flattens the value at `from` into `to`.
    Flatten {
        from: String,
        to: String,
        prefix: Option<String>,
        separator: Option<String>,
        manipulation: Option<Box<dyn StringManipulation>>,
        recursive: bool,
    },
}

/// Mathematical model of a [`Mapping`].
#[allow(inconsistent_fields)]
pub enum MappingModel {
    Direct { from: Seq<char>, to: Seq<char> },
    Constant { from: Json, to: Seq<char> },
    Flatten {
        from: Seq<char>,
        to: Seq<char>,
        prefix: Option<Seq<char>>,
        separator: Option<Seq<char>>,
        manipulation: Option<Box<dyn StringManipulation>>,
        recursive: bool,
    },
}

/// The model of a text that may be missing.
pub open spec fn text_view(text: Option<String>) -> Option<Seq<char>> {
    match text {
        Some(t) => Some(t@),
        None => None,
    }
}

impl View for Mapping {
    type V = MappingModel;

    open spec fn view(&self) -> MappingModel {
        match self {
            Mapping::Direct { from, to } => MappingModel::Direct { from: from@, to: to@ },
            Mapping::Constant { from, to } => MappingModel::Constant { from: from@, to: to@ },
            Mapping::Flatten {
                from,
                to,
                prefix,
                separator,
                manipulation,
                recursive,
            } => MappingModel::Flatten {
                from: from@,
                to: to@,
                prefix: text_view(*prefix),
                separator: text_view(*separator),
                manipulation: *manipulation,
                recursive: *recursive,
            },
        }
    }
}

impl<'a> FlattenOps<'a> {
    /// The mapping that flattens the value at `from` into `to` with these
    /// options.
    pub open spec fn mapping(self, from: Seq<char>, to: Seq<char>) -> MappingModel {
        MappingModel::Flatten {
            from,
            to,
            prefix: match self.prefix {
                Some(p) => Some(p@),
                None => None,
            },
            separator: match self.separator {
                Some(s) => Some(s@),
                None => None,
            },
            manipulation: self.manipulation,
            recursive: self.recursive,
        }
    }
}

/// What the error says where a rule that needs a field to write to is
/// given the empty text as its destination.
pub open spec fn no_field_message() -> Seq<char> {
    "No field defined for namespace"@
}

/// The source that reads what the last step of a source path names.
pub open spec fn source_of(step: Segment) -> SourceModel {
    match step {
        Segment::Object { id } => SourceModel::Direct(id),
        Segment::Array { id, index } => SourceModel::DirectArray { id, index },
    }
}

/// The destination of a rule that copies: it writes what the last step of
/// `to` names, in the object that the steps before it lead to.
pub open spec fn plain_destination(to: Seq<Segment>) -> DestinationModel {
    match to.last() {
        Segment::Object { id } => DestinationModel::Direct { namespace: to.drop_last(), id },
        Segment::Array { id, index } => DestinationModel::DirectArray {
            namespace: to.drop_last(),
            id,
            index,
        },
    }
}

/// The text, or the empty text where there is none.
pub open spec fn text_or_empty(text: Option<Seq<char>>) -> Seq<char> {
    match text {
        Some(t) => t,
        None => Seq::empty(),
    }
}

/// The destination of a rule that flattens. With a last step that is the
/// field with the empty name, as the empty text has it, the rule writes
/// into the object at the end of the path itself.
pub open spec fn flatten_destination(
    to: Seq<Segment>,
    prefix: Seq<char>,
    separator: Seq<char>,
    manipulation: Option<Box<dyn StringManipulation>>,
    recursive: bool,
) -> DestinationModel {
    let namespace = to.drop_last();
    match to.last() {
        Segment::Object { id } => DestinationModel::FlattenDirect {
            namespace,
            id: if id.len() == 0 {
                None
            } else {
                Some(id)
            },
            prefix,
            separator,
            manipulation,
            recursive,
        },
        Segment::Array { id, index } => DestinationModel::FlattenArray {
            namespace,
            id,
            prefix,
            separator,
            manipulation,
            index,
            recursive,
        },
    }
}

/// The path of a mapping, read from its text.
pub open spec fn path_of(text: Seq<char>) -> Result<Seq<Segment>, Failure> {
    match parsed(text) {
        Ok(path) => Ok(path),
        Err(bad) => Err(Failure::InvalidNamespaceArrayIndex(bad)),
    }
}

/// The rule that a mapping describes, with the path of the input that leads
/// to the value it is applied to: the source path without its last step.
///
/// The source path is read first, then the destination path; a path that
/// cannot be read is the error. After that the empty text as the
/// destination is the error for a rule that copies or writes a constant:
/// such a rule needs a field to write to. A rule that flattens takes the
/// empty text for the root of the output.
pub open spec fn compiled(mapping: MappingModel) -> Result<
    (Seq<Segment>, TransformModel),
    Failure,
> {
    match mapping {
        MappingModel::Direct { from, to } => match path_of(from) {
            Err(e) => Err(e),
            Ok(source) => match path_of(to) {
                Err(e) => Err(e),
                Ok(target) => if to.len() == 0 {
                    Err(Failure::InvalidNamespace(no_field_message()))
                } else {
                    Ok(
                        (
                            source.drop_last(),
                            TransformModel {
                                source: source_of(source.last()),
                                destination: plain_destination(target),
                            },
                        ),
                    )
                },
            },
        },
        MappingModel::Constant { from, to } => match path_of(to) {
            Err(e) => Err(e),
            Ok(target) => if to.len() == 0 {
                Err(Failure::InvalidNamespace(no_field_message()))
            } else {
                Ok(
                    (
                        Seq::empty(),
                        TransformModel {
                            source: SourceModel::Constant(from),
                            destination: plain_destination(target),
                        },
                    ),
                )
            },
        },
        MappingModel::Flatten {
            from,
            to,
            prefix,
            separator,
            manipulation,
            recursive,
        } => match path_of(from) {
            Err(e) => Err(e),
            Ok(source) => match path_of(to) {
                Err(e) => Err(e),
                Ok(target) => Ok(
                    (
                        source.drop_last(),
                        TransformModel {
                            source: source_of(source.last()),
                            destination: flatten_destination(
                                target,
                                text_or_empty(prefix),
                                text_or_empty(separator),
                                manipulation,
                                recursive,
                            ),
                        },
                    ),
                ),
            },
        },
    }
}

/// The error for the empty text as the destination of a rule that needs a
/// field.
fn no_field() -> (e: TransformError)
    ensures
        e@ == Failure::InvalidNamespace(no_field_message()),
{
    TransformError::InvalidNamespace("No field defined for namespace".to_owned())
}

/// Reads a path from its text.
fn read_path(text: &String) -> (r: Result<Vec<Namespace>, TransformError>)
    ensures
        match r {
            Ok(path) => path_of(text@) == Ok::<Seq<Segment>, Failure>(path_view(path@))
                && path@.len() > 0,
            Err(e) => path_of(text@) == Err::<Seq<Segment>, Failure>(e@),
        },
{
    Namespace::parse(text.as_str())
}

/// Takes the last step off a path.
fn pop_step(path: &mut Vec<Namespace>) -> (step: Namespace)
    requires
        old(path)@.len() > 0,
    ensures
        step@ == path_view(old(path)@).last(),
        path_view(final(path)@) == path_view(old(path)@).drop_last(),
{
    let ghost before = path_view(path@);
    match path.pop() {
        Some(step) => {
            assert(path_view(path@) =~= before.drop_last());
            step
        },
        None => vstd::pervasive::unreached(),
    }
}

/// The source that reads what `step` names.
fn source_for(step: Namespace) -> (source: Source)
    ensures
        source@ == source_of(step@),
{
    match step {
        Namespace::Object { id } => Source::Direct(id),
        Namespace::Array { id, index } => Source::DirectArray { id, index },
    }
}

/// The text, or the empty text where there is none.
fn text_or_default(text: Option<String>) -> (r: String)
    ensures
        r@ == text_or_empty(text_view(text)),
{
    match text {
        Some(t) => t,
        None => String::new(),
    }
}

impl Transform {
    /// Compiles a mapping into a rule and the path of the input that leads
    /// to the value that the rule is applied to.
    ///
    /// Fails with `InvalidNamespaceArrayIndex` where a path cannot be read,
    /// and with `InvalidNamespace` where a rule that copies or writes a
    /// constant has the empty text as its destination.
    pub fn parse(mapping: Mapping) -> (r: Result<(Vec<Namespace>, Transform), TransformError>)
        ensures
            match r {
                Ok((path, rule)) => compiled(mapping@) == Ok::<
                    (Seq<Segment>, TransformModel),
                    Failure,
                >((path_view(path@), rule@)),
                Err(e) => compiled(mapping@) == Err::<(Seq<Segment>, TransformModel), Failure>(
                    e@,
                ),
            },
    {
        match mapping {
            Mapping::Direct { from, to } => {
                let mut from_namespace = match read_path(&from) {
                    Ok(path) => path,
                    Err(e) => {
                        return Err(e);
                    },
                };
                let mut to_namespace = match read_path(&to) {
                    Ok(path) => path,
                    Err(e) => {
                        return Err(e);
                    },
                };
                if to.as_str().is_empty() {
                    return Err(no_field());
                }
                let source = source_for(pop_step(&mut from_namespace));
                let destination = match pop_step(&mut to_namespace) {
                    Namespace::Object { id } => Destination::Direct { namespace: to_namespace, id },
                    Namespace::Array { id, index } => Destination::DirectArray {
                        namespace: to_namespace,
                        id,
                        index,
                    },
                };
                Ok((from_namespace, Transform { source, destination }))
            },
            Mapping::Constant { from, to } => {
                let mut to_namespace = match read_path(&to) {
                    Ok(path) => path,
                    Err(e) => {
                        return Err(e);
                    },
                };
                if to.as_str().is_empty() {
                    return Err(no_field());
                }
                let destination = match pop_step(&mut to_namespace) {
                    Namespace::Object { id } => Destination::Direct { namespace: to_namespace, id },
                    Namespace::Array { id, index } => Destination::DirectArray {
                        namespace: to_namespace,
                        id,
                        index,
                    },
                };
                let from_namespace: Vec<Namespace> = Vec::new();
                assert(path_view(from_namespace@) =~= Seq::<Segment>::empty());
                Ok((from_namespace, Transform { source: Source::Constant(from), destination }))
            },
            Mapping::Flatten { from, to, prefix, separator, manipulation, recursive } => {
                let mut from_namespace = match read_path(&from) {
                    Ok(path) => path,
                    Err(e) => {
                        return Err(e);
                    },
                };
                let mut to_namespace = match read_path(&to) {
                    Ok(path) => path,
                    Err(e) => {
                        return Err(e);
                    },
                };
                let source = source_for(pop_step(&mut from_namespace));
                let prefix = text_or_default(prefix);
                let separator = text_or_default(separator);
                let destination = match pop_step(&mut to_namespace) {
                    Namespace::Array { id, index } => Destination::FlattenArray {
                        namespace: to_namespace,
                        id,
                        prefix,
                        separator,
                        manipulation,
                        index,
                        recursive,
                    },
                    Namespace::Object { id } => Destination::FlattenDirect {
                        namespace: to_namespace,
                        id: if id.as_str().is_empty() {
                            None
                        } else {
                            Some(id)
                        },
                        prefix,
                        separator,
                        manipulation,
                        recursive,
                    },
                };
                Ok((from_namespace, Transform { source, destination }))
            },
        }
    }
}

} // verus!
