//! The transformer: a rule tree and the way it is applied to a document.

use crate::document::{
    items_view, json_document, lookup, read_document, Document, Fields, Json, Object,
};
use crate::errors::{Failure, TransformError};
use crate::namespace::{path_view, Namespace, Segment};
use crate::rules::{
    compiled, rules_view, CustomRule, FlattenOps, Mapping, MappingModel, NodeRule, Outcome, Rule,
    RuleModel, Transform,
};
use crate::tree::{
    lemma_with_rule_size, range_within, root, well_formed, with_rule, Arena, Node, Nodes,
};
use vstd::prelude::*;

verus! {

/// What a transformer does with an input that is an array.
#[derive(Debug, PartialEq, Eq, Structural, Clone, Copy)]
pub enum Mode {
    /// The array is one value: the rules see the array itself.
    One2One,
    /// Every element is transformed by itself, and the output is the array
    /// of the results. An input that is no array is one value.
    Many2Many,
}

impl Default for Mode {
    /// The mode `Many2Many`.
    fn default() -> (r: Self)
        ensures
            r == Mode::Many2Many,
    {
        Mode::Many2Many
    }
}

/// The value that a step leads to from `source`, if there is one: the field
/// of an object, or the element of the array in a field of an object; a
/// step into an array with the empty name leads to an element of `source`
/// itself.
pub open spec fn stepped(source: Json, step: Segment) -> Option<Json> {
    match step {
        Segment::Object { id } => match source {
            Json::Object(fields) => lookup(fields, id),
            _ => None,
        },
        Segment::Array { id, index } => {
            let array = if id.len() > 0 {
                match source {
                    Json::Object(fields) => lookup(fields, id),
                    _ => None,
                }
            } else {
                Some(source)
            };
            match array {
                Some(Json::Array(items)) => if index < items.len() {
                    Some(items[index as int])
                } else {
                    None
                },
                _ => None,
            }
        },
    }
}

/// What the first `n` of the rules leave behind when they are applied to
/// `source`, one after the other. The first rule that fails ends the work:
/// no rule after it is applied, and the output object is what that rule
/// left of what the rules before it wrote.
pub open spec fn rules_applied(rules: Seq<RuleModel>, n: nat, source: Json, dest: Fields) -> Outcome
    decreases n,
{
    if n == 0 || n > rules.len() {
        Outcome::written(dest)
    } else {
        let before = rules_applied(rules, (n - 1) as nat, source, dest);
        if before.is_failure() {
            before
        } else {
            rules[n - 1].outcome(source, before.fields)
        }
    }
}

/// The number of the indices from `start` to `end`.
pub open spec fn span(start: usize, end: usize) -> nat {
    if start <= end {
        (end + 1 - start) as nat
    } else {
        0
    }
}

/// What the evaluation of node `i` on `source` leaves behind: first the
/// node's rules are applied to `source`, then its children are evaluated,
/// in their order, each on the value that its step leads to from `source`.
/// The first rule that fails ends the evaluation, and the output object
/// stays as that rule left it.
pub open spec fn evaluated(nodes: Nodes, i: int, source: Json, dest: Fields) -> Outcome
    decreases nodes.len() - i, 1nat, 0nat,
{
    if i < 0 || i >= nodes.len() {
        Outcome::written(dest)
    } else {
        let own = rules_applied(nodes[i].rules, nodes[i].rules.len(), source, dest);
        if own.is_failure() {
            own
        } else {
            match nodes[i].children {
                Some((start, end)) => children_evaluated(
                    nodes,
                    i,
                    start as int,
                    span(start, end),
                    source,
                    own.fields,
                ),
                None => own,
            }
        }
    }
}

/// What the evaluation of the first `n` children of node `i`, which begin
/// at `start`, leaves behind. A child whose step leads nowhere from
/// `source` is passed over, with all that is below it.
pub open spec fn children_evaluated(
    nodes: Nodes,
    i: int,
    start: int,
    n: nat,
    source: Json,
    dest: Fields,
) -> Outcome
    decreases nodes.len() - i, 0nat, n,
{
    if n == 0 {
        Outcome::written(dest)
    } else {
        let before = children_evaluated(nodes, i, start, (n - 1) as nat, source, dest);
        let c = start + n - 1;
        if before.is_failure() || c <= i || c >= nodes.len() {
            before
        } else {
            match stepped(source, nodes[c].step) {
                Some(value) => evaluated(nodes, c, value, before.fields),
                None => before,
            }
        }
    }
}

/// The output for one document: the object that the rule tree writes,
/// starting from the empty object.
pub open spec fn single(nodes: Nodes, source: Json) -> Result<Json, Failure> {
    let outcome = evaluated(nodes, 0, source, Seq::empty());
    match outcome.failure {
        None => Ok(Json::Object(outcome.fields)),
        Some(e) => Err(e),
    }
}

/// The outputs for the first `n` of the documents, or the error of the
/// first for which there is none.
pub open spec fn each_single(nodes: Nodes, items: Seq<Json>, n: nat) -> Result<
    Seq<Json>,
    Failure,
>
    decreases n,
{
    if n == 0 || n > items.len() {
        Ok(Seq::empty())
    } else {
        match each_single(nodes, items, (n - 1) as nat) {
            Ok(done) => match single(nodes, items[n - 1]) {
                Ok(output) => Ok(done.push(output)),
                Err(e) => Err(e),
            },
            Err(e) => Err(e),
        }
    }
}

/// The output of a transformer for the input `source`.
pub open spec fn output(nodes: Nodes, mode: Mode, source: Json) -> Result<Json, Failure> {
    match source {
        Json::Array(items) => if mode == Mode::Many2Many {
            match each_single(nodes, items, items.len()) {
                Ok(outputs) => Ok(Json::Array(outputs)),
                Err(e) => Err(e),
            }
        } else {
            single(nodes, source)
        },
        _ => single(nodes, source),
    }
}

/// A child whose step leads nowhere from the source is passed over, with
/// all that is below it: the output is what it was before that child.
pub proof fn lemma_missing_subtree_is_skipped(
    nodes: Nodes,
    i: int,
    start: int,
    n: nat,
    source: Json,
    dest: Fields,
)
    requires
        n > 0,
        0 <= start + n - 1 < nodes.len(),
        stepped(source, nodes[start + n - 1].step) is None,
    ensures
        children_evaluated(nodes, i, start, n, source, dest) == children_evaluated(
            nodes,
            i,
            start,
            (n - 1) as nat,
            source,
            dest,
        ),
{
}

/// Where no step of a node's children leads anywhere from the source, the
/// node writes what its own rules write and nothing else: nothing below it
/// is evaluated.
pub proof fn lemma_unreached_children_write_nothing(
    nodes: Nodes,
    i: int,
    source: Json,
    dest: Fields,
)
    requires
        0 <= i < nodes.len(),
        forall|c: int|
            0 <= c < nodes.len() && nodes[i].has_child(c) ==> stepped(
                source,
                (#[trigger] nodes[c]).step,
            ) is None,
    ensures
        evaluated(nodes, i, source, dest) == rules_applied(
            nodes[i].rules,
            nodes[i].rules.len(),
            source,
            dest,
        ),
{
    let own = rules_applied(nodes[i].rules, nodes[i].rules.len(), source, dest);
    match nodes[i].children {
        Some((start, end)) => {
            lemma_unreached_children(nodes, i, start as int, span(start, end), source, own.fields);
        },
        None => {},
    }
}

/// Children whose steps lead nowhere from the source leave the output as
/// it is.
proof fn lemma_unreached_children(
    nodes: Nodes,
    i: int,
    start: int,
    n: nat,
    source: Json,
    dest: Fields,
)
    requires
        0 <= i < nodes.len(),
        match nodes[i].children {
            Some((first, last)) => start == first && n <= span(first, last),
            None => false,
        },
        forall|c: int|
            0 <= c < nodes.len() && nodes[i].has_child(c) ==> stepped(
                source,
                (#[trigger] nodes[c]).step,
            ) is None,
    ensures
        children_evaluated(nodes, i, start, n, source, dest) == Outcome::written(dest),
    decreases n,
{
    if n > 0 {
        lemma_unreached_children(nodes, i, start, (n - 1) as nat, source, dest);
    }
}

/// The outputs for the documents, where there is one for each of them.
pub open spec fn singles(nodes: Nodes, items: Seq<Json>) -> Seq<Json> {
    Seq::new(items.len(), |k: int| single(nodes, items[k])->Ok_0)
}

/// Where every document has an output, the outputs for the first `n` are
/// the first `n` of them.
proof fn lemma_each_single(nodes: Nodes, items: Seq<Json>, n: nat)
    requires
        n <= items.len(),
        forall|k: int| 0 <= k < items.len() ==> (#[trigger] single(nodes, items[k])) is Ok,
    ensures
        each_single(nodes, items, n) == Ok::<Seq<Json>, Failure>(
            singles(nodes, items).take(n as int),
        ),
    decreases n,
{
    if n == 0 {
        assert(singles(nodes, items).take(0) =~= Seq::<Json>::empty());
    } else {
        lemma_each_single(nodes, items, (n - 1) as nat);
        assert(singles(nodes, items).take(n as int) =~= singles(nodes, items).take(n - 1).push(
            single(nodes, items[n - 1])->Ok_0,
        ));
    }
}

/// In the mode `Many2Many` the output for an array is the array of the
/// outputs for its elements, in their order, where each element has one.
pub proof fn lemma_many_to_many(nodes: Nodes, items: Seq<Json>)
    requires
        forall|k: int| 0 <= k < items.len() ==> (#[trigger] single(nodes, items[k])) is Ok,
    ensures
        output(nodes, Mode::Many2Many, Json::Array(items)) == Ok::<Json, Failure>(
            Json::Array(singles(nodes, items)),
        ),
{
    lemma_each_single(nodes, items, items.len());
    assert(singles(nodes, items).take(items.len() as int) =~= singles(nodes, items));
}

/// In the mode `One2One` every input is one value, an array too; in the
/// mode `Many2Many` every input but an array is.
pub proof fn lemma_one_value(nodes: Nodes, mode: Mode, source: Json)
    requires
        mode == Mode::One2One || !(source is Array),
    ensures
        output(nodes, mode, source) == single(nodes, source),
{
}

/// The plan of a builder without rules.
pub open spec fn empty_plan() -> Plan {
    Plan { nodes: seq![root()], mode: Mode::Many2Many }
}

/// What is built from the same mappings in the same order is the same, and
/// gives the same output for the same input, key for key and in the same
/// order.
pub proof fn lemma_same_build_same_output(
    first: Plan,
    second: Plan,
    mappings: Seq<Mapping>,
    source: Json,
)
    requires
        all_planned(empty_plan(), mappings, mappings.len()) == Ok::<Plan, Failure>(first),
        all_planned(empty_plan(), mappings, mappings.len()) == Ok::<Plan, Failure>(second),
    ensures
        first == second,
        output(first.nodes, first.mode, source) == output(second.nodes, second.mode, source),
{
}

/// Finds the element `index` of an array.
fn item_at(value: &Document, index: usize) -> (r: Option<&Document>)
    ensures
        match r {
            Some(item) => value@ is Array && index < value@->Array_0.len() && item@
                == value@->Array_0[index as int],
            None => !(value@ is Array && index < value@->Array_0.len()),
        },
{
    match value {
        Document::Array(items) => {
            if index < items.len() {
                Some(&items[index])
            } else {
                None
            }
        },
        _ => None,
    }
}

/// Finds the value that the step of `node` leads to from `source`.
fn step_into<'a>(source: &'a Document, node: &Node) -> (r: Option<&'a Document>)
    ensures
        match r {
            Some(value) => stepped(source@, node@.step) == Some(value@),
            None => stepped(source@, node@.step) is None,
        },
{
    match node {
        Node::Object { id, .. } => match source {
            Document::Object(object) => object.get(id),
            _ => None,
        },
        Node::Array { id, index, .. } => {
            if !id.as_str().is_empty() {
                match source {
                    Document::Object(object) => match object.get(id) {
                        Some(array) => item_at(array, *index),
                        None => None,
                    },
                    _ => None,
                }
            } else {
                item_at(source, *index)
            }
        },
    }
}

/// Evaluates node `i` of the rule tree on `source`, writing into `dest`.
pub fn transform_recursive(arena: &Arena, i: usize, source: &Document, dest: &mut Object) -> (r:
    Result<(), TransformError>)
    requires
        arena.wf(),
        i < arena.tree.len(),
    ensures
        evaluated(arena@, i as int, source@, old(dest)@).describes(r, final(dest)@),
    decreases arena.tree.len() - i,
{
    let ghost nodes = arena@;
    let ghost before = dest@;
    let node = &arena.tree[i];
    proof {
        assert(range_within(nodes, i as int));
    }
    match node {
        Node::Object { rules, children, .. } | Node::Array { rules, children, .. } => {
            if let Some(list) = rules {
                let mut k: usize = 0;
                while k < list.len()
                    invariant
                        0 <= k <= list.len(),
                        nodes == arena@,
                        i < nodes.len(),
                        before == old(dest)@,
                        nodes[i as int].rules == rules_view(list@),
                        rules_applied(nodes[i as int].rules, k as nat, source@, before)
                            == Outcome::written(dest@),
                    decreases list.len() - k,
                {
                    match list[k].apply(source, dest) {
                        Ok(_) => {},
                        Err(e) => {
                            proof {
                                lemma_rules_fail(
                                    nodes[i as int].rules,
                                    k as nat + 1,
                                    nodes[i as int].rules.len(),
                                    source@,
                                    before,
                                );
                            }
                            return Err(e);
                        },
                    }
                    k += 1;
                }
            }
            let ghost written = dest@;
            if let Some((start, end)) = children {
                let mut c: usize = *start;
                while c <= *end
                    invariant
                        arena.wf(),
                        nodes == arena@,
                        i < nodes.len(),
                        before == old(dest)@,
                        nodes[i as int].children == Some((*start, *end)),
                        rules_applied(
                            nodes[i as int].rules,
                            nodes[i as int].rules.len(),
                            source@,
                            before,
                        ) == Outcome::written(written),
                        i < *start <= c <= *end + 1,
                        *end < arena.tree.len(),
                        children_evaluated(
                            nodes,
                            i as int,
                            *start as int,
                            (c - *start) as nat,
                            source@,
                            written,
                        ) == Outcome::written(dest@),
                    decreases *end + 1 - c,
                {
                    let child = &arena.tree[c];
                    let r = match step_into(source, child) {
                        Some(value) => transform_recursive(arena, c, value, dest),
                        None => Ok(()),
                    };
                    match r {
                        Ok(_) => {},
                        Err(e) => {
                            proof {
                                lemma_children_fail(
                                    nodes,
                                    i as int,
                                    *start as int,
                                    (c - *start) as nat + 1,
                                    (*end + 1 - *start) as nat,
                                    source@,
                                    written,
                                );
                            }
                            return Err(e);
                        },
                    }
                    c += 1;
                }
            }
            Ok(())
        },
    }
}

/// The first rule that fails ends the work: no rule after it is applied, so
/// that the error and the output object stay as that rule left them.
pub proof fn lemma_rules_fail(rules: Seq<RuleModel>, n: nat, m: nat, source: Json, dest: Fields)
    requires
        n <= m <= rules.len(),
        rules_applied(rules, n, source, dest).is_failure(),
    ensures
        rules_applied(rules, m, source, dest) == rules_applied(rules, n, source, dest),
    decreases m - n,
{
    if n < m {
        lemma_rules_fail(rules, n, (m - 1) as nat, source, dest);
    }
}

/// A built-in rule that fails leaves the output object as the rules before
/// it wrote it.
pub proof fn lemma_failed_rule_keeps_earlier_writes(
    rules: Seq<RuleModel>,
    n: nat,
    source: Json,
    dest: Fields,
)
    requires
        0 < n <= rules.len(),
        rules[n - 1] is Transform,
        !rules_applied(rules, (n - 1) as nat, source, dest).is_failure(),
        rules_applied(rules, n, source, dest).is_failure(),
    ensures
        rules_applied(rules, n, source, dest).fields == rules_applied(
            rules,
            (n - 1) as nat,
            source,
            dest,
        ).fields,
{
}

/// A failure below a node ends the evaluation of its children: no child
/// after it is evaluated.
pub proof fn lemma_children_fail(
    nodes: Nodes,
    i: int,
    start: int,
    n: nat,
    m: nat,
    source: Json,
    dest: Fields,
)
    requires
        n <= m,
        children_evaluated(nodes, i, start, n, source, dest).is_failure(),
    ensures
        children_evaluated(nodes, i, start, m, source, dest) == children_evaluated(
            nodes,
            i,
            start,
            n,
            source,
            dest,
        ),
    decreases m - n,
{
    if n < m {
        lemma_children_fail(nodes, i, start, n, (m - 1) as nat, source, dest);
    }
}

/// Transforms one input: every element by itself where the mode is
/// `Many2Many` and the input is an array, the input as one value otherwise.
pub fn transform(mode: &Mode, arena: &Arena, source: &Document) -> (r: Result<
    Document,
    TransformError,
>)
    requires
        arena.wf(),
    ensures
        match r {
            Ok(result) => output(arena@, *mode, source@) == Ok::<Json, Failure>(result@),
            Err(e) => output(arena@, *mode, source@) == Err::<Json, Failure>(e@),
        },
{
    match source {
        Document::Array(items) => {
            if *mode == Mode::Many2Many {
                let ghost models = items_view(items@);
                let mut outputs: Vec<Document> = Vec::new();
                let mut k: usize = 0;
                assert(items_view(outputs@) =~= Seq::<Json>::empty());
                while k < items.len()
                    invariant
                        arena.wf(),
                        0 <= k <= items.len(),
                        *mode == Mode::Many2Many,
                        source@ == Json::Array(models),
                        models == items_view(items@),
                        each_single(arena@, models, k as nat) == Ok::<Seq<Json>, Failure>(
                            items_view(outputs@),
                        ),
                    decreases items.len() - k,
                {
                    let ghost done = items_view(outputs@);
                    match transform_single(arena, &items[k]) {
                        Ok(result) => {
                            outputs.push(result);
                            assert(items_view(outputs@) =~= done.push(result@));
                        },
                        Err(e) => {
                            proof {
                                lemma_each_fail(arena@, models, k as nat + 1, models.len());
                            }
                            return Err(e);
                        },
                    }
                    k += 1;
                }
                Ok(Document::Array(outputs))
            } else {
                transform_single(arena, source)
            }
        },
        _ => transform_single(arena, source),
    }
}

/// Transforms one document into one object.
fn transform_single(arena: &Arena, source: &Document) -> (r: Result<Document, TransformError>)
    requires
        arena.wf(),
    ensures
        match r {
            Ok(result) => single(arena@, source@) == Ok::<Json, Failure>(result@),
            Err(e) => single(arena@, source@) == Err::<Json, Failure>(e@),
        },
{
    let mut results = Object::new();
    match transform_recursive(arena, 0, source, &mut results) {
        Ok(_) => Ok(Document::Object(results)),
        Err(e) => Err(e),
    }
}

/// Once the first `n` documents have failed, all of them have, in the same way.
proof fn lemma_each_fail(nodes: Nodes, items: Seq<Json>, n: nat, m: nat)
    requires
        n <= m <= items.len(),
        each_single(nodes, items, n) is Err,
    ensures
        each_single(nodes, items, m) == each_single(nodes, items, n),
    decreases m - n,
{
    if n < m {
        lemma_each_fail(nodes, items, n, (m - 1) as nat);
    }
}

/// What a transformer is made of: the nodes of its rule tree, and its mode.
pub struct Plan {
    pub nodes: Nodes,
    pub mode: Mode,
}

/// Whether a rule tree has room for the nodes of one more path.
pub open spec fn fits(nodes: Nodes, path: Seq<Segment>) -> bool {
    nodes.len() + path.len() < usize::MAX
}

/// What the error says where the rule tree has no room for another path.
pub open spec fn full_message() -> Seq<char> {
    "the rule tree is full"@
}

/// The plan with one more rule at the end of `path`, or the error where
/// the rule tree has no room for it.
pub open spec fn added(plan: Plan, path: Seq<Segment>, rule: RuleModel) -> Result<Plan, Failure> {
    if fits(plan.nodes, path) {
        Ok(Plan { nodes: with_rule(plan.nodes, path, rule), mode: plan.mode })
    } else {
        Err(Failure::InvalidNamespace(full_message()))
    }
}

/// The plan with the rule that a mapping describes, or the error of the
/// mapping.
pub open spec fn planned(plan: Plan, mapping: MappingModel) -> Result<Plan, Failure> {
    match compiled(mapping) {
        Ok((path, rule)) => added(plan, path, RuleModel::Transform(rule)),
        Err(e) => Err(e),
    }
}

/// The plan with the rules of the first `n` mappings, or the error of the
/// first mapping that has one.
pub open spec fn all_planned(plan: Plan, mappings: Seq<Mapping>, n: nat) -> Result<Plan, Failure>
    decreases n,
{
    if n == 0 || n > mappings.len() {
        Ok(plan)
    } else {
        match all_planned(plan, mappings, (n - 1) as nat) {
            Ok(before) => planned(before, mappings[n - 1]@),
            Err(e) => Err(e),
        }
    }
}

/// Builds a transformer, rule by rule.
pub struct TransformerBuilder {
    root: Arena,
    mode: Mode,
}

impl View for TransformerBuilder {
    type V = Plan;

    closed spec fn view(&self) -> Plan {
        Plan { nodes: self.root@, mode: self.mode }
    }
}

impl Default for TransformerBuilder {
    /// A builder without rules, in the mode `Many2Many`.
    fn default() -> (r: Self)
        ensures
            r@ == empty_plan(),
    {
        TransformerBuilder { root: Arena::default(), mode: Mode::default() }
    }
}

impl TransformerBuilder {
    /// What holds of every builder: its rule tree is well formed.
    #[verifier::type_invariant]
    pub open spec fn tree_is_well_formed(self) -> bool {
        well_formed(self@.nodes)
    }

    /// Sets the mode in which the transformer will work.
    pub fn mode(self, mode: Mode) -> (r: Self)
        ensures
            r@ == (Plan { nodes: self@.nodes, mode }),
    {
        proof {
            use_type_invariant(&self);
        }
        TransformerBuilder { root: self.root, mode }
    }

    /// Adds a rule to the rule tree, at the end of `namespace`.
    fn add_rule(self, namespace: &[Namespace], rule: NodeRule) -> (r: Result<Self, TransformError>)
        ensures
            match r {
                Ok(builder) => added(self@, path_view(namespace@), rule@) == Ok::<Plan, Failure>(
                    builder@,
                ),
                Err(e) => added(self@, path_view(namespace@), rule@) == Err::<Plan, Failure>(e@),
            },
    {
        proof {
            use_type_invariant(&self);
        }
        let mut root = self.root;
        let mode = self.mode;
        if namespace.len() >= usize::MAX - root.tree.len() {
            return Err(TransformError::InvalidNamespace("the rule tree is full".to_owned()));
        }
        proof {
            lemma_with_rule_size(root@, path_view(namespace@), rule@);
        }
        root.add(namespace, rule);
        Ok(TransformerBuilder { root, mode })
    }

    /// Adds a rule of the user's, which is applied to the value at the end
    /// of `namespace`.
    ///
    /// Fails with `InvalidNamespace` where the rule tree has no room for
    /// the path.
    pub fn add<R: Rule + 'static>(self, namespace: &[Namespace], rule: R) -> (r: Result<
        Self,
        TransformError,
    >)
        ensures
            match r {
                Ok(builder) => added(
                    self@,
                    path_view(namespace@),
                    RuleModel::Custom(CustomRule { rule: Box::new(rule) }),
                ) == Ok::<Plan, Failure>(builder@),
                Err(e) => added(
                    self@,
                    path_view(namespace@),
                    RuleModel::Custom(CustomRule { rule: Box::new(rule) }),
                ) == Err::<Plan, Failure>(e@),
            },
    {
        self.add_rule(namespace, NodeRule::Custom(CustomRule { rule: Box::new(rule) }))
    }

    /// Adds the rules that a list of mappings describes, in their order.
    /// The first mapping that fails ends the work, with its error.
    pub fn add_mappings(self, mappings: Vec<Mapping>) -> (r: Result<Self, TransformError>)
        ensures
            match r {
                Ok(builder) => all_planned(self@, mappings@, mappings@.len()) == Ok::<
                    Plan,
                    Failure,
                >(builder@),
                Err(e) => all_planned(self@, mappings@, mappings@.len()) == Err::<Plan, Failure>(
                    e@,
                ),
            },
    {
        let ghost all = mappings@;
        let ghost start = self@;
        let mut builder = self;
        let mut rest = mappings;
        while rest.len() > 0
            invariant
                all == mappings@,
                start == self@,
                rest.len() <= all.len(),
                rest@ == all.skip(all.len() - rest.len()),
                all_planned(start, all, (all.len() - rest.len()) as nat) == Ok::<Plan, Failure>(
                    builder@,
                ),
            decreases rest.len(),
        {
            let ghost k = all.len() - rest.len();
            let mapping = rest.remove(0);
            match builder.add_mapping(mapping) {
                Ok(next) => {
                    builder = next;
                },
                Err(e) => {
                    proof {
                        lemma_all_fail(start, all, (k + 1) as nat, all.len());
                    }
                    return Err(e);
                },
            }
        }
        Ok(builder)
    }

    /// Adds the rule that a mapping describes.
    ///
    /// Fails with the error of the mapping where it cannot be compiled, and
    /// with `InvalidNamespace` where the rule tree has no room for its path.
    pub fn add_mapping(self, mapping: Mapping) -> (r: Result<Self, TransformError>)
        ensures
            match r {
                Ok(builder) => planned(self@, mapping@) == Ok::<Plan, Failure>(builder@),
                Err(e) => planned(self@, mapping@) == Err::<Plan, Failure>(e@),
            },
    {
        match Transform::parse(mapping) {
            Ok((path, rule)) => self.add_rule(path.as_slice(), NodeRule::Transform(rule)),
            Err(e) => Err(e),
        }
    }

    /// Adds a rule that writes the value `from` to the place `to` of the output.
    pub fn add_constant(self, from: Document, to: &str) -> (r: Result<Self, TransformError>)
        ensures
            match r {
                Ok(builder) => planned(self@, MappingModel::Constant { from: from@, to: to@ })
                    == Ok::<Plan, Failure>(builder@),
                Err(e) => planned(self@, MappingModel::Constant { from: from@, to: to@ }) == Err::<
                    Plan,
                    Failure,
                >(e@),
            },
    {
        self.add_mapping(Mapping::Constant { from, to: to.to_owned() })
    }

    /// Adds a rule that copies the value at the place `from` of the input
    /// to the place `to` of the output.
    pub fn add_direct(self, from: &str, to: &str) -> (r: Result<Self, TransformError>)
        ensures
            match r {
                Ok(builder) => planned(self@, MappingModel::Direct { from: from@, to: to@ })
                    == Ok::<Plan, Failure>(builder@),
                Err(e) => planned(self@, MappingModel::Direct { from: from@, to: to@ }) == Err::<
                    Plan,
                    Failure,
                >(e@),
            },
    {
        self.add_mapping(Mapping::Direct { from: from.to_owned(), to: to.to_owned() })
    }

    /// Adds a rule that flattens the value at the place `from` of the input
    /// into the place `to` of the output.
    pub fn add_flatten(self, from: &str, to: &str, options: FlattenOps) -> (r: Result<
        Self,
        TransformError,
    >)
        ensures
            match r {
                Ok(builder) => planned(self@, options.mapping(from@, to@)) == Ok::<Plan, Failure>(
                    builder@,
                ),
                Err(e) => planned(self@, options.mapping(from@, to@)) == Err::<Plan, Failure>(e@),
            },
    {
        self.add_mapping(
            Mapping::Flatten {
                from: from.to_owned(),
                to: to.to_owned(),
                prefix: match options.prefix {
                    Some(v) => Some(v.to_owned()),
                    None => None,
                },
                separator: match options.separator {
                    Some(v) => Some(v.to_owned()),
                    None => None,
                },
                manipulation: options.manipulation,
                recursive: options.recursive,
            },
        )
    }

    /// Makes the transformer.
    pub fn build(self) -> (r: Result<Transformer, TransformError>)
        ensures
            r is Ok,
            r->Ok_0@ == self@,
            well_formed(self@.nodes),
    {
        proof {
            use_type_invariant(&self);
        }
        Ok(Transformer { root: self.root, mode: self.mode })
    }
}

/// Once the first `n` mappings have failed, all of them have, in the same way.
proof fn lemma_all_fail(plan: Plan, mappings: Seq<Mapping>, n: nat, m: nat)
    requires
        n <= m <= mappings.len(),
        all_planned(plan, mappings, n) is Err,
    ensures
        all_planned(plan, mappings, m) == all_planned(plan, mappings, n),
    decreases m - n,
{
    if n < m {
        lemma_all_fail(plan, mappings, n, (m - 1) as nat);
    }
}

/// The output of a transformer for what was read from a text: the output
/// for the document, or the error that says why there is no document.
pub open spec fn read_output(plan: Plan, source: Result<Json, serde_json::Error>) -> Result<
    Json,
    Failure,
> {
    match source {
        Ok(document) => output(plan.nodes, plan.mode, document),
        Err(e) => Err(Failure::Json(e)),
    }
}

/// Applies the rules it was built with to any number of documents.
pub struct Transformer {
    root: Arena,
    mode: Mode,
}

impl View for Transformer {
    type V = Plan;

    closed spec fn view(&self) -> Plan {
        Plan { nodes: self.root@, mode: self.mode }
    }
}

impl Transformer {
    /// What holds of every transformer: its rule tree is well formed.
    #[verifier::type_invariant]
    pub open spec fn tree_is_well_formed(self) -> bool {
        well_formed(self@.nodes)
    }

    /// Takes the transformer apart into its rule tree and its mode, so
    /// that they can be kept and made a transformer again later.
    pub fn into_parts(self) -> (parts: (Arena, Mode))
        ensures
            parts.0@ == self@.nodes,
            parts.1 == self@.mode,
            parts.0.wf(),
    {
        proof {
            use_type_invariant(&self);
        }
        (self.root, self.mode)
    }

    /// Makes a transformer of a rule tree and a mode. There is none where
    /// the rule tree is not well formed, as a tree that was put together by
    /// hand may be.
    pub fn from_parts(root: Arena, mode: Mode) -> (r: Option<Transformer>)
        ensures
            match r {
                Some(transformer) => root.wf() && transformer@ == (Plan { nodes: root@, mode }),
                None => !root.wf(),
            },
    {
        if root.is_well_formed() {
            Some(Transformer { root, mode })
        } else {
            None
        }
    }

    /// Transforms a document.
    pub fn apply(&self, source: &Document) -> (r: Result<Document, TransformError>)
        ensures
            match r {
                Ok(result) => output(self@.nodes, self@.mode, source@) == Ok::<Json, Failure>(
                    result@,
                ),
                Err(e) => output(self@.nodes, self@.mode, source@) == Err::<Json, Failure>(e@),
            },
    {
        proof {
            use_type_invariant(self);
        }
        transform(&self.mode, &self.root, source)
    }

    /// Transforms the JSON document that the text `input` holds.
    ///
    /// Fails with `Json` where the text is not one JSON document.
    pub fn apply_from_str(&self, input: &str) -> (r: Result<Document, TransformError>)
        ensures
            match r {
                Ok(result) => read_output(self@, json_document(input@)) == Ok::<Json, Failure>(
                    result@,
                ),
                Err(e) => read_output(self@, json_document(input@)) == Err::<Json, Failure>(e@),
            },
    {
        match read_document(input) {
            Ok(source) => self.apply(&source),
            Err(e) => Err(TransformError::from(e)),
        }
    }
}

} // verus!
