//! The transformer of a single rule: its rule tree is a chain of nodes, one
//! for each step of the rule's path, and what it does with a document can
//! be said in one sentence.

use crate::document::{lookup, Fields, Json};
use crate::errors::Failure;
use crate::namespace::Segment;
use crate::rules::{
    found, lemma_missing_is_written_as_null, transformed, Outcome, RuleModel, TransformModel,
};
use crate::transformer::{children_evaluated, evaluated, rules_applied, single, span, stepped};
use crate::tree::{after_insert, descend, root, with_path, with_rule, NodeModel, Nodes};
use vstd::prelude::*;

verus! {

/// The rule tree of the first `k` steps of `path` alone, without rules:
/// node `i + 1` stands for step `i` and is the one child of node `i`.
pub open spec fn chain(path: Seq<Segment>, k: int) -> Nodes {
    Seq::new(
        (k + 1) as nat,
        |i: int|
            NodeModel {
                step: if i == 0 {
                    root().step
                } else {
                    path[i - 1]
                },
                children: if i < k {
                    Some(((i + 1) as usize, (i + 1) as usize))
                } else {
                    None
                },
                rules: Seq::empty(),
            },
    )
}

/// The value that the steps of `path` from step `k` on lead to from
/// `source`, if each of them leads somewhere.
pub open spec fn walked(source: Json, path: Seq<Segment>, k: int) -> Option<Json>
    decreases path.len() - k,
{
    if k < 0 || k >= path.len() {
        Some(source)
    } else {
        match stepped(source, path[k]) {
            Some(value) => walked(value, path, k + 1),
            None => None,
        }
    }
}

/// What a rule at the end of `path` makes of the output object `dest` for
/// the document `source`: the rule is applied to the value that the path
/// leads to, and nothing is written where the path leads nowhere.
pub open spec fn applied_at(
    rule: RuleModel,
    path: Seq<Segment>,
    source: Json,
    dest: Fields,
) -> Outcome {
    match walked(source, path, 0) {
        Some(value) => rule.outcome(value, dest),
        None => Outcome::written(dest),
    }
}

/// Making the nodes of a path below the root alone gives the chain of the
/// whole path, and ends at its last node.
proof fn lemma_chain_grows(path: Seq<Segment>, k: int)
    requires
        0 <= k <= path.len(),
        path.len() < usize::MAX,
    ensures
        with_path(chain(path, k), path, k, k) == (
            chain(path, path.len() as int),
            path.len() as int,
        ),
    decreases path.len() - k,
{
    if k < path.len() {
        let nodes = chain(path, k);
        assert(nodes[k].children is None);
        assert(descend(nodes, k, path[k]) is None);
        assert(after_insert(nodes, k, k + 1, NodeModel::leaf(path[k])) =~= chain(path, k + 1));
        lemma_chain_grows(path, k + 1);
    }
}

/// The rule tree of one rule at the end of `path` is the chain of the path
/// with the rule at its last node.
pub proof fn lemma_single_rule_tree(path: Seq<Segment>, rule: RuleModel)
    requires
        path.len() < usize::MAX,
    ensures
        with_rule(seq![root()], path, rule) == chain(path, path.len() as int).update(
            path.len() as int,
            chain(path, path.len() as int)[path.len() as int].with_rule(rule),
        ),
{
    assert(chain(path, 0) =~= seq![root()]);
    lemma_chain_grows(path, 0);
}

/// Evaluating node `i` of the chain with the rule at its end applies the
/// rule to the value that the rest of the path leads to.
proof fn lemma_chain_evaluated(
    path: Seq<Segment>,
    rule: RuleModel,
    i: int,
    source: Json,
    dest: Fields,
)
    requires
        0 <= i <= path.len(),
        path.len() < usize::MAX,
    ensures
        evaluated(with_rule(seq![root()], path, rule), i, source, dest) == (match walked(
            source,
            path,
            i,
        ) {
            Some(value) => rule.outcome(value, dest),
            None => Outcome::written(dest),
        }),
    decreases path.len() - i,
{
    let m = path.len() as int;
    let nodes = with_rule(seq![root()], path, rule);
    lemma_single_rule_tree(path, rule);
    if i == m {
        assert(nodes[i].rules =~= seq![rule]);
        assert(rules_applied(nodes[i].rules, 0, source, dest) == Outcome::written(dest));
    } else {
        assert(nodes[i].rules =~= Seq::<RuleModel>::empty());
        assert(nodes[i].children == Some(((i + 1) as usize, (i + 1) as usize)));
        assert(span((i + 1) as usize, (i + 1) as usize) == 1);
        assert(children_evaluated(nodes, i, i + 1, 0, source, dest) == Outcome::written(dest));
        assert(nodes[i + 1].step == path[i]);
        match stepped(source, path[i]) {
            Some(value) => {
                lemma_chain_evaluated(path, rule, i + 1, value, dest);
            },
            None => {},
        }
    }
}

/// The transformer of a single rule applies the rule to the value that the
/// rule's path leads to in the document, and writes nothing, so that the
/// output is the empty object, where the path leads nowhere.
pub proof fn lemma_single_rule(path: Seq<Segment>, rule: RuleModel, source: Json)
    requires
        path.len() < usize::MAX,
    ensures
        single(with_rule(seq![root()], path, rule), source) == (match applied_at(
            rule,
            path,
            source,
            Seq::empty(),
        ).failure {
            None => Ok::<Json, Failure>(
                Json::Object(applied_at(rule, path, source, Seq::empty()).fields),
            ),
            Some(e) => Err(e),
        }),
{
    lemma_chain_evaluated(path, rule, 0, source, Seq::empty());
}

/// Where the path of the one rule of a transformer leads nowhere in the
/// document, the output is the empty object: the rule writes no field, and
/// no `Null` either.
pub proof fn lemma_absent_path_writes_nothing(path: Seq<Segment>, rule: RuleModel, source: Json)
    requires
        path.len() < usize::MAX,
        walked(source, path, 0) is None,
    ensures
        single(with_rule(seq![root()], path, rule), source) == Ok::<Json, Failure>(
            Json::Object(Seq::empty()),
        ),
{
    lemma_single_rule(path, rule, source);
}

/// Where the path of a transformer's one rule leads to a value, and the
/// rule copies a field that this value does not have, the output holds
/// `Null` where the rule's destination says.
pub proof fn lemma_absent_field_is_null(path: Seq<Segment>, rule: TransformModel, source: Json)
    requires
        path.len() < usize::MAX,
        rule.source is Direct,
        rule.destination is Direct,
        walked(source, path, 0) is Some,
        match walked(source, path, 0)->0 {
            Json::Object(fields) => lookup(fields, rule.source->Direct_0) is None,
            _ => true,
        },
        !transformed(rule, walked(source, path, 0)->0, Seq::empty()).is_failure(),
    ensures
        ({
            let output = single(
                with_rule(seq![root()], path, RuleModel::Transform(rule)),
                source,
            );
            &&& output is Ok
            &&& output->Ok_0 is Object
            &&& found(
                output->Ok_0->Object_0,
                rule.destination.namespace(),
                0,
                rule.destination->Direct_id,
            ) == Some(Json::Null)
        }),
{
    lemma_single_rule(path, RuleModel::Transform(rule), source);
    lemma_missing_is_written_as_null(rule, walked(source, path, 0)->0, Seq::empty());
}

} // verus!
