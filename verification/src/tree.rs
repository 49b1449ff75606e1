//! The rule tree: the rules of a transformer, keyed by the path of the input
//! that each of them reads, in one flat vector.

use crate::namespace::{path_view, Namespace, Segment};
use crate::rules::{rules_view, NodeRule, RuleModel};
use vstd::prelude::*;

verus! {

/// A node of the rule tree: one step of a path, with the rules that read the
/// value at the end of that path and the place of the node's children.
pub enum Node {
    Object { id: String, children: Option<(usize, usize)>, rules: Option<Vec<NodeRule>> },
    Array {
        index: usize,
        id: String,
        children: Option<(usize, usize)>,
        rules: Option<Vec<NodeRule>>,
    },
}

/// Mathematical model of a [`Node`].
pub struct NodeModel {
    pub step: Segment,
    pub children: Option<(usize, usize)>,
    pub rules: Seq<RuleModel>,
}

impl View for Node {
    type V = NodeModel;

    open spec fn view(&self) -> NodeModel {
        match self {
            Node::Object { id, children, rules } => NodeModel {
                step: Segment::Object { id: id@ },
                children: *children,
                rules: match rules {
                    Some(list) => rules_view(list@),
                    None => Seq::empty(),
                },
            },
            Node::Array { index, id, children, rules } => NodeModel {
                step: Segment::Array { id: id@, index: *index },
                children: *children,
                rules: match rules {
                    Some(list) => rules_view(list@),
                    None => Seq::empty(),
                },
            },
        }
    }
}

impl NodeModel {
    /// The step that leads from the node's parent to the node.
    pub open spec fn step(self) -> Segment {
        self.step
    }

    /// First and last index of the node's children, if it has any.
    pub open spec fn children(self) -> Option<(usize, usize)> {
        self.children
    }

    /// The node's rules, in the order in which they were added.
    pub open spec fn rules(self) -> Seq<RuleModel> {
        self.rules
    }

    /// Whether `child` is one of the node's children.
    pub open spec fn has_child(self, child: int) -> bool {
        match self.children {
            Some((start, end)) => start <= child <= end,
            None => false,
        }
    }

    /// The index after the node's last child, where its next child goes; for
    /// a node without children, the end of a tree of `len` nodes.
    pub open spec fn slot(self, len: int) -> int {
        match self.children {
            Some((_, end)) => end + 1,
            None => len,
        }
    }

    /// The same node with other children.
    pub open spec fn with_children(self, children: Option<(usize, usize)>) -> NodeModel {
        NodeModel { children, ..self }
    }

    /// The node as it is after a node has been inserted at `index`: children
    /// at or after `index` have moved up by one.
    pub open spec fn shifted(self, index: int) -> NodeModel {
        match self.children {
            Some((start, end)) => if start >= index && end < usize::MAX {
                self.with_children(Some(((start + 1) as usize, (end + 1) as usize)))
            } else {
                self
            },
            None => self,
        }
    }

    /// The node with one more child, at `index`, after its other children.
    pub open spec fn adopting(self, index: int) -> NodeModel {
        match self.children {
            Some((start, end)) => self.with_children(Some((start, index as usize))),
            None => self.with_children(Some((index as usize, index as usize))),
        }
    }

    /// The node with one more rule, after its other rules.
    pub open spec fn with_rule(self, rule: RuleModel) -> NodeModel {
        NodeModel { rules: self.rules.push(rule), ..self }
    }

    /// A node for `step`, without children and without rules.
    pub open spec fn leaf(step: Segment) -> NodeModel {
        NodeModel { step, children: None, rules: Seq::empty() }
    }
}

/// The nodes of a rule tree.
pub type Nodes = Seq<NodeModel>;

/// The models of a list of nodes.
pub open spec fn nodes_view(nodes: Seq<Node>) -> Nodes {
    Seq::new(nodes.len(), |i: int| nodes[i]@)
}

impl Node {
    /// A node for the step `step`, without children and without rules.
    pub fn leaf(step: &Namespace) -> (node: Node)
        ensures
            node@ == NodeModel::leaf(step@),
    {
        match step {
            Namespace::Object { id } => Node::Object {
                id: id.clone(),
                children: None,
                rules: None,
            },
            Namespace::Array { id, index } => Node::Array {
                index: *index,
                id: id.clone(),
                children: None,
                rules: None,
            },
        }
    }

    /// Moves the node's children up by one if they start at or after `index`.
    fn shift(&mut self, index: usize)
        requires
            match old(self)@.children {
                Some((start, end)) => start <= end < usize::MAX,
                None => true,
            },
        ensures
            final(self)@ == old(self)@.shifted(index as int),
    {
        match self {
            Node::Object { children, .. } => {
                if let Some((start, end)) = children {
                    if *start >= index {
                        *start += 1;
                        *end += 1;
                    }
                }
            },
            Node::Array { children, .. } => {
                if let Some((start, end)) = children {
                    if *start >= index {
                        *start += 1;
                        *end += 1;
                    }
                }
            },
        }
    }
}

impl Node {
    /// Gives the node one more child, at `index`, after its other children.
    fn adopt(&mut self, index: usize)
        ensures
            final(self)@ == old(self)@.adopting(index as int),
    {
        match self {
            Node::Object { children, .. } => {
                match children {
                    Some((_, end)) => {
                        *end = index;
                    },
                    None => {
                        *children = Some((index, index));
                    },
                }
            },
            Node::Array { children, .. } => {
                match children {
                    Some((_, end)) => {
                        *end = index;
                    },
                    None => {
                        *children = Some((index, index));
                    },
                }
            },
        }
    }
}

/// The rule tree, as a flat vector of nodes. Node 0 is the root and stands
/// for the whole input; the children of a node stand side by side.
pub struct Arena {
    pub tree: Vec<Node>,
}

/// The children of nodes `i` and `j`, where both have any, do not overlap.
pub open spec fn apart(nodes: Nodes, i: int, j: int) -> bool {
    match (nodes[i].children(), nodes[j].children()) {
        (Some((first, last)), Some((start, end))) => last < start || end < first,
        _ => true,
    }
}

/// The children of node `i` come after it and lie within the tree.
pub open spec fn range_within(nodes: Nodes, i: int) -> bool {
    match nodes[i].children() {
        Some((start, end)) => i < start <= end < nodes.len(),
        None => true,
    }
}

/// Node `i` has the child `c`.
pub open spec fn is_child(nodes: Nodes, i: int, c: int) -> bool {
    0 <= i < nodes.len() && nodes[i].has_child(c)
}

/// Node `c` is the child of some node.
pub open spec fn has_parent(nodes: Nodes, c: int) -> bool {
    exists|i: int| #[trigger] is_child(nodes, i, c)
}

/// Nodes `a` and `b` stand for different steps.
pub open spec fn differ(nodes: Nodes, a: int, b: int) -> bool {
    nodes[a].step() != nodes[b].step()
}

/// No two children of node `i` stand for the same step.
pub open spec fn children_differ(nodes: Nodes, i: int) -> bool {
    forall|a: int, b: int|
        nodes[i].has_child(a) && nodes[i].has_child(b) && a != b ==> #[trigger] differ(
            nodes,
            a,
            b,
        )
}

/// What holds of the nodes of every rule tree:
/// - node 0 is there, a step into an object with the empty name: the root;
/// - the children of a node come after it, and lie within the tree;
/// - the children of two nodes do not overlap;
/// - every node but the root is the child of some node;
/// - no two children of a node stand for the same step.
pub open spec fn well_formed(nodes: Nodes) -> bool {
    &&& nodes.len() >= 1
    &&& nodes[0].step() == (Segment::Object { id: Seq::empty() })
    &&& forall|i: int| 0 <= i < nodes.len() ==> #[trigger] range_within(nodes, i)
    &&& forall|i: int, j: int|
        0 <= i < nodes.len() && 0 <= j < nodes.len() && i != j ==> #[trigger] apart(nodes, i, j)
    &&& forall|c: int| 1 <= c < nodes.len() ==> #[trigger] has_parent(nodes, c)
    &&& forall|i: int| 0 <= i < nodes.len() ==> #[trigger] children_differ(nodes, i)
}

/// Node `i` of the tree as it is after a node has been inserted at `index`
/// as the last child of `parent`.
pub open spec fn adjusted(nodes: Nodes, parent: int, index: int, i: int) -> NodeModel {
    if i == parent {
        nodes[i].shifted(index).adopting(index)
    } else {
        nodes[i].shifted(index)
    }
}

/// The tree after `node` has been inserted at `index` as the last child of
/// `parent`: the nodes from `index` on move up by one, and with them the
/// children of every node that has them there.
pub open spec fn after_insert(nodes: Nodes, parent: int, index: int, node: NodeModel) -> Nodes {
    Seq::new(
        nodes.len() + 1,
        |i: int|
            if i < index {
                adjusted(nodes, parent, index, i)
            } else if i == index {
                node
            } else {
                adjusted(nodes, parent, index, i - 1)
            },
    )
}

/// Whether a node may be inserted at `index` as a child of `parent`.
pub open spec fn insertable(nodes: Nodes, parent: int, index: int, node: NodeModel) -> bool {
    &&& well_formed(nodes)
    &&& nodes.len() < usize::MAX
    &&& 0 <= parent < nodes.len()
    &&& index == nodes[parent].slot(nodes.len() as int)
    &&& node.children() is None
    &&& forall|c: int| nodes[parent].has_child(c) ==> (#[trigger] nodes[c]).step() != node.step()
}

/// The new place of node `i` after an insertion at `index`.
pub open spec fn moved(index: int, i: int) -> int {
    if i >= index {
        i + 1
    } else {
        i
    }
}

/// The place that the node at `i` had before an insertion at `index`.
pub open spec fn unmoved(index: int, i: int) -> int {
    if i > index {
        i - 1
    } else {
        i
    }
}

/// The children of old node `i` after an insertion at `index` below `parent`.
pub open spec fn moved_children(nodes: Nodes, parent: int, index: int, i: int) -> Option<
    (usize, usize),
> {
    match nodes[i].children() {
        Some((start, end)) => if i == parent {
            Some((start, index as usize))
        } else {
            Some((moved(index, start as int) as usize, moved(index, end as int) as usize))
        },
        None => if i == parent {
            Some((index as usize, index as usize))
        } else {
            None
        },
    }
}

/// After an insertion old node `i` is at its new place, with the step and
/// the rules it had and with its children at their new places; the parent
/// has the new node as its last child.
proof fn lemma_moved_node(nodes: Nodes, parent: int, index: int, node: NodeModel, i: int)
    requires
        insertable(nodes, parent, index, node),
        0 <= i < nodes.len(),
    ensures
        parent < index <= nodes.len(),
        after_insert(nodes, parent, index, node)[moved(index, i)].step() == nodes[i].step(),
        after_insert(nodes, parent, index, node)[moved(index, i)].rules() == nodes[i].rules(),
        after_insert(nodes, parent, index, node)[moved(index, i)].children() == moved_children(
            nodes,
            parent,
            index,
            i,
        ),
        match nodes[i].children() {
            Some((start, end)) => i < start <= end < nodes.len() && (i != parent ==> end < index
                || index <= start),
            None => true,
        },
{
    assert(range_within(nodes, parent));
    assert(range_within(nodes, i));
    if i != parent {
        assert(apart(nodes, i, parent));
    }
}

/// After an insertion the children of every node come after it and lie
/// within the tree.
proof fn lemma_insert_ranges(nodes: Nodes, parent: int, index: int, node: NodeModel, i: int)
    requires
        insertable(nodes, parent, index, node),
        0 <= i <= nodes.len(),
    ensures
        range_within(after_insert(nodes, parent, index, node), i),
{
    assert(range_within(nodes, parent));
    if i != index {
        lemma_moved_node(nodes, parent, index, node, unmoved(index, i));
    }
}

/// After an insertion the children of two nodes do not overlap.
proof fn lemma_insert_apart(
    nodes: Nodes,
    parent: int,
    index: int,
    node: NodeModel,
    i: int,
    j: int,
)
    requires
        insertable(nodes, parent, index, node),
        0 <= i <= nodes.len(),
        0 <= j <= nodes.len(),
        i != j,
    ensures
        apart(after_insert(nodes, parent, index, node), i, j),
{
    assert(range_within(nodes, parent));
    if i != index && j != index {
        let oi = unmoved(index, i);
        let oj = unmoved(index, j);
        lemma_moved_node(nodes, parent, index, node, oi);
        lemma_moved_node(nodes, parent, index, node, oj);
        assert(apart(nodes, oi, oj));
    }
}

/// After an insertion every node but the root is the child of some node.
proof fn lemma_insert_parents(nodes: Nodes, parent: int, index: int, node: NodeModel, c: int)
    requires
        insertable(nodes, parent, index, node),
        1 <= c <= nodes.len(),
    ensures
        has_parent(after_insert(nodes, parent, index, node), c),
{
    let after = after_insert(nodes, parent, index, node);
    assert(range_within(nodes, parent));
    if c == index {
        lemma_moved_node(nodes, parent, index, node, parent);
        assert(is_child(after, parent, c));
    } else {
        let oc = unmoved(index, c);
        assert(has_parent(nodes, oc));
        let op = choose|i: int| #[trigger] is_child(nodes, i, oc);
        lemma_moved_node(nodes, parent, index, node, op);
        assert(is_child(after, moved(index, op), c));
    }
}

/// After an insertion no two children of a node stand for the same step.
proof fn lemma_insert_siblings(nodes: Nodes, parent: int, index: int, node: NodeModel, i: int)
    requires
        insertable(nodes, parent, index, node),
        0 <= i <= nodes.len(),
    ensures
        children_differ(after_insert(nodes, parent, index, node), i),
{
    let after = after_insert(nodes, parent, index, node);
    assert(range_within(nodes, parent));
    if i != index {
        let o = unmoved(index, i);
        lemma_moved_node(nodes, parent, index, node, o);
        assert(children_differ(nodes, o));
        assert forall|a: int, b: int|
            after[i].has_child(a) && after[i].has_child(b) && a != b implies #[trigger] differ(
            after,
            a,
            b,
        ) by {
            let oa = unmoved(index, a);
            let ob = unmoved(index, b);
            if a != index {
                lemma_moved_node(nodes, parent, index, node, oa);
            }
            if b != index {
                lemma_moved_node(nodes, parent, index, node, ob);
            }
            if a != index && b != index {
                assert(differ(nodes, oa, ob));
            }
        }
    }
}

/// An insertion keeps the tree well formed.
pub proof fn lemma_after_insert_well_formed(
    nodes: Nodes,
    parent: int,
    index: int,
    node: NodeModel,
)
    requires
        insertable(nodes, parent, index, node),
    ensures
        well_formed(after_insert(nodes, parent, index, node)),
{
    let after = after_insert(nodes, parent, index, node);
    lemma_moved_node(nodes, parent, index, node, 0);
    assert forall|i: int| 0 <= i < after.len() implies #[trigger] range_within(after, i) by {
        lemma_insert_ranges(nodes, parent, index, node, i);
    }
    assert forall|i: int, j: int|
        0 <= i < after.len() && 0 <= j < after.len() && i != j implies #[trigger] apart(
        after,
        i,
        j,
    ) by {
        lemma_insert_apart(nodes, parent, index, node, i, j);
    }
    assert forall|c: int| 1 <= c < after.len() implies #[trigger] has_parent(after, c) by {
        lemma_insert_parents(nodes, parent, index, node, c);
    }
    assert forall|i: int| 0 <= i < after.len() implies #[trigger] children_differ(after, i) by {
        lemma_insert_siblings(nodes, parent, index, node, i);
    }
}

/// The first node from `from` to `end` that stands for `step`.
pub open spec fn matching_child(nodes: Nodes, step: Segment, from: int, end: int) -> Option<int>
    decreases end + 1 - from,
{
    if from < 0 || from > end || from >= nodes.len() {
        None
    } else if nodes[from].step() == step {
        Some(from)
    } else {
        matching_child(nodes, step, from + 1, end)
    }
}

/// The child of node `i` that stands for `step`.
pub open spec fn descend(nodes: Nodes, i: int, step: Segment) -> Option<int> {
    match nodes[i].children() {
        Some((start, end)) => matching_child(nodes, step, start as int, end as int),
        None => None,
    }
}

/// The node that `path` leads to from the root.
pub open spec fn locate(nodes: Nodes, path: Seq<Segment>) -> Option<int>
    decreases path.len(),
{
    if path.len() == 0 {
        Some(0)
    } else {
        match locate(nodes, path.drop_last()) {
            Some(parent) => descend(nodes, parent, path.last()),
            None => None,
        }
    }
}

/// The rules that read the value at the end of `path`.
pub open spec fn rules_at(nodes: Nodes, path: Seq<Segment>) -> Seq<RuleModel> {
    match locate(nodes, path) {
        Some(n) => nodes[n].rules(),
        None => Seq::empty(),
    }
}

/// Whether `path` begins with all of `start`.
pub open spec fn is_prefix(start: Seq<Segment>, path: Seq<Segment>) -> bool {
    start.len() <= path.len() && path.take(start.len() as int) == start
}

/// How a tree stands to an earlier one to which nodes without rules have
/// been added along `done`: every path has the rules it had, and the paths
/// that lead to a node are those that did and the prefixes of `done`.
pub open spec fn grown_from(before: Nodes, now: Nodes, done: Seq<Segment>) -> bool {
    &&& forall|q: Seq<Segment>| #[trigger] rules_at(now, q) == rules_at(before, q)
    &&& forall|q: Seq<Segment>|
        (#[trigger] locate(now, q)) is Some <==> (locate(before, q) is Some || is_prefix(q, done))
}

/// The tree after the nodes that `path` needs from its step `k` on have been
/// made below node `n`, each as the last child of its parent, and the node
/// at the end of the path.
pub open spec fn with_path(nodes: Nodes, path: Seq<Segment>, k: int, n: int) -> (Nodes, int)
    decreases path.len() - k,
{
    if k < 0 || k >= path.len() {
        (nodes, n)
    } else {
        match descend(nodes, n, path[k]) {
            Some(c) => with_path(nodes, path, k + 1, c),
            None => {
                let index = nodes[n].slot(nodes.len() as int);
                with_path(
                    after_insert(nodes, n, index, NodeModel::leaf(path[k])),
                    path,
                    k + 1,
                    index,
                )
            },
        }
    }
}

/// The tree after `rule` has been added at the end of `path`.
pub open spec fn with_rule(nodes: Nodes, path: Seq<Segment>, rule: RuleModel) -> Nodes {
    let (grown, n) = with_path(nodes, path, 0, 0);
    if 0 <= n < grown.len() {
        grown.update(n, grown[n].with_rule(rule))
    } else {
        grown
    }
}

/// How a tree stands to the one that a rule was added to at the end of
/// `path`: the path leads to a node, with the rule behind the rules that the
/// path had; every other path has the rules it had; and the paths that lead
/// to a node are those that did and the prefixes of `path`.
pub open spec fn extended(
    before: Nodes,
    after: Nodes,
    path: Seq<Segment>,
    rule: RuleModel,
) -> bool {
    &&& rules_at(after, path) == rules_at(before, path).push(rule)
    &&& forall|q: Seq<Segment>| q != path ==> #[trigger] rules_at(after, q) == rules_at(before, q)
    &&& forall|q: Seq<Segment>|
        (#[trigger] locate(after, q)) is Some <==> (locate(before, q) is Some || is_prefix(
            q,
            path,
        ))
    &&& locate(before, path) is Some ==> after.len() == before.len()
    &&& after.len() <= before.len() + path.len()
}

/// `matching_child` finds the first node in the range that stands for the step.
proof fn lemma_matching_child(nodes: Nodes, step: Segment, from: int, end: int)
    requires
        0 <= from,
        end < nodes.len(),
    ensures
        match matching_child(nodes, step, from, end) {
            Some(c) => from <= c <= end && nodes[c].step() == step && forall|j: int|
                from <= j < c ==> (#[trigger] nodes[j]).step() != step,
            None => forall|j: int| from <= j <= end ==> (#[trigger] nodes[j]).step() != step,
        },
    decreases end + 1 - from,
{
    if from <= end && nodes[from].step() != step {
        lemma_matching_child(nodes, step, from + 1, end);
    }
}

/// A node in the range that stands for the step, with none before it that
/// does, is what `matching_child` finds.
proof fn lemma_matching_child_is(
    nodes: Nodes,
    step: Segment,
    from: int,
    end: int,
    c: int,
)
    requires
        0 <= from <= c <= end < nodes.len(),
        nodes[c].step() == step,
        forall|j: int| from <= j < c ==> (#[trigger] nodes[j]).step() != step,
    ensures
        matching_child(nodes, step, from, end) == Some(c),
    decreases c - from,
{
    if from < c {
        lemma_matching_child_is(nodes, step, from + 1, end, c);
    }
}

/// Where no node in the range stands for the step, `matching_child` finds none.
proof fn lemma_matching_child_none(nodes: Nodes, step: Segment, from: int, end: int)
    requires
        0 <= from,
        end < nodes.len(),
        forall|j: int| from <= j <= end ==> (#[trigger] nodes[j]).step() != step,
    ensures
        matching_child(nodes, step, from, end) is None,
    decreases end + 1 - from,
{
    if from <= end {
        lemma_matching_child_none(nodes, step, from + 1, end);
    }
}

/// A path leads to a node of the tree.
pub proof fn lemma_locate_within(nodes: Nodes, path: Seq<Segment>)
    requires
        well_formed(nodes),
    ensures
        match locate(nodes, path) {
            Some(n) => 0 <= n < nodes.len() && (path.len() > 0 ==> n > 0 && locate(
                nodes,
                path.drop_last(),
            ) is Some && is_child(nodes, locate(nodes, path.drop_last())->0, n) && nodes[n].step()
                == path.last()),
            None => true,
        },
    decreases path.len(),
{
    if path.len() > 0 {
        lemma_locate_within(nodes, path.drop_last());
        match locate(nodes, path.drop_last()) {
            Some(parent) => {
                assert(range_within(nodes, parent));
                match nodes[parent].children() {
                    Some((start, end)) => {
                        lemma_matching_child(nodes, path.last(), start as int, end as int);
                    },
                    None => {},
                }
            },
            None => {},
        }
    }
}

/// No two paths lead to the same node.
pub proof fn lemma_locate_injective(nodes: Nodes, p: Seq<Segment>, q: Seq<Segment>)
    requires
        well_formed(nodes),
        locate(nodes, p) is Some,
        locate(nodes, p) == locate(nodes, q),
    ensures
        p == q,
    decreases p.len(),
{
    lemma_locate_within(nodes, p);
    lemma_locate_within(nodes, q);
    if p.len() == 0 || q.len() == 0 {
    } else {
        let a = locate(nodes, p.drop_last())->0;
        let b = locate(nodes, q.drop_last())->0;
        lemma_locate_within(nodes, p.drop_last());
        lemma_locate_within(nodes, q.drop_last());
        if a != b {
            assert(apart(nodes, a, b));
        }
        lemma_locate_injective(nodes, p.drop_last(), q.drop_last());
        assert(p =~= p.drop_last().push(p.last()));
    }
}

/// Every start of a path that leads to a node leads to a node.
proof fn lemma_locate_prefix(nodes: Nodes, start: Seq<Segment>, path: Seq<Segment>)
    requires
        locate(nodes, path) is Some,
        is_prefix(start, path),
    ensures
        locate(nodes, start) is Some,
    decreases path.len(),
{
    if start.len() == path.len() {
        assert(path.take(start.len() as int) =~= path);
    } else {
        assert(path.drop_last().take(start.len() as int) =~= path.take(start.len() as int));
        lemma_locate_prefix(nodes, start, path.drop_last());
    }
}

/// Where a step leads from old node `m` after an insertion: where it led
/// before, and to the new node if it is the new node's step below its parent.
proof fn lemma_descend_after_insert(
    nodes: Nodes,
    parent: int,
    index: int,
    node: NodeModel,
    m: int,
    step: Segment,
)
    requires
        insertable(nodes, parent, index, node),
        0 <= m < nodes.len(),
    ensures
        descend(after_insert(nodes, parent, index, node), moved(index, m), step) == (match descend(
            nodes,
            m,
            step,
        ) {
            Some(c) => Some(moved(index, c)),
            None => if m == parent && step == node.step() {
                Some(index)
            } else {
                None
            },
        }),
{
    let after = after_insert(nodes, parent, index, node);
    lemma_moved_node(nodes, parent, index, node, m);
    lemma_moved_node(nodes, parent, index, node, parent);
    match nodes[m].children() {
        Some((start, end)) => {
            lemma_matching_child(nodes, step, start as int, end as int);
            let (new_start, new_end) = after[moved(index, m)].children()->0;
            match matching_child(nodes, step, start as int, end as int) {
                Some(c) => {
                    lemma_matching_child_is(
                        after,
                        step,
                        new_start as int,
                        new_end as int,
                        moved(index, c),
                    );
                },
                None => {
                    if m == parent && step == node.step() {
                        lemma_matching_child_is(
                            after,
                            step,
                            new_start as int,
                            new_end as int,
                            index,
                        );
                    } else {
                        lemma_matching_child_none(after, step, new_start as int, new_end as int);
                    }
                },
            }
        },
        None => {
            if m == parent {
                if step == node.step() {
                    lemma_matching_child_is(after, step, index, index, index);
                } else {
                    lemma_matching_child_none(after, step, index, index);
                }
            }
        },
    }
}

/// Where a path leads after an insertion below the node at the end of
/// `above`: to the new place of the node it led to before, and to the new
/// node if it is `above` with the new node's step.
proof fn lemma_locate_after_insert(
    nodes: Nodes,
    parent: int,
    index: int,
    node: NodeModel,
    above: Seq<Segment>,
    q: Seq<Segment>,
)
    requires
        insertable(nodes, parent, index, node),
        locate(nodes, above) == Some(parent),
    ensures
        locate(after_insert(nodes, parent, index, node), q) == (match locate(nodes, q) {
            Some(n) => Some(moved(index, n)),
            None => if q == above.push(node.step()) {
                Some(index)
            } else {
                None
            },
        }),
    decreases q.len(),
{
    lemma_moved_node(nodes, parent, index, node, 0);
    if q.len() > 0 {
        let q0 = q.drop_last();
        let s = q.last();
        assert(q =~= q0.push(s));
        lemma_locate_after_insert(nodes, parent, index, node, above, q0);
        lemma_locate_within(nodes, q0);
        match locate(nodes, q0) {
            Some(m) => {
                lemma_descend_after_insert(nodes, parent, index, node, m, s);
                if descend(nodes, m, s) is None {
                    if m == parent {
                        lemma_locate_injective(nodes, q0, above);
                    }
                    if q == above.push(node.step()) {
                        assert(above.push(node.step()).drop_last() =~= above);
                    }
                }
            },
            None => {
                if q == above.push(node.step()) {
                    assert(above.push(node.step()).drop_last() =~= above);
                }
            },
        }
    }
}

/// An insertion of a node without rules gives no path other rules, and
/// makes one more path lead to a node.
proof fn lemma_grown_after_insert(
    before: Nodes,
    nodes: Nodes,
    parent: int,
    index: int,
    node: NodeModel,
    above: Seq<Segment>,
)
    requires
        insertable(nodes, parent, index, node),
        locate(nodes, above) == Some(parent),
        node.rules() == Seq::<RuleModel>::empty(),
        grown_from(before, nodes, above),
    ensures
        grown_from(before, after_insert(nodes, parent, index, node), above.push(node.step())),
        locate(after_insert(nodes, parent, index, node), above.push(node.step())) == Some(index),
{
    let after = after_insert(nodes, parent, index, node);
    let longer = above.push(node.step());
    assert(longer.drop_last() =~= above);
    assert(descend(nodes, parent, node.step()) is None) by {
        assert(range_within(nodes, parent));
        match nodes[parent].children() {
            Some((start, end)) => {
                lemma_matching_child_none(nodes, node.step(), start as int, end as int);
            },
            None => {},
        }
    }
    lemma_locate_after_insert(nodes, parent, index, node, above, longer);
    assert forall|q: Seq<Segment>| #[trigger] rules_at(after, q) == rules_at(before, q) by {
        lemma_locate_after_insert(nodes, parent, index, node, above, q);
        lemma_locate_within(nodes, q);
        assert(rules_at(nodes, q) == rules_at(before, q));
        lemma_moved_node(nodes, parent, index, node, 0);
        match locate(nodes, q) {
            Some(n) => {
                lemma_moved_node(nodes, parent, index, node, n);
            },
            None => {},
        }
    }
    assert forall|q: Seq<Segment>|
        (#[trigger] locate(after, q)) is Some <==> (locate(before, q) is Some || is_prefix(
            q,
            longer,
        )) by {
        lemma_locate_after_insert(nodes, parent, index, node, above, q);
        if is_prefix(q, above) {
            assert(longer.take(q.len() as int) =~= above.take(q.len() as int));
        }
        if is_prefix(q, longer) && q != longer {
            if q.len() == longer.len() {
                assert(longer.take(q.len() as int) =~= longer);
            }
            assert(longer.take(q.len() as int) =~= above.take(q.len() as int));
        }
        if q == longer {
            assert(longer.take(longer.len() as int) =~= longer);
        }
    }
}

impl Node {
    /// Appends a rule to the node's rules.
    fn push_rule(&mut self, rule: NodeRule)
        ensures
            final(self)@ == old(self)@.with_rule(rule@),
    {
        let ghost before = self@;
        match self {
            Node::Object { rules, .. } => {
                match rules {
                    Some(list) => {
                        list.push(rule);
                    },
                    None => {
                        let mut list: Vec<NodeRule> = Vec::new();
                        list.push(rule);
                        *rules = Some(list);
                    },
                }
            },
            Node::Array { rules, .. } => {
                match rules {
                    Some(list) => {
                        list.push(rule);
                    },
                    None => {
                        let mut list: Vec<NodeRule> = Vec::new();
                        list.push(rule);
                        *rules = Some(list);
                    },
                }
            },
        }
        assert(self@.rules =~= before.rules.push(rule@));
    }

    /// Whether the node stands for the step `step`.
    fn matches(&self, step: &Namespace) -> (r: bool)
        ensures
            r == (self@.step == step@),
    {
        match self {
            Node::Object { id, .. } => match step {
                Namespace::Object { id: other } => *id == *other,
                _ => false,
            },
            Node::Array { id, index, .. } => match step {
                Namespace::Array { id: other, index: at } => *id == *other && *index == *at,
                _ => false,
            },
        }
    }

    /// First and last index of the node's children, if it has any.
    pub fn child_range(&self) -> (r: Option<(usize, usize)>)
        ensures
            r == self@.children,
    {
        match self {
            Node::Object { children, .. } => *children,
            Node::Array { children, .. } => *children,
        }
    }
}

impl View for Arena {
    type V = Nodes;

    open spec fn view(&self) -> Nodes {
        nodes_view(self.tree@)
    }
}

/// The root of every rule tree: it stands for the whole input.
pub open spec fn root() -> NodeModel {
    NodeModel::leaf(Segment::Object { id: Seq::empty() })
}

impl Default for Arena {
    /// The tree of the root alone, without rules.
    fn default() -> (r: Self)
        ensures
            r.wf(),
            r@ == seq![root()],
    {
        let mut tree: Vec<Node> = Vec::new();
        tree.push(Node::Object { id: String::new(), children: None, rules: None });
        let r = Arena { tree };
        r
    }
}

impl Arena {
    /// Whether the tree is well formed.
    pub open spec fn wf(&self) -> bool {
        well_formed(self@)
    }

    /// Finds the child of node `n` that stands for `step`.
    fn find_child(&self, n: usize, step: &Namespace) -> (r: Option<usize>)
        requires
            self.wf(),
            n < self.tree.len(),
        ensures
            match r {
                Some(c) => descend(self@, n as int, step@) == Some(c as int),
                None => descend(self@, n as int, step@) is None,
            },
    {
        proof {
            assert(range_within(self@, n as int));
        }
        match self.tree[n].child_range() {
            Some((start, end)) => {
                let mut c: usize = start;
                while c <= end
                    invariant
                        start <= c <= end + 1,
                        end < self.tree.len(),
                        n < self.tree.len(),
                        self@[n as int].children() == Some((start, end)),
                        forall|j: int| start <= j < c ==> (#[trigger] self@[j]).step() != step@,
                    decreases end + 1 - c,
                {
                    if self.tree[c].matches(step) {
                        proof {
                            lemma_matching_child_is(
                                self@,
                                step@,
                                start as int,
                                end as int,
                                c as int,
                            );
                        }
                        return Some(c);
                    }
                    c += 1;
                }
                proof {
                    lemma_matching_child_none(self@, step@, start as int, end as int);
                }
                None
            },
            None => None,
        }
    }

    /// Inserts `node` at `index` as the last child of `parent`, moving the
    /// nodes from `index` on up by one.
    fn reindex(&mut self, parent: usize, index: usize, node: Node)
        requires
            insertable(old(self)@, parent as int, index as int, node@),
        ensures
            final(self)@ == after_insert(old(self)@, parent as int, index as int, node@),
    {
        let ghost before = self@;
        proof {
            assert(range_within(before, parent as int));
        }
        let mut i: usize = 0;
        while i < self.tree.len()
            invariant
                0 <= i <= self.tree.len(),
                self.tree.len() == before.len(),
                well_formed(before),
                before.len() < usize::MAX,
                forall|j: int| 0 <= j < i ==> self.tree[j]@ == before[j].shifted(index as int),
                forall|j: int| i <= j < before.len() ==> self.tree[j]@ == before[j],
            decreases self.tree.len() - i,
        {
            assert(range_within(before, i as int));
            self.tree[i].shift(index);
            i += 1;
        }
        self.tree.insert(index, node);
        self.tree[parent].adopt(index);
    }

    /// Adds a rule that reads the value at the end of `namespace`.
    ///
    /// The nodes that the path needs and that are not there yet are made,
    /// each as the last child of its parent; the rule goes behind the rules
    /// that the path already has. The tree with the new nodes must not be
    /// larger than a machine word can count.
    pub fn add(&mut self, namespace: &[Namespace], rule: NodeRule)
        requires
            old(self).wf(),
            with_rule(old(self)@, path_view(namespace@), rule@).len() <= usize::MAX,
        ensures
            final(self)@ == with_rule(old(self)@, path_view(namespace@), rule@),
            final(self).wf(),
            extended(old(self)@, final(self)@, path_view(namespace@), rule@),
    {
        let ghost before = self@;
        let ghost path = path_view(namespace@);
        let mut n: usize = 0;
        let mut k: usize = 0;
        proof {
            lemma_with_rule_len(before, path, rule@);
        }
        while k < namespace.len()
            invariant
                0 <= k <= namespace.len(),
                path == path_view(namespace@),
                well_formed(self@),
                n < self.tree.len(),
                with_path(before, path, 0, 0).0.len() <= usize::MAX,
                with_path(before, path, 0, 0) == with_path(self@, path, k as int, n as int),
            decreases namespace.len() - k,
        {
            let step = &namespace[k];
            let ghost nodes = self@;
            proof {
                assert(range_within(nodes, n as int));
            }
            match self.find_child(n, step) {
                Some(c) => {
                    proof {
                        lemma_descend_within(nodes, n as int, step@);
                    }
                    n = c;
                },
                None => {
                    let index = match self.tree[n].child_range() {
                        Some((_, end)) => end + 1,
                        None => self.tree.len(),
                    };
                    let node = Node::leaf(step);
                    proof {
                        lemma_descend_within(nodes, n as int, step@);
                        lemma_with_path_grows(
                            after_insert(nodes, n as int, index as int, node@),
                            path,
                            k + 1,
                            index as int,
                        );
                        lemma_after_insert_well_formed(nodes, n as int, index as int, node@);
                    }
                    self.reindex(n, index, node);
                    n = index;
                },
            }
            k += 1;
        }
        let ghost grown = self@;
        let ghost model = rule@;
        self.tree[n].push_rule(rule);
        proof {
            assert(self@ =~= grown.update(n as int, grown[n as int].with_rule(model)));
            lemma_with_rule(before, path, model);
        }
    }
}

/// The children of each of the first `n` nodes come after it and lie within
/// the tree.
pub open spec fn all_within(nodes: Nodes, n: int) -> bool {
    forall|i: int| 0 <= i < n ==> #[trigger] range_within(nodes, i)
}

/// The children of each of the first `n` nodes overlap with those of no
/// other node.
pub open spec fn all_apart(nodes: Nodes, n: int) -> bool {
    forall|i: int, j: int|
        0 <= i < n && 0 <= j < nodes.len() && i != j ==> #[trigger] apart(nodes, i, j)
}

/// Each of the first `n` nodes but the root is the child of some node.
pub open spec fn all_parents(nodes: Nodes, n: int) -> bool {
    forall|c: int| 1 <= c < n ==> #[trigger] has_parent(nodes, c)
}

/// No two children of one of the first `n` nodes stand for the same step.
pub open spec fn all_differ(nodes: Nodes, n: int) -> bool {
    forall|i: int| 0 <= i < n ==> #[trigger] children_differ(nodes, i)
}

impl Node {
    /// Whether the two nodes stand for the same step.
    fn same_step(&self, other: &Node) -> (r: bool)
        ensures
            r == (self@.step == other@.step),
    {
        match self {
            Node::Object { id, .. } => match other {
                Node::Object { id: other_id, .. } => *id == *other_id,
                _ => false,
            },
            Node::Array { id, index, .. } => match other {
                Node::Array { id: other_id, index: other_index, .. } => *id == *other_id
                    && *index == *other_index,
                _ => false,
            },
        }
    }
}

impl Arena {
    /// Whether node 0 is there and is the root.
    fn has_root(&self) -> (r: bool)
        ensures
            r == (self@.len() >= 1 && self@[0].step == root().step),
    {
        if self.tree.len() == 0 {
            return false;
        }
        match &self.tree[0] {
            Node::Object { id, .. } => {
                let r = id.as_str().is_empty();
                assert(r == (id@ =~= Seq::<char>::empty()));
                r
            },
            _ => false,
        }
    }

    /// Whether the children of every node come after it and lie within the
    /// tree.
    fn ranges_lie_within(&self) -> (r: bool)
        ensures
            r == all_within(self@, self@.len() as int),
    {
        let n = self.tree.len();
        let mut i: usize = 0;
        while i < n
            invariant
                0 <= i <= n,
                n == self@.len(),
                all_within(self@, i as int),
            decreases n - i,
        {
            match self.tree[i].child_range() {
                Some((start, end)) => {
                    if !(i < start && start <= end && end < n) {
                        assert(!range_within(self@, i as int));
                        return false;
                    }
                },
                None => {},
            }
            i += 1;
        }
        true
    }

    /// Whether the children of nodes `i` and `j` do not overlap.
    fn are_apart(&self, i: usize, j: usize) -> (r: bool)
        requires
            i < self@.len(),
            j < self@.len(),
        ensures
            r == apart(self@, i as int, j as int),
    {
        match self.tree[i].child_range() {
            Some((first, last)) => match self.tree[j].child_range() {
                Some((start, end)) => last < start || end < first,
                None => true,
            },
            None => true,
        }
    }

    /// Whether the children of no two nodes overlap.
    fn ranges_are_apart(&self) -> (r: bool)
        ensures
            r == all_apart(self@, self@.len() as int),
    {
        let n = self.tree.len();
        let mut i: usize = 0;
        while i < n
            invariant
                0 <= i <= n,
                n == self@.len(),
                all_apart(self@, i as int),
            decreases n - i,
        {
            let mut j: usize = 0;
            while j < n
                invariant
                    0 <= j <= n,
                    i < n,
                    n == self@.len(),
                    all_apart(self@, i as int),
                    forall|k: int| 0 <= k < j && k != i ==> #[trigger] apart(self@, i as int, k),
                decreases n - j,
            {
                if i != j && !self.are_apart(i, j) {
                    return false;
                }
                j += 1;
            }
            i += 1;
        }
        true
    }

    /// Whether node `c` is the child of some node.
    fn has_a_parent(&self, c: usize) -> (r: bool)
        ensures
            r == has_parent(self@, c as int),
    {
        let n = self.tree.len();
        let mut i: usize = 0;
        while i < n
            invariant
                0 <= i <= n,
                n == self@.len(),
                forall|k: int| 0 <= k < i ==> !#[trigger] is_child(self@, k, c as int),
            decreases n - i,
        {
            match self.tree[i].child_range() {
                Some((start, end)) => {
                    if start <= c && c <= end {
                        assert(is_child(self@, i as int, c as int));
                        return true;
                    }
                },
                None => {},
            }
            i += 1;
        }
        assert forall|k: int| !#[trigger] is_child(self@, k, c as int) by {}
        false
    }

    /// Whether every node but the root is the child of some node.
    fn nodes_have_parents(&self) -> (r: bool)
        ensures
            r == all_parents(self@, self@.len() as int),
    {
        let n = self.tree.len();
        let mut c: usize = 1;
        while c < n
            invariant
                1 <= c,
                n == self@.len(),
                all_parents(self@, c as int),
            decreases n - c,
        {
            if !self.has_a_parent(c) {
                return false;
            }
            c += 1;
        }
        true
    }

    /// Whether no two children of node `i` stand for the same step.
    fn children_have_own_steps(&self, i: usize) -> (r: bool)
        requires
            i < self@.len(),
            range_within(self@, i as int),
        ensures
            r == children_differ(self@, i as int),
    {
        let n = self.tree.len();
        match self.tree[i].child_range() {
            Some((start, end)) => {
                let mut a: usize = start;
                while a <= end
                    invariant
                        start <= a <= end + 1,
                        end < n,
                        end < self@.len(),
                        i < self@.len(),
                        self@[i as int].children == Some((start, end)),
                        forall|x: int, y: int|
                            start <= x < a && start <= y <= end && x != y ==> #[trigger] differ(
                                self@,
                                x,
                                y,
                            ),
                    decreases end + 1 - a,
                {
                    let mut b: usize = start;
                    while b <= end
                        invariant
                            start <= a <= end,
                            start <= b <= end + 1,
                            end < n,
                            end < self@.len(),
                            i < self@.len(),
                            self@[i as int].children == Some((start, end)),
                            forall|y: int|
                                start <= y < b && y != a ==> #[trigger] differ(self@, a as int, y),
                        decreases end + 1 - b,
                    {
                        if a != b && self.tree[a].same_step(&self.tree[b]) {
                            assert(!differ(self@, a as int, b as int));
                            assert(self@[i as int].has_child(a as int));
                            assert(self@[i as int].has_child(b as int));
                            return false;
                        }
                        b += 1;
                    }
                    a += 1;
                }
                true
            },
            None => true,
        }
    }

    /// Whether the children of every node stand for steps of their own.
    fn all_children_have_own_steps(&self) -> (r: bool)
        requires
            all_within(self@, self@.len() as int),
        ensures
            r == all_differ(self@, self@.len() as int),
    {
        let n = self.tree.len();
        let mut i: usize = 0;
        while i < n
            invariant
                0 <= i <= n,
                n == self@.len(),
                all_within(self@, n as int),
                all_differ(self@, i as int),
            decreases n - i,
        {
            assert(range_within(self@, i as int));
            if !self.children_have_own_steps(i) {
                return false;
            }
            i += 1;
        }
        true
    }

    /// Whether the tree is well formed. A tree that was made by `default`
    /// and `add` is; one that was put together from nodes may not be.
    pub fn is_well_formed(&self) -> (r: bool)
        ensures
            r == self.wf(),
    {
        self.has_root() && self.ranges_lie_within() && self.ranges_are_apart()
            && self.nodes_have_parents() && self.all_children_have_own_steps()
    }
}

/// A step leads from a node to one of its children, which stands for the
/// step; where it leads nowhere, no child of the node stands for it.
proof fn lemma_descend_within(nodes: Nodes, n: int, step: Segment)
    requires
        well_formed(nodes),
        0 <= n < nodes.len(),
    ensures
        match descend(nodes, n, step) {
            Some(c) => n < c < nodes.len() && nodes[n].has_child(c) && nodes[c].step() == step,
            None => forall|c: int| nodes[n].has_child(c) ==> (#[trigger] nodes[c]).step() != step,
        },
{
    assert(range_within(nodes, n));
    match nodes[n].children() {
        Some((start, end)) => {
            lemma_matching_child(nodes, step, start as int, end as int);
        },
        None => {},
    }
}

/// The nodes that a path needs are made so that the tree stays well
/// formed, the path leads to a node, and no path gets other rules.
proof fn lemma_with_path(
    before: Nodes,
    nodes: Nodes,
    path: Seq<Segment>,
    k: int,
    n: int,
)
    requires
        well_formed(before),
        well_formed(nodes),
        0 <= k <= path.len(),
        0 <= n < nodes.len(),
        nodes.len() <= before.len() + k,
        with_path(nodes, path, k, n).0.len() <= usize::MAX,
        locate(nodes, path.take(k)) == Some(n),
        grown_from(before, nodes, path.take(k)),
        locate(before, path.take(k)) is Some ==> nodes.len() == before.len(),
    ensures
        ({
            let (grown, m) = with_path(nodes, path, k, n);
            &&& well_formed(grown)
            &&& locate(grown, path) == Some(m)
            &&& grown_from(before, grown, path)
            &&& grown.len() <= before.len() + path.len()
            &&& locate(before, path) is Some ==> grown.len() == before.len()
        }),
    decreases path.len() - k,
{
    if k == path.len() {
        assert(path.take(k) =~= path);
    } else {
        let step = path[k];
        let above = path.take(k);
        let longer = path.take(k + 1);
        assert(longer =~= above.push(step));
        assert(longer.drop_last() =~= above);
        lemma_descend_within(nodes, n, step);
        match descend(nodes, n, step) {
            Some(c) => {
                assert forall|q: Seq<Segment>|
                    (#[trigger] locate(nodes, q)) is Some <==> (locate(before, q) is Some
                        || is_prefix(q, longer)) by {
                    if is_prefix(q, above) {
                        assert(longer.take(q.len() as int) =~= above.take(q.len() as int));
                    }
                    if is_prefix(q, longer) {
                        lemma_locate_prefix(nodes, q, longer);
                    }
                }
                if locate(before, longer) is Some {
                    lemma_locate_prefix(before, above, longer);
                }
                lemma_with_path(before, nodes, path, k + 1, c);
            },
            None => {
                let index = nodes[n].slot(nodes.len() as int);
                let node = NodeModel::leaf(step);
                lemma_with_path_grows(after_insert(nodes, n, index, node), path, k + 1, index);
                lemma_after_insert_well_formed(nodes, n, index, node);
                lemma_moved_node(nodes, n, index, node, 0);
                lemma_grown_after_insert(before, nodes, n, index, node, above);
                lemma_with_path(
                    before,
                    after_insert(nodes, n, index, node),
                    path,
                    k + 1,
                    index,
                );
            },
        }
    }
}

/// The nodes that a path needs make the tree no smaller.
proof fn lemma_with_path_grows(nodes: Nodes, path: Seq<Segment>, k: int, n: int)
    ensures
        with_path(nodes, path, k, n).0.len() >= nodes.len(),
    decreases path.len() - k,
{
    if 0 <= k < path.len() {
        match descend(nodes, n, path[k]) {
            Some(c) => {
                lemma_with_path_grows(nodes, path, k + 1, c);
            },
            None => {
                let index = nodes[n].slot(nodes.len() as int);
                lemma_with_path_grows(
                    after_insert(nodes, n, index, NodeModel::leaf(path[k])),
                    path,
                    k + 1,
                    index,
                );
            },
        }
    }
}

/// A path needs at most one node for each of its steps.
proof fn lemma_with_path_bound(nodes: Nodes, path: Seq<Segment>, k: int, n: int)
    requires
        0 <= k <= path.len(),
    ensures
        with_path(nodes, path, k, n).0.len() <= nodes.len() + path.len() - k,
    decreases path.len() - k,
{
    if k < path.len() {
        match descend(nodes, n, path[k]) {
            Some(c) => {
                lemma_with_path_bound(nodes, path, k + 1, c);
            },
            None => {
                let index = nodes[n].slot(nodes.len() as int);
                lemma_with_path_bound(
                    after_insert(nodes, n, index, NodeModel::leaf(path[k])),
                    path,
                    k + 1,
                    index,
                );
            },
        }
    }
}

/// A rule at the end of a path makes no node: the tree with the rule is as
/// large as the tree with the nodes of the path.
proof fn lemma_with_rule_len(nodes: Nodes, path: Seq<Segment>, rule: RuleModel)
    ensures
        with_rule(nodes, path, rule).len() == with_path(nodes, path, 0, 0).0.len(),
{
    let grown = with_path(nodes, path, 0, 0).0;
    let n = with_path(nodes, path, 0, 0).1;
    if 0 <= n < grown.len() {
        assert(with_rule(nodes, path, rule) == grown.update(n, grown[n].with_rule(rule)));
    } else {
        assert(with_rule(nodes, path, rule) == grown);
    }
}

/// A tree with one more rule has the nodes it had and at most one more for
/// each step of the rule's path.
pub proof fn lemma_with_rule_size(nodes: Nodes, path: Seq<Segment>, rule: RuleModel)
    ensures
        nodes.len() <= with_rule(nodes, path, rule).len() <= nodes.len() + path.len(),
{
    lemma_with_rule_len(nodes, path, rule);
    lemma_with_path_grows(nodes, path, 0, 0);
    lemma_with_path_bound(nodes, path, 0, 0);
}

/// A path that leads to a node needs no new node.
proof fn lemma_with_path_known(nodes: Nodes, path: Seq<Segment>, k: int, n: int)
    requires
        0 <= k <= path.len(),
        locate(nodes, path.take(k)) == Some(n),
        locate(nodes, path) is Some,
    ensures
        with_path(nodes, path, k, n) == (nodes, locate(nodes, path)->0),
    decreases path.len() - k,
{
    if k == path.len() {
        assert(path.take(k) =~= path);
    } else {
        let longer = path.take(k + 1);
        assert(longer.drop_last() =~= path.take(k));
        assert(is_prefix(longer, path)) by {
            assert(path.take(longer.len() as int) =~= longer);
        }
        lemma_locate_prefix(nodes, longer, path);
        lemma_with_path_known(nodes, path, k + 1, locate(nodes, longer)->0);
    }
}

/// Adding a rule keeps the tree well formed and changes it as `extended`
/// says, where the tree with the rule is not larger than a machine word
/// can count.
pub proof fn lemma_with_rule(nodes: Nodes, path: Seq<Segment>, rule: RuleModel)
    requires
        well_formed(nodes),
        with_rule(nodes, path, rule).len() <= usize::MAX,
    ensures
        well_formed(with_rule(nodes, path, rule)),
        extended(nodes, with_rule(nodes, path, rule), path, rule),
{
    lemma_with_rule_len(nodes, path, rule);
    lemma_with_path(nodes, nodes, path, 0, 0);
    let (grown, n) = with_path(nodes, path, 0, 0);
    let after = with_rule(nodes, path, rule);
    lemma_locate_within(grown, path);
    lemma_rules_pushed(grown, after, n, rule);
    assert forall|q: Seq<Segment>| q != path implies #[trigger] rules_at(after, q) == rules_at(
        nodes,
        q,
    ) by {
        assert(rules_at(grown, q) == rules_at(nodes, q));
        lemma_locate_within(grown, q);
        if locate(grown, q) == Some(n) {
            lemma_locate_injective(grown, path, q);
        }
    }
    assert(rules_at(grown, path) == rules_at(nodes, path));
}

/// No node is the child of two nodes, and a child comes after its parent:
/// the children of a node are its own.
pub proof fn lemma_children_are_own(nodes: Nodes, i: int, j: int, c: int)
    requires
        well_formed(nodes),
        is_child(nodes, i, c),
        is_child(nodes, j, c),
    ensures
        i == j,
        i < c < nodes.len(),
{
    assert(range_within(nodes, i));
    if i != j {
        assert(apart(nodes, i, j));
    }
}

/// Two rules added at the same path share one node: the second addition
/// makes no node, and the path then has both rules, the first before the
/// second, behind those it had.
pub proof fn lemma_same_path_shares_node(
    nodes: Nodes,
    path: Seq<Segment>,
    first: RuleModel,
    second: RuleModel,
)
    requires
        well_formed(nodes),
        with_rule(nodes, path, first).len() <= usize::MAX,
    ensures
        ({
            let once = with_rule(nodes, path, first);
            let twice = with_rule(once, path, second);
            &&& twice.len() == once.len()
            &&& locate(twice, path) is Some
            &&& rules_at(twice, path) == rules_at(nodes, path).push(first).push(second)
        }),
{
    let once = with_rule(nodes, path, first);
    lemma_with_rule(nodes, path, first);
    assert(is_prefix(path, path)) by {
        assert(path.take(path.len() as int) =~= path);
    }
    assert(path.take(0) =~= Seq::<Segment>::empty());
    lemma_with_path_known(once, path, 0, 0);
    lemma_with_rule_len(once, path, second);
    lemma_with_rule(once, path, second);
}

/// A change of one node's rules keeps the tree well formed and every path
/// where it led.
proof fn lemma_rules_pushed(
    before: Nodes,
    after: Nodes,
    n: int,
    rule: RuleModel,
)
    requires
        well_formed(before),
        0 <= n < before.len(),
        after.len() == before.len(),
        forall|i: int| 0 <= i < before.len() && i != n ==> after[i] == before[i],
        after[n].step() == before[n].step(),
        after[n].children() == before[n].children(),
    ensures
        well_formed(after),
        forall|q: Seq<Segment>| #[trigger] locate(after, q) == locate(before, q),
{
    assert forall|i: int| 0 <= i < after.len() implies #[trigger] range_within(after, i) by {
        assert(range_within(before, i));
    }
    assert forall|i: int, j: int|
        0 <= i < after.len() && 0 <= j < after.len() && i != j implies #[trigger] apart(
        after,
        i,
        j,
    ) by {
        assert(apart(before, i, j));
    }
    assert forall|c: int| 1 <= c < after.len() implies #[trigger] has_parent(after, c) by {
        assert(has_parent(before, c));
        let p = choose|i: int| #[trigger] is_child(before, i, c);
        assert(is_child(after, p, c));
    }
    assert forall|i: int| 0 <= i < after.len() implies #[trigger] children_differ(after, i) by {
        assert(children_differ(before, i));
        assert forall|a: int, b: int|
            after[i].has_child(a) && after[i].has_child(b) && a != b implies #[trigger] differ(
            after,
            a,
            b,
        ) by {
            assert(range_within(before, i));
            assert(differ(before, a, b));
        }
    }
    assert forall|q: Seq<Segment>| #[trigger] locate(after, q) == locate(before, q) by {
        lemma_same_steps_locate(before, after, q);
    }
}

/// Two trees whose nodes have the same steps and children lead every path
/// to the same node.
proof fn lemma_same_steps_locate(before: Nodes, after: Nodes, q: Seq<Segment>)
    requires
        after.len() == before.len(),
        forall|i: int|
            0 <= i < before.len() ==> (#[trigger] after[i]).step() == before[i].step()
                && after[i].children() == before[i].children(),
        well_formed(before),
    ensures
        locate(after, q) == locate(before, q),
    decreases q.len(),
{
    if q.len() > 0 {
        lemma_same_steps_locate(before, after, q.drop_last());
        lemma_locate_within(before, q.drop_last());
        match locate(before, q.drop_last()) {
            Some(m) => {
                match before[m].children() {
                    Some((start, end)) => {
                        lemma_same_steps_matching(
                            before,
                            after,
                            q.last(),
                            start as int,
                            end as int,
                        );
                    },
                    None => {},
                }
            },
            None => {},
        }
    }
}

/// Two lists of nodes with the same steps have the same matching child in
/// every range.
proof fn lemma_same_steps_matching(
    before: Nodes,
    after: Nodes,
    step: Segment,
    from: int,
    end: int,
)
    requires
        after.len() == before.len(),
        forall|i: int| 0 <= i < before.len() ==> (#[trigger] after[i]).step() == before[i].step(),
    ensures
        matching_child(after, step, from, end) == matching_child(before, step, from, end),
    decreases end + 1 - from,
{
    if 0 <= from <= end && from < before.len() {
        lemma_same_steps_matching(before, after, step, from + 1, end);
    }
}

} // verus!
