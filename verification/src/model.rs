//! The mathematical model of a tree of tasks.
//!
//! A tree is a sequence of nodes in the order of their creation, so every node comes after its
//! parent and the first one is the root.

use crate::binary64::{Binary64, ONE, SIGN};
use crate::cancellation::descends;
use crate::progress::{Progress, ProgressUpdate};
use vstd::prelude::*;

verus! {

/// A task as the model sees it.
#[verifier::ext_equal]
pub struct NodeModel<S> {
    pub parent: Option<int>,
    /// The positions of the children in the order of their creation, each with its weight.
    pub children: Seq<(int, Binary64)>,
    /// What the task itself last reported.
    pub progress: Progress,
    pub status: S,
    pub completed: bool,
    pub cancelled: bool,
}

/// What holds of every tree.
pub open spec fn well_formed<S>(tree: Seq<NodeModel<S>>) -> bool {
    &&& tree.len() > 0
    &&& tree[0].parent is None
    &&& forall|i: int| 0 < i < tree.len() ==> has_parent(tree, i)
    &&& forall|i: int, k: int|
        #![trigger tree[i].children[k]]
        0 <= i < tree.len() && 0 <= k < tree[i].children.len() ==> i < tree[i].children[k].0
            < tree.len() && tree[tree[i].children[k].0].parent == Some(i)
    &&& forall|i: int, j: int, k: int|
        #![trigger tree[i].children[j], tree[i].children[k]]
        0 <= i < tree.len() && 0 <= j < k < tree[i].children.len() ==> tree[i].children[j].0
            < tree[i].children[k].0
    &&& forall|i: int|
        #![trigger tree[i]]
        0 <= i < tree.len() ==> {
            &&& tree[i].progress.in_unit_range()
            &&& tree[i].completed ==> tree[i].progress == Progress::Determinate(
                Binary64 { bits: ONE },
            )
        }
}

/// The node has an earlier node as its parent, is listed there, and is cancelled with it.
pub open spec fn has_parent<S>(tree: Seq<NodeModel<S>>, node: int) -> bool {
    tree[node].parent matches Some(parent) && {
        &&& 0 <= parent < node
        &&& exists|k: int|
            0 <= k < tree[parent].children.len() && #[trigger] tree[parent].children[k].0 == node
        &&& tree[parent].cancelled ==> tree[node].cancelled
    }
}

/// The parent of each node.
pub open spec fn parents<S>(tree: Seq<NodeModel<S>>) -> Seq<Option<int>> {
    Seq::new(tree.len(), |i: int| tree[i].parent)
}

/// The progress that a node reports.
///
/// A node that cannot measure its own progress reports that. Otherwise one that is completed or
/// has no children reports its own progress, and any other one what its children add up to.
pub open spec fn progress_at<S>(tree: Seq<NodeModel<S>>, node: int) -> Progress
    decreases tree.len() - node, tree[node].children.len() + 1,
{
    let own = tree[node];
    if own.progress is Indeterminate || own.completed || own.children.len() == 0 {
        own.progress
    } else {
        weighted_total(tree, node, own.children.len())
    }
}

/// What the first `count` children of a node add up to: the sum, from the first child to the last
/// one, of each child's progress times its weight; indeterminate if one of them is.
pub open spec fn weighted_total<S>(tree: Seq<NodeModel<S>>, node: int, count: nat) -> Progress
    decreases tree.len() - node, count,
{
    if count == 0 {
        // The sum of nothing is negative zero, which every sum absorbs.
        Progress::Determinate(Binary64 { bits: SIGN })
    } else {
        let (child, weight) = tree[node].children[count - 1];
        if node < child < tree.len() {
            match (weighted_total(tree, node, (count - 1) as nat), progress_at(tree, child)) {
                (Progress::Determinate(total), Progress::Determinate(number)) => {
                    Progress::Determinate(total.sum_of(number.product_of(weight)))
                },
                _ => Progress::Indeterminate,
            }
        } else {
            Progress::Indeterminate
        }
    }
}

/// One indeterminate child makes the whole sum indeterminate.
pub proof fn lemma_total_stays_indeterminate<S>(
    tree: Seq<NodeModel<S>>,
    node: int,
    some: nat,
    more: nat,
)
    requires
        weighted_total(tree, node, some) is Indeterminate,
        some <= more,
    ensures
        weighted_total(tree, node, more) is Indeterminate,
    decreases more,
{
    if some < more {
        lemma_total_stays_indeterminate(tree, node, some, (more - 1) as nat);
    }
}

/// The first child from position `from` on that is not completed.
pub open spec fn active_child_from<S>(tree: Seq<NodeModel<S>>, node: int, from: nat) -> Option<int>
    decreases tree[node].children.len() - from,
{
    if from >= tree[node].children.len() {
        None
    } else {
        let child = tree[node].children[from as int].0;
        if !tree[child].completed {
            Some(child)
        } else {
            active_child_from(tree, node, from + 1)
        }
    }
}

/// The first child that is not completed.
pub open spec fn active_child<S>(tree: Seq<NodeModel<S>>, node: int) -> Option<int> {
    active_child_from(tree, node, 0)
}

/// The nodes from `node` down to the deepest active one, each below the one before.
pub open spec fn active_path<S>(tree: Seq<NodeModel<S>>, node: int) -> Seq<int>
    decreases tree.len() - node,
{
    match active_child(tree, node) {
        Some(child) => if node < child < tree.len() {
            seq![node] + active_path(tree, child)
        } else {
            seq![node]
        },
        None => seq![node],
    }
}

/// Which tasks are active follows from what is completed alone.
pub proof fn lemma_same_active_path<S>(
    before: Seq<NodeModel<S>>,
    after: Seq<NodeModel<S>>,
    node: int,
)
    requires
        well_formed(before),
        0 <= node < before.len(),
        before.len() == after.len(),
        forall|i: int|
            #![trigger after[i]]
            0 <= i < before.len() ==> after[i].children == before[i].children
                && after[i].completed == before[i].completed,
    ensures
        active_path(after, node) == active_path(before, node),
        active_path(before, node)[0] == node,
    decreases before.len() - node,
{
    lemma_same_active_child(before, after, node, 0);
    match active_child(before, node) {
        Some(child) => if node < child < before.len() {
            lemma_same_active_path(before, after, child);
        },
        None => {},
    }
}

proof fn lemma_same_active_child<S>(
    before: Seq<NodeModel<S>>,
    after: Seq<NodeModel<S>>,
    node: int,
    from: nat,
)
    requires
        well_formed(before),
        0 <= node < before.len(),
        before.len() == after.len(),
        forall|i: int|
            #![trigger after[i]]
            0 <= i < before.len() ==> after[i].children == before[i].children
                && after[i].completed == before[i].completed,
    ensures
        active_child_from(after, node, from) == active_child_from(before, node, from),
    decreases before[node].children.len() - from,
{
    if from < before[node].children.len() {
        let child = before[node].children[from as int].0;
        assert(after[child].completed == before[child].completed);
        lemma_same_active_child(before, after, node, from + 1);
    }
}

/// The nodes from `node` up to the root.
pub open spec fn lineage<S>(tree: Seq<NodeModel<S>>, node: int) -> Seq<int>
    decreases node,
{
    match tree[node].parent {
        Some(parent) => if 0 <= parent < node {
            seq![node] + lineage(tree, parent)
        } else {
            seq![node]
        },
        None => seq![node],
    }
}

/// `statuses` are clones of the status messages from `node` down to the deepest active node.
pub open spec fn are_statuses<S: Clone>(
    tree: Seq<NodeModel<S>>,
    node: int,
    statuses: Seq<S>,
) -> bool {
    let path = active_path(tree, node);
    &&& statuses.len() == path.len()
    &&& forall|k: int|
        #![trigger statuses[k]]
        0 <= k < path.len() ==> cloned(tree[path[k]].status, statuses[k])
}

/// `update` tells what `node` reports.
pub open spec fn reports<S: Clone>(
    tree: Seq<NodeModel<S>>,
    node: int,
    is_cancelled: bool,
    update: ProgressUpdate<S>,
) -> bool {
    &&& update.progress == progress_at(tree, node)
    &&& are_statuses(tree, node, update.statuses@)
    &&& update.is_cancelled == is_cancelled
}

/// An update on its way to the subscribers of a node.
pub struct Notice<S> {
    pub node: usize,
    pub update: ProgressUpdate<S>,
}

/// `notices` tell what `node` and all nodes above it report, from `node` up to the root. Only the
/// first of them can speak of a cancellation.
pub open spec fn announces<S: Clone>(
    tree: Seq<NodeModel<S>>,
    node: int,
    is_cancelled: bool,
    notices: Seq<Notice<S>>,
) -> bool {
    let line = lineage(tree, node);
    &&& notices.len() == line.len()
    &&& forall|k: int|
        #![trigger notices[k]]
        0 <= k < line.len() ==> {
            &&& notices[k].node == line[k]
            &&& reports(tree, line[k], is_cancelled && k == 0, notices[k].update)
        }
}

/// The tree of a single new task.
pub open spec fn root_tree<S>(status: S) -> Seq<NodeModel<S>> {
    seq![
        NodeModel {
            parent: None,
            children: Seq::empty(),
            progress: Progress::Determinate(Binary64 { bits: 0 }),
            status,
            completed: false,
            cancelled: false,
        },
    ]
}

/// The tree after a child has been added below `parent`. The child takes the last position, and
/// is cancelled from the start if its parent is.
pub open spec fn after_child<S>(
    tree: Seq<NodeModel<S>>,
    parent: int,
    weight: Binary64,
    status: S,
) -> Seq<NodeModel<S>> {
    tree.update(
        parent,
        NodeModel {
            children: tree[parent].children.push((tree.len() as int, weight)),
            ..tree[parent]
        },
    ).push(
        NodeModel {
            parent: Some(parent),
            children: Seq::empty(),
            progress: Progress::Determinate(Binary64 { bits: 0 }),
            status,
            completed: false,
            cancelled: tree[parent].cancelled,
        },
    )
}

/// The node is neither completed nor cancelled: it takes updates.
pub open spec fn accepts_updates<S>(tree: Seq<NodeModel<S>>, node: int) -> bool {
    !tree[node].completed && !tree[node].cancelled
}

/// The tree after a node has reported a progress.
pub open spec fn after_progress<S>(
    tree: Seq<NodeModel<S>>,
    node: int,
    progress: Progress,
) -> Seq<NodeModel<S>> {
    if accepts_updates(tree, node) {
        tree.update(node, NodeModel { progress: progress.clamped(), ..tree[node] })
    } else {
        tree
    }
}

/// The tree after a node has reported a status message.
pub open spec fn after_status<S>(tree: Seq<NodeModel<S>>, node: int, status: S) -> Seq<
    NodeModel<S>,
> {
    if accepts_updates(tree, node) {
        tree.update(node, NodeModel { status, ..tree[node] })
    } else {
        tree
    }
}

/// The tree after a node has reported a progress and a status message.
pub open spec fn after_update<S>(
    tree: Seq<NodeModel<S>>,
    node: int,
    progress: Progress,
    status: S,
) -> Seq<NodeModel<S>> {
    after_status(after_progress(tree, node, progress), node, status)
}

/// The tree after a node has been marked as complete.
pub open spec fn after_complete<S>(tree: Seq<NodeModel<S>>, node: int) -> Seq<NodeModel<S>> {
    if accepts_updates(tree, node) {
        tree.update(
            node,
            NodeModel {
                completed: true,
                progress: Progress::Determinate(Binary64 { bits: ONE }),
                ..tree[node]
            },
        )
    } else {
        tree
    }
}

/// The tree after a node and all nodes below it have been cancelled.
pub open spec fn after_cancel<S>(tree: Seq<NodeModel<S>>, node: int) -> Seq<NodeModel<S>> {
    Seq::new(
        tree.len(),
        |i: int|
            NodeModel {
                cancelled: tree[i].cancelled || descends(parents(tree), i, node),
                ..tree[i]
            },
    )
}

} // verus!
