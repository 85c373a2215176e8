//! Every operation keeps the tree well-formed.

use crate::binary64::{lemma_one, lemma_zero, Binary64, ONE};
use crate::model::{
    after_cancel, after_child, after_complete, after_progress, after_status, has_parent, parents,
    root_tree, well_formed, NodeModel,
};
use crate::progress::Progress;
use vstd::prelude::*;

verus! {

/// A single task is a well-formed tree.
pub proof fn lemma_root_well_formed<S>(status: S)
    ensures
        well_formed(root_tree(status)),
{
    lemma_zero();
}

/// Adding a task keeps the tree well-formed.
pub proof fn lemma_child_well_formed<S>(
    tree: Seq<NodeModel<S>>,
    parent: int,
    weight: Binary64,
    status: S,
)
    requires
        well_formed(tree),
        0 <= parent < tree.len(),
    ensures
        well_formed(after_child(tree, parent, weight, status)),
{
    let after = after_child(tree, parent, weight, status);
    lemma_zero();
    assert forall|i: int| 0 < i < after.len() implies has_parent(after, i) by {
        if i < tree.len() {
            assert(has_parent(tree, i));
            let p = tree[i].parent->0;
            let k = choose|k: int|
                0 <= k < tree[p].children.len() && #[trigger] tree[p].children[k].0 == i;
            assert(after[p].children[k] == tree[p].children[k]);
        } else {
            let k = tree[parent].children.len() as int;
            assert(after[parent].children[k].0 == i);
        }
    }
    assert forall|i: int, k: int|
        #![trigger after[i].children[k]]
        0 <= i < after.len() && 0 <= k < after[i].children.len() implies i < after[i].children[k].0
        < after.len() && after[after[i].children[k].0].parent == Some(i) by {
        if i < tree.len() && k < tree[i].children.len() {
            assert(after[i].children[k] == tree[i].children[k]);
        }
    }
    assert forall|i: int, j: int, k: int|
        #![trigger after[i].children[j], after[i].children[k]]
        0 <= i < after.len() && 0 <= j < k
            < after[i].children.len() implies after[i].children[j].0 < after[i].children[k].0 by {
        if i < tree.len() {
            assert(after[i].children[j] == tree[i].children[j]);
            if k < tree[i].children.len() {
                assert(after[i].children[k] == tree[i].children[k]);
            }
        }
    }
}

/// A change that leaves the shape of a tree alone keeps it well-formed, if what each task has
/// reported is valid and what is below a cancelled task stays cancelled.
proof fn lemma_same_shape_well_formed<S>(before: Seq<NodeModel<S>>, after: Seq<NodeModel<S>>)
    requires
        well_formed(before),
        before.len() == after.len(),
        forall|i: int|
            #![trigger after[i]]
            0 <= i < before.len() ==> {
                &&& after[i].parent == before[i].parent
                &&& after[i].children == before[i].children
                &&& after[i].progress.in_unit_range()
                &&& after[i].completed ==> after[i].progress == Progress::Determinate(
                    Binary64 { bits: ONE },
                )
            },
        forall|i: int|
            #![trigger after[i]]
            0 < i < before.len() && after[before[i].parent->0].cancelled ==> after[i].cancelled,
    ensures
        well_formed(after),
{
    assert forall|i: int| 0 < i < after.len() implies has_parent(after, i) by {
        assert(has_parent(before, i));
        let p = before[i].parent->0;
        let k = choose|k: int|
            0 <= k < before[p].children.len() && #[trigger] before[p].children[k].0 == i;
        assert(after[p].children[k].0 == i);
    }
    assert forall|i: int, k: int|
        #![trigger after[i].children[k]]
        0 <= i < after.len() && 0 <= k < after[i].children.len() implies i < after[i].children[k].0
        < after.len() && after[after[i].children[k].0].parent == Some(i) by {
        assert(after[i].children[k] == before[i].children[k]);
    }
    assert forall|i: int, j: int, k: int|
        #![trigger after[i].children[j], after[i].children[k]]
        0 <= i < after.len() && 0 <= j < k
            < after[i].children.len() implies after[i].children[j].0 < after[i].children[k].0 by {
        assert(after[i].children[j] == before[i].children[j]);
        assert(after[i].children[k] == before[i].children[k]);
    }
}

/// A change of what a node itself has reported keeps the tree well-formed.
proof fn lemma_report_well_formed<S>(
    tree: Seq<NodeModel<S>>,
    node: int,
    progress: Progress,
    status: S,
    completed: bool,
)
    requires
        well_formed(tree),
        0 <= node < tree.len(),
        progress.in_unit_range(),
        completed ==> progress == Progress::Determinate(Binary64 { bits: ONE }),
    ensures
        well_formed(
            tree.update(node, NodeModel { progress, status, completed, ..tree[node] }),
        ),
{
    let after = tree.update(node, NodeModel { progress, status, completed, ..tree[node] });
    assert forall|i: int|
        #![trigger after[i]]
        0 < i < tree.len() && after[tree[i].parent->0].cancelled implies after[i].cancelled by {
        assert(has_parent(tree, i));
    }
    lemma_same_shape_well_formed(tree, after);
}

/// Reporting a progress keeps the tree well-formed.
pub proof fn lemma_progress_well_formed<S>(tree: Seq<NodeModel<S>>, node: int, progress: Progress)
    requires
        well_formed(tree),
        0 <= node < tree.len(),
    ensures
        well_formed(after_progress(tree, node, progress)),
{
    progress.lemma_clamped();
    lemma_report_well_formed(tree, node, progress.clamped(), tree[node].status, false);
}

/// Reporting a status message keeps the tree well-formed.
pub proof fn lemma_status_well_formed<S>(tree: Seq<NodeModel<S>>, node: int, status: S)
    requires
        well_formed(tree),
        0 <= node < tree.len(),
    ensures
        well_formed(after_status(tree, node, status)),
{
    lemma_report_well_formed(tree, node, tree[node].progress, status, tree[node].completed);
}

/// Completing a task keeps the tree well-formed.
pub proof fn lemma_complete_well_formed<S>(tree: Seq<NodeModel<S>>, node: int)
    requires
        well_formed(tree),
        0 <= node < tree.len(),
    ensures
        well_formed(after_complete(tree, node)),
{
    lemma_one();
    lemma_report_well_formed(
        tree,
        node,
        Progress::Determinate(Binary64 { bits: ONE }),
        tree[node].status,
        true,
    );
}

/// Cancelling a task keeps the tree well-formed.
pub proof fn lemma_cancel_well_formed<S>(tree: Seq<NodeModel<S>>, node: int)
    requires
        well_formed(tree),
        0 <= node < tree.len(),
    ensures
        well_formed(after_cancel(tree, node)),
        parents(after_cancel(tree, node)) == parents(tree),
{
    let after = after_cancel(tree, node);
    assert forall|i: int|
        #![trigger after[i]]
        0 < i < tree.len() && after[tree[i].parent->0].cancelled implies after[i].cancelled by {
        assert(has_parent(tree, i));
        assert(parents(tree)[i] == tree[i].parent);
    }
    lemma_same_shape_well_formed(tree, after);
    assert(parents(after) =~= parents(tree));
}

} // verus!
