//! What each operation does, told by the fields of the tasks alone.
//!
//! The laws here speak of parents, children, weights, flags, numbers and messages, and of the
//! results of the operations. The spec functions that this module defines serve to state the laws;
//! no contract uses them.

use crate::binary64::Binary64;
use crate::cancellation::{descends, family_identities, token_identity};
use crate::model::{
    accepts_updates, active_child, active_child_from, active_path, after_cancel, after_child,
    after_complete, after_progress, after_status, after_update, announces, are_statuses,
    has_parent, lemma_total_stays_indeterminate, lineage, parents, progress_at, reports, root_tree,
    weighted_total, well_formed, NodeModel, Notice,
};
use crate::numbers::{law_clamped_by_bits, law_unit_range_by_bits};
use crate::progress::{Progress, ProgressError, ProgressUpdate, UpdateEvent, UPDATE_BUFFER};
use crate::token::{answers, ProgressToken};
use crate::tree::ProgressTree;
use tokio_util::sync::CancellationToken;
use vstd::prelude::*;

verus! {

/// Every parent comes before its children.
pub open spec fn parents_come_first<S>(tree: Seq<NodeModel<S>>) -> bool {
    forall|i: int|
        #![trigger tree[i].parent]
        0 <= i < tree.len() ==> (tree[i].parent matches Some(parent) ==> 0 <= parent < i)
}

/// Every child comes after the task that it is listed at.
pub open spec fn children_come_later<S>(tree: Seq<NodeModel<S>>) -> bool {
    forall|i: int, k: int|
        #![trigger tree[i].children[k]]
        0 <= i < tree.len() && 0 <= k < tree[i].children.len() ==> i < tree[i].children[k].0
            < tree.len()
}

/// The tasks of `line` are each the parent of the one before.
pub open spec fn leads_up<S>(tree: Seq<NodeModel<S>>, line: Seq<int>) -> bool {
    &&& line.len() > 0
    &&& forall|k: int| 0 <= k < line.len() ==> 0 <= #[trigger] line[k] < tree.len()
    &&& forall|k: int|
        #![trigger line[k]]
        0 <= k < line.len() - 1 ==> tree[line[k]].parent == Some(line[k + 1])
}

/// `child` is listed at `node` and is not completed, while all that are listed before it are.
pub open spec fn is_first_active<S>(tree: Seq<NodeModel<S>>, node: int, child: int) -> bool {
    exists|k: int|
        #![trigger tree[node].children[k]]
        {
            &&& 0 <= k < tree[node].children.len()
            &&& tree[node].children[k].0 == child
            &&& !tree[child].completed
            &&& forall|j: int|
                #![trigger tree[node].children[j]]
                0 <= j < k ==> tree[tree[node].children[j].0].completed
        }
}

/// Everything that is listed at `node` is completed.
pub open spec fn has_no_active<S>(tree: Seq<NodeModel<S>>, node: int) -> bool {
    forall|k: int|
        #![trigger tree[node].children[k]]
        0 <= k < tree[node].children.len() ==> tree[tree[node].children[k].0].completed
}

/// The tasks of `path` are each the first active one that is listed at the one before, down to one
/// that lists no active one.
pub open spec fn leads_down<S>(tree: Seq<NodeModel<S>>, path: Seq<int>) -> bool {
    &&& path.len() > 0
    &&& forall|k: int| 0 <= k < path.len() ==> 0 <= #[trigger] path[k] < tree.len()
    &&& forall|k: int|
        #![trigger path[k]]
        0 <= k < path.len() - 1 ==> is_first_active(tree, path[k], path[k + 1])
    &&& has_no_active(tree, path.last())
}

/// A tree begins with one task, which has no parent and no children, stands at zero, has the
/// message that was given, and is neither completed nor cancelled.
pub proof fn law_new_tree<S>(status: S)
    ensures
        root_tree(status).len() == 1,
        root_tree(status)[0].parent is None,
        root_tree(status)[0].children.len() == 0,
        root_tree(status)[0].progress == Progress::Determinate(Binary64 { bits: 0 }),
        root_tree(status)[0].status == status,
        !root_tree(status)[0].completed,
        !root_tree(status)[0].cancelled,
{
}

/// Creating a task below any other one appends exactly one entry to the children of that one: the
/// position of the new task, with the weight that was given. All that was listed before stays, with
/// its weight; nothing else of any task changes. The new task stands at zero, has the message that
/// was given, is not completed, and is cancelled exactly if its parent is.
pub proof fn law_child_is_listed_with_its_weight<S>(
    tree: Seq<NodeModel<S>>,
    parent: int,
    weight: Binary64,
    status: S,
)
    requires
        0 <= parent < tree.len(),
    ensures
        ({
            let after = after_child(tree, parent, weight, status);
            let new = tree.len() as int;
            let listed = tree[parent].children.len() as int;
            &&& after.len() == tree.len() + 1
            &&& after[parent].children.len() == listed + 1
            &&& after[parent].children[listed].0 == new
            &&& after[parent].children[listed].1 == weight
            &&& forall|k: int|
                #![trigger after[parent].children[k]]
                0 <= k < listed ==> after[parent].children[k] == tree[parent].children[k]
            &&& after[parent].parent == tree[parent].parent
            &&& after[parent].progress == tree[parent].progress
            &&& after[parent].status == tree[parent].status
            &&& after[parent].completed == tree[parent].completed
            &&& after[parent].cancelled == tree[parent].cancelled
            &&& forall|i: int|
                #![trigger after[i]]
                0 <= i < tree.len() && i != parent ==> after[i] == tree[i]
            &&& after[new].parent == Some(parent)
            &&& after[new].children.len() == 0
            &&& after[new].progress == Progress::Determinate(Binary64 { bits: 0 })
            &&& after[new].status == status
            &&& !after[new].completed
            &&& after[new].cancelled == tree[parent].cancelled
        }),
{
}

/// A task takes updates exactly if it is neither completed nor cancelled.
pub proof fn law_takes_updates<S>(tree: Seq<NodeModel<S>>, node: int)
    ensures
        accepts_updates(tree, node) <==> !tree[node].completed && !tree[node].cancelled,
{
}

/// Reporting a progress changes at most the progress of the task itself. A task that is neither
/// completed nor cancelled then has what was reported: an indeterminate progress, or the number,
/// raised to zero or lowered to one where it is out of range. Any other task keeps its progress.
pub proof fn law_report_of_progress<S>(tree: Seq<NodeModel<S>>, node: int, progress: Progress)
    requires
        0 <= node < tree.len(),
    ensures
        ({
            let after = after_progress(tree, node, progress);
            &&& after.len() == tree.len()
            &&& forall|i: int|
                #![trigger after[i]]
                0 <= i < tree.len() && i != node ==> after[i] == tree[i]
            &&& after[node].parent == tree[node].parent
            &&& after[node].children == tree[node].children
            &&& after[node].status == tree[node].status
            &&& after[node].completed == tree[node].completed
            &&& after[node].cancelled == tree[node].cancelled
            &&& tree[node].completed || tree[node].cancelled ==> after[node].progress
                == tree[node].progress
            &&& !tree[node].completed && !tree[node].cancelled ==> match progress {
                Progress::Indeterminate => after[node].progress is Indeterminate,
                Progress::Determinate(number) => after[node].progress == Progress::Determinate(
                    Binary64 {
                        bits: if number.bits <= 0x3ff0_0000_0000_0000 {
                            number.bits
                        } else if number.bits <= 0x7ff0_0000_0000_0000 {
                            0x3ff0_0000_0000_0000
                        } else {
                            0
                        },
                    },
                ),
            }
        }),
{
    match progress {
        Progress::Determinate(number) => {
            law_clamped_by_bits(number);
        },
        Progress::Indeterminate => {},
    }
}

/// Reporting a message changes at most the message of the task itself: a task that is neither
/// completed nor cancelled then has the message that was given, any other one keeps its own. The
/// progress, the flags and the children of every task stay as they were.
pub proof fn law_report_of_status<S>(tree: Seq<NodeModel<S>>, node: int, status: S)
    requires
        0 <= node < tree.len(),
    ensures
        ({
            let after = after_status(tree, node, status);
            &&& after.len() == tree.len()
            &&& forall|i: int|
                #![trigger after[i]]
                0 <= i < tree.len() && i != node ==> after[i] == tree[i]
            &&& after[node].parent == tree[node].parent
            &&& after[node].children == tree[node].children
            &&& after[node].progress == tree[node].progress
            &&& after[node].completed == tree[node].completed
            &&& after[node].cancelled == tree[node].cancelled
            &&& !tree[node].completed && !tree[node].cancelled ==> after[node].status == status
            &&& tree[node].completed || tree[node].cancelled ==> after[node].status
                == tree[node].status
        }),
{
}

/// Reporting a progress and a message together does what the two reports do one after the other,
/// in either order.
pub proof fn law_report_of_both<S>(
    tree: Seq<NodeModel<S>>,
    node: int,
    progress: Progress,
    status: S,
)
    requires
        0 <= node < tree.len(),
    ensures
        ({
            let after = after_update(tree, node, progress, status);
            &&& after.len() == tree.len()
            &&& forall|i: int|
                #![trigger after[i]]
                0 <= i < tree.len() && i != node ==> after[i] == tree[i]
            &&& after[node].parent == tree[node].parent
            &&& after[node].children == tree[node].children
            &&& after[node].completed == tree[node].completed
            &&& after[node].cancelled == tree[node].cancelled
            &&& after[node].progress == after_progress(tree, node, progress)[node].progress
            &&& after[node].status == after_status(tree, node, status)[node].status
        }),
        after_update(tree, node, progress, status) == after_progress(
            after_status(tree, node, status),
            node,
            progress,
        ),
{
    assert(after_update(tree, node, progress, status) =~= after_progress(
        after_status(tree, node, status),
        node,
        progress,
    ));
}

/// Completing a task that is neither completed nor cancelled, whatever it has reported, sets its
/// flag and brings its progress to one; completing any other one changes nothing. Its message, its
/// children and all other tasks stay as they were.
pub proof fn law_completing<S>(tree: Seq<NodeModel<S>>, node: int)
    requires
        0 <= node < tree.len(),
    ensures
        ({
            let after = after_complete(tree, node);
            &&& after.len() == tree.len()
            &&& forall|i: int|
                #![trigger after[i]]
                0 <= i < tree.len() && i != node ==> after[i] == tree[i]
            &&& after[node].parent == tree[node].parent
            &&& after[node].children == tree[node].children
            &&& after[node].status == tree[node].status
            &&& after[node].cancelled == tree[node].cancelled
            &&& !tree[node].completed && !tree[node].cancelled ==> after[node].completed
                && after[node].progress == Progress::Determinate(
                Binary64 { bits: 0x3ff0_0000_0000_0000 },
            )
            &&& tree[node].completed || tree[node].cancelled ==> after[node] == tree[node]
        }),
{
}

/// A task is cancelled after a cancellation exactly if it was before or its line of parents passes
/// the task that was cancelled. Nothing else of any task changes.
pub proof fn law_cancelling<S>(tree: Seq<NodeModel<S>>, node: int, i: int)
    requires
        parents_come_first(tree),
        0 <= node < tree.len(),
        0 <= i < tree.len(),
    ensures
        ({
            let after = after_cancel(tree, node);
            &&& after.len() == tree.len()
            &&& after[i].parent == tree[i].parent
            &&& after[i].children == tree[i].children
            &&& after[i].progress == tree[i].progress
            &&& after[i].status == tree[i].status
            &&& after[i].completed == tree[i].completed
            &&& after[i].cancelled <==> tree[i].cancelled || exists|line: Seq<int>|
                #[trigger] leads_up(tree, line) && line[0] == i && line.last() == node
        }),
{
    if descends(parents(tree), i, node) {
        let line = lemma_line_between(tree, i, node);
        assert(leads_up(tree, line));
    }
    if exists|line: Seq<int>|
        #[trigger] leads_up(tree, line) && line[0] == i && line.last() == node {
        let line = choose|line: Seq<int>|
            #[trigger] leads_up(tree, line) && line[0] == i && line.last() == node;
        lemma_line_descends(tree, line);
    }
}

/// Descending from a task is being connected to it by a line of parents.
pub proof fn law_descent_is_a_line_of_parents<S>(tree: Seq<NodeModel<S>>, node: int, ancestor: int)
    requires
        parents_come_first(tree),
        0 <= node < tree.len(),
        0 <= ancestor < tree.len(),
    ensures
        descends(parents(tree), node, ancestor) <==> exists|line: Seq<int>|
            #[trigger] leads_up(tree, line) && line[0] == node && line.last() == ancestor,
{
    if descends(parents(tree), node, ancestor) {
        let line = lemma_line_between(tree, node, ancestor);
        assert(leads_up(tree, line));
    }
    if exists|line: Seq<int>|
        #[trigger] leads_up(tree, line) && line[0] == node && line.last() == ancestor {
        let line = choose|line: Seq<int>|
            #[trigger] leads_up(tree, line) && line[0] == node && line.last() == ancestor;
        lemma_line_descends(tree, line);
    }
}

proof fn lemma_line_between<S>(tree: Seq<NodeModel<S>>, node: int, ancestor: int) -> (line: Seq<
    int,
>)
    requires
        parents_come_first(tree),
        0 <= node < tree.len(),
        descends(parents(tree), node, ancestor),
    ensures
        leads_up(tree, line),
        line[0] == node,
        line.last() == ancestor,
    decreases node,
{
    if node == ancestor {
        seq![node]
    } else {
        let parent = tree[node].parent->0;
        assert(parents(tree)[node] == tree[node].parent);
        let rest = lemma_line_between(tree, parent, ancestor);
        let line = seq![node] + rest;
        lemma_line_extends(tree, node, rest);
        assert(line.last() == rest.last());
        line
    }
}

proof fn lemma_line_extends<S>(tree: Seq<NodeModel<S>>, node: int, rest: Seq<int>)
    requires
        0 <= node < tree.len(),
        leads_up(tree, rest),
        tree[node].parent == Some(rest[0]),
    ensures
        leads_up(tree, seq![node] + rest),
{
    let line = seq![node] + rest;
    assert forall|k: int| 0 <= k < line.len() implies 0 <= #[trigger] line[k] < tree.len() by {
        if k > 0 {
            assert(line[k] == rest[k - 1]);
        }
    }
    assert forall|k: int|
        #![trigger line[k]]
        0 <= k < line.len() - 1 implies tree[line[k]].parent == Some(line[k + 1]) by {
        assert(line[k + 1] == rest[k]);
        if k > 0 {
            assert(line[k] == rest[k - 1]);
        }
    }
}

proof fn lemma_line_descends<S>(tree: Seq<NodeModel<S>>, line: Seq<int>)
    requires
        parents_come_first(tree),
        leads_up(tree, line),
    ensures
        descends(parents(tree), line[0], line.last()),
    decreases line.len(),
{
    let first = line[0];
    if line.len() > 1 {
        let rest = line.drop_first();
        assert forall|k: int|
            #![trigger rest[k]]
            0 <= k < rest.len() - 1 implies tree[rest[k]].parent == Some(rest[k + 1]) by {
            assert(rest[k] == line[k + 1]);
            assert(rest[k + 1] == line[k + 2]);
        }
        assert(leads_up(tree, rest));
        lemma_line_descends(tree, rest);
        assert(tree[first].parent == Some(line[1]));
        assert(rest[0] == line[1]);
        assert(parents(tree)[first] == tree[first].parent);
        assert(rest.last() == line.last());
    } else {
        assert(line.last() == first);
    }
}

/// Every task has a line of parents up to one that has none.
pub proof fn law_every_task_has_a_line<S>(tree: Seq<NodeModel<S>>, node: int)
    requires
        parents_come_first(tree),
        0 <= node < tree.len(),
    ensures
        leads_up(tree, lineage(tree, node)),
        lineage(tree, node)[0] == node,
        tree[lineage(tree, node).last()].parent is None,
    decreases node,
{
    match tree[node].parent {
        Some(parent) => {
            law_every_task_has_a_line(tree, parent);
            let rest = lineage(tree, parent);
            assert(lineage(tree, node) == seq![node] + rest);
            lemma_line_extends(tree, node, rest);
            assert((seq![node] + rest).last() == rest.last());
        },
        None => {
            assert(lineage(tree, node) == seq![node]);
        },
    }
}

proof fn lemma_one_line<S>(tree: Seq<NodeModel<S>>, line: Seq<int>)
    requires
        parents_come_first(tree),
        leads_up(tree, line),
        tree[line.last()].parent is None,
    ensures
        lineage(tree, line[0]) == line,
    decreases line.len(),
{
    let first = line[0];
    if line.len() > 1 {
        let rest = line.drop_first();
        assert forall|k: int|
            #![trigger rest[k]]
            0 <= k < rest.len() - 1 implies tree[rest[k]].parent == Some(rest[k + 1]) by {
            assert(rest[k] == line[k + 1]);
            assert(rest[k + 1] == line[k + 2]);
        }
        assert(leads_up(tree, rest));
        assert(rest.last() == line.last());
        lemma_one_line(tree, rest);
        assert(tree[first].parent == Some(line[1]));
        assert(line == seq![first] + rest);
    } else {
        assert(line.last() == first);
        assert(line == seq![first]);
    }
}

/// The notices of a change go to the task and to every task above it, one to each, however many
/// there are: `line` being the line of parents from the task up to one without a parent, there are
/// as many notices as tasks in it, and each is for the task at its place. It tells the progress and
/// the messages of that task, and speaks of a cancellation only to the first one.
pub proof fn law_notices_follow_the_whole_line<S: Clone>(
    tree: Seq<NodeModel<S>>,
    node: int,
    is_cancelled: bool,
    notices: Seq<Notice<S>>,
    line: Seq<int>,
)
    requires
        parents_come_first(tree),
        announces(tree, node, is_cancelled, notices),
        leads_up(tree, line),
        line[0] == node,
        tree[line.last()].parent is None,
    ensures
        notices.len() == line.len(),
        forall|k: int|
            #![trigger notices[k]]
            0 <= k < line.len() ==> {
                &&& notices[k].node == line[k]
                &&& notices[k].update.progress == progress_at(tree, line[k])
                &&& are_statuses(tree, line[k], notices[k].update.statuses@)
                &&& notices[k].update.is_cancelled <==> is_cancelled && k == 0
            },
{
    lemma_one_line(tree, line);
}

/// Every task that a changed task descends from, itself included, has exactly one notice.
pub proof fn law_one_notice_for_each_task_above<S: Clone>(
    tree: Seq<NodeModel<S>>,
    node: int,
    is_cancelled: bool,
    notices: Seq<Notice<S>>,
    above: int,
)
    requires
        parents_come_first(tree),
        0 <= node < tree.len(),
        0 <= above < tree.len(),
        announces(tree, node, is_cancelled, notices),
    ensures
        (exists|k: int| 0 <= k < notices.len() && (#[trigger] notices[k]).node == above) <==> (
        exists|line: Seq<int>| #[trigger]
            leads_up(tree, line) && line[0] == node && line.last() == above),
        forall|j: int, k: int|
            #![trigger notices[j], notices[k]]
            0 <= j < k < notices.len() ==> notices[j].node != notices[k].node,
{
    law_every_task_has_a_line(tree, node);
    let all = lineage(tree, node);
    assert forall|j: int, k: int|
        #![trigger notices[j], notices[k]]
        0 <= j < k < notices.len() implies notices[j].node != notices[k].node by {
        lemma_line_falls(tree, all, j, k);
    }
    if exists|k: int| 0 <= k < notices.len() && (#[trigger] notices[k]).node == above {
        let k = choose|k: int| 0 <= k < notices.len() && (#[trigger] notices[k]).node == above;
        let line = all.take(k + 1);
        assert forall|i: int|
            #![trigger line[i]]
            0 <= i < line.len() - 1 implies tree[line[i]].parent == Some(line[i + 1]) by {
            assert(line[i] == all[i]);
            assert(line[i + 1] == all[i + 1]);
        }
        assert(leads_up(tree, line) && line[0] == node && line.last() == above);
    }
    if exists|line: Seq<int>| #[trigger]
        leads_up(tree, line) && line[0] == node && line.last() == above {
        let line = choose|line: Seq<int>| #[trigger]
            leads_up(tree, line) && line[0] == node && line.last() == above;
        lemma_lines_agree(tree, line, all, line.len() - 1);
        assert(notices[line.len() - 1].node == above);
    }
}

proof fn lemma_line_falls<S>(tree: Seq<NodeModel<S>>, line: Seq<int>, j: int, k: int)
    requires
        parents_come_first(tree),
        leads_up(tree, line),
        0 <= j < k < line.len(),
    ensures
        line[k] < line[j],
    decreases k - j,
{
    assert(tree[line[k - 1]].parent == Some(line[k]));
    if j < k - 1 {
        lemma_line_falls(tree, line, j, k - 1);
    }
}

proof fn lemma_lines_agree<S>(tree: Seq<NodeModel<S>>, line: Seq<int>, all: Seq<int>, k: int)
    requires
        leads_up(tree, line),
        leads_up(tree, all),
        line[0] == all[0],
        tree[all.last()].parent is None,
        0 <= k < line.len(),
    ensures
        k < all.len(),
        line[k] == all[k],
    decreases k,
{
    if k > 0 {
        lemma_lines_agree(tree, line, all, k - 1);
        assert(tree[line[k - 1]].parent == Some(line[k]));
        assert(k < all.len());
        assert(tree[all[k - 1]].parent == Some(all[k - 1 + 1]));
    }
}

/// A request to a task that is neither completed nor cancelled is told to the task and to every
/// task above it; a request to one that is completed or cancelled is told to none.
pub proof fn law_open_tasks_are_heard<S: Clone>(
    before: Seq<NodeModel<S>>,
    after: Seq<NodeModel<S>>,
    node: int,
    is_cancelled: bool,
    notices: Seq<Notice<S>>,
    line: Seq<int>,
)
    requires
        parents_come_first(after),
        answers(accepts_updates(before, node), after, node, is_cancelled, notices),
        leads_up(after, line),
        line[0] == node,
        after[line.last()].parent is None,
    ensures
        before[node].completed || before[node].cancelled ==> notices.len() == 0,
        !before[node].completed && !before[node].cancelled ==> {
            &&& notices.len() == line.len()
            &&& forall|k: int|
                #![trigger notices[k]]
                0 <= k < line.len() ==> {
                    &&& notices[k].node == line[k]
                    &&& notices[k].update.progress == progress_at(after, line[k])
                    &&& are_statuses(after, line[k], notices[k].update.statuses@)
                    &&& notices[k].update.is_cancelled <==> is_cancelled && k == 0
                }
        },
{
    if accepts_updates(before, node) {
        law_notices_follow_the_whole_line(after, node, is_cancelled, notices, line);
    }
}

/// Cancelling a task that is not cancelled, whether or not it is completed, is told to the task and
/// to every task above it; cancelling a cancelled one is told to none.
pub proof fn law_cancellations_are_heard<S: Clone>(
    before: Seq<NodeModel<S>>,
    after: Seq<NodeModel<S>>,
    node: int,
    notices: Seq<Notice<S>>,
    line: Seq<int>,
)
    requires
        parents_come_first(after),
        answers(!before[node].cancelled, after, node, true, notices),
        leads_up(after, line),
        line[0] == node,
        after[line.last()].parent is None,
    ensures
        before[node].cancelled ==> notices.len() == 0,
        !before[node].cancelled ==> {
            &&& notices.len() == line.len()
            &&& forall|k: int|
                #![trigger notices[k]]
                0 <= k < line.len() ==> {
                    &&& notices[k].node == line[k]
                    &&& notices[k].update.progress == progress_at(after, line[k])
                    &&& are_statuses(after, line[k], notices[k].update.statuses@)
                    &&& notices[k].update.is_cancelled <==> k == 0
                }
        },
{
    if !before[node].cancelled {
        law_notices_follow_the_whole_line(after, node, true, notices, line);
    }
}

/// An update tells the progress and the messages of its task, and whether it is cancelled.
pub proof fn law_what_an_update_tells<S: Clone>(
    tree: Seq<NodeModel<S>>,
    node: int,
    is_cancelled: bool,
    update: ProgressUpdate<S>,
)
    ensures
        reports(tree, node, is_cancelled, update) <==> {
            &&& update.progress == progress_at(tree, node)
            &&& are_statuses(tree, node, update.statuses@)
            &&& update.is_cancelled == is_cancelled
        },
{
}

proof fn lemma_first_active<S>(
    tree: Seq<NodeModel<S>>,
    node: int,
    child: int,
    from: nat,
    k: int,
)
    requires
        from <= k < tree[node].children.len(),
        tree[node].children[k].0 == child,
        !tree[child].completed,
        forall|j: int|
            #![trigger tree[node].children[j]]
            from <= j < k ==> tree[tree[node].children[j].0].completed,
    ensures
        active_child_from(tree, node, from) == Some(child),
    decreases k - from,
{
    if from < k {
        assert(tree[tree[node].children[from as int].0].completed);
        lemma_first_active(tree, node, child, from + 1, k);
    }
}

proof fn lemma_none_active<S>(tree: Seq<NodeModel<S>>, node: int, from: nat)
    requires
        has_no_active(tree, node),
    ensures
        active_child_from(tree, node, from) is None,
    decreases tree[node].children.len() - from,
{
    if from < tree[node].children.len() {
        assert(tree[tree[node].children[from as int].0].completed);
        lemma_none_active(tree, node, from + 1);
    }
}

proof fn lemma_active_or_none<S>(tree: Seq<NodeModel<S>>, node: int, from: nat)
    requires
        forall|j: int|
            #![trigger tree[node].children[j]]
            0 <= j < from && j < tree[node].children.len()
                ==> tree[tree[node].children[j].0].completed,
    ensures
        match active_child_from(tree, node, from) {
            Some(child) => is_first_active(tree, node, child),
            None => has_no_active(tree, node),
        },
    decreases tree[node].children.len() - from,
{
    if from < tree[node].children.len() {
        let child = tree[node].children[from as int].0;
        if tree[child].completed {
            lemma_active_or_none(tree, node, from + 1);
        }
    }
}

/// Every task has a path of active tasks that leads down from it.
pub proof fn law_every_task_has_an_active_path<S>(tree: Seq<NodeModel<S>>, node: int)
    requires
        children_come_later(tree),
        0 <= node < tree.len(),
    ensures
        leads_down(tree, active_path(tree, node)),
        active_path(tree, node)[0] == node,
    decreases tree.len() - node,
{
    let path = active_path(tree, node);
    lemma_active_or_none(tree, node, 0);
    match active_child(tree, node) {
        Some(child) => {
            assert(node < child < tree.len());
            law_every_task_has_an_active_path(tree, child);
            let rest = active_path(tree, child);
            assert(path == seq![node] + rest);
            assert(path.last() == rest.last());
            assert forall|k: int| 0 <= k < path.len() implies 0 <= #[trigger] path[k]
                < tree.len() by {
                if k > 0 {
                    assert(path[k] == rest[k - 1]);
                }
            }
            assert forall|k: int|
                #![trigger path[k]]
                0 <= k < path.len() - 1 implies is_first_active(tree, path[k], path[k + 1]) by {
                assert(path[k + 1] == rest[k]);
                if k > 0 {
                    assert(path[k] == rest[k - 1]);
                }
            }
        },
        None => {
            assert(path == seq![node]);
        },
    }
}

proof fn lemma_one_path<S>(tree: Seq<NodeModel<S>>, path: Seq<int>)
    requires
        children_come_later(tree),
        leads_down(tree, path),
    ensures
        active_path(tree, path[0]) == path,
    decreases path.len(),
{
    let first = path[0];
    if path.len() > 1 {
        let child = path[1];
        assert(is_first_active(tree, path[0], child));
        let k = choose|k: int|
            #![trigger tree[first].children[k]]
            {
                &&& 0 <= k < tree[first].children.len()
                &&& tree[first].children[k].0 == child
                &&& !tree[child].completed
                &&& forall|j: int|
                    #![trigger tree[first].children[j]]
                    0 <= j < k ==> tree[tree[first].children[j].0].completed
            };
        lemma_first_active(tree, first, child, 0, k);
        let rest = path.drop_first();
        assert forall|k: int|
            #![trigger rest[k]]
            0 <= k < rest.len() - 1 implies is_first_active(tree, rest[k], rest[k + 1]) by {
            assert(rest[k] == path[k + 1]);
            assert(rest[k + 1] == path[k + 1 + 1]);
        }
        assert(rest.last() == path.last());
        assert(leads_down(tree, rest));
        lemma_one_path(tree, rest);
        assert(path == seq![first] + rest);
    } else {
        assert(path.last() == first);
        lemma_none_active(tree, first, 0);
        assert(path == seq![first]);
    }
}

/// The messages of a task are, whatever any task has reported of its progress, clones of the
/// messages of the tasks on its path of active tasks: as many as there are tasks on it, and the
/// one at each place that of the task at that place.
pub proof fn law_messages_are_those_of_the_path<S: Clone>(
    tree: Seq<NodeModel<S>>,
    node: int,
    path: Seq<int>,
    statuses: Seq<S>,
)
    requires
        children_come_later(tree),
        leads_down(tree, path),
        path[0] == node,
    ensures
        are_statuses(tree, node, statuses) <==> {
            &&& statuses.len() == path.len()
            &&& forall|k: int|
                #![trigger statuses[k]]
                0 <= k < path.len() ==> cloned(tree[path[k]].status, statuses[k])
        },
{
    lemma_one_path(tree, path);
}

/// After a task that is neither completed nor cancelled was given a message, the first message that
/// it reports is a clone of that one.
pub proof fn law_given_message_comes_first<S: Clone>(
    tree: Seq<NodeModel<S>>,
    node: int,
    status: S,
    statuses: Seq<S>,
)
    requires
        children_come_later(tree),
        0 <= node < tree.len(),
        !tree[node].completed,
        !tree[node].cancelled,
        are_statuses(after_status(tree, node, status), node, statuses),
    ensures
        statuses.len() > 0,
        cloned(status, statuses[0]),
{
    let after = after_status(tree, node, status);
    assert forall|i: int, k: int|
        #![trigger after[i].children[k]]
        0 <= i < after.len() && 0 <= k < after[i].children.len() implies i < after[i].children[k].0
        < after.len() by {
        assert(after[i].children[k] == tree[i].children[k]);
    }
    law_every_task_has_an_active_path(after, node);
    law_messages_are_those_of_the_path(after, node, active_path(after, node), statuses);
    assert(statuses[0] == statuses[0]);
}

/// A task whose own progress is indeterminate, that is completed, or that lists no children reports
/// its own progress.
pub proof fn law_progress_of_its_own<S>(tree: Seq<NodeModel<S>>, node: int)
    requires
        tree[node].progress is Indeterminate || tree[node].completed
            || tree[node].children.len() == 0,
    ensures
        progress_at(tree, node) == tree[node].progress,
{
}

/// Any other task reports an indeterminate progress if one of its children does.
pub proof fn law_progress_of_an_indeterminate_child<S>(tree: Seq<NodeModel<S>>, node: int, k: int)
    requires
        children_come_later(tree),
        0 <= node < tree.len(),
        !tree[node].completed,
        0 <= k < tree[node].children.len(),
        progress_at(tree, tree[node].children[k].0) is Indeterminate,
    ensures
        progress_at(tree, node) is Indeterminate,
{
    assert(weighted_total(tree, node, (k + 1) as nat) is Indeterminate);
    lemma_total_stays_indeterminate(
        tree,
        node,
        (k + 1) as nat,
        tree[node].children.len(),
    );
}

/// Otherwise it reports the sum of what its children contribute. `sums` begins with negative zero,
/// which changes nothing that is added to it; each next one adds the progress of the next child,
/// in the order of creation, times the weight that the child was created with; the last one is
/// the progress of the task.
pub proof fn law_progress_is_the_sum_over_children<S>(
    tree: Seq<NodeModel<S>>,
    node: int,
    numbers: Seq<Binary64>,
    sums: Seq<Binary64>,
)
    requires
        children_come_later(tree),
        0 <= node < tree.len(),
        !tree[node].completed,
        tree[node].progress is Determinate,
        tree[node].children.len() > 0,
        numbers.len() == tree[node].children.len(),
        sums.len() == numbers.len() + 1,
        sums[0].bits == 0x8000_0000_0000_0000,
        forall|k: int|
            #![trigger numbers[k]]
            0 <= k < numbers.len() ==> {
                &&& progress_at(tree, tree[node].children[k].0) == Progress::Determinate(
                    numbers[k],
                )
                &&& sums[k + 1] == sums[k].sum_of(numbers[k].product_of(tree[node].children[k].1))
            },
    ensures
        progress_at(tree, node) == Progress::Determinate(sums.last()),
{
    lemma_partial_sums(tree, node, numbers, sums, numbers.len());
}

proof fn lemma_partial_sums<S>(
    tree: Seq<NodeModel<S>>,
    node: int,
    numbers: Seq<Binary64>,
    sums: Seq<Binary64>,
    count: nat,
)
    requires
        children_come_later(tree),
        0 <= node < tree.len(),
        count <= numbers.len(),
        numbers.len() == tree[node].children.len(),
        sums.len() == numbers.len() + 1,
        sums[0].bits == 0x8000_0000_0000_0000,
        forall|k: int|
            #![trigger numbers[k]]
            0 <= k < numbers.len() ==> {
                &&& progress_at(tree, tree[node].children[k].0) == Progress::Determinate(
                    numbers[k],
                )
                &&& sums[k + 1] == sums[k].sum_of(numbers[k].product_of(tree[node].children[k].1))
            },
    ensures
        weighted_total(tree, node, count) == Progress::Determinate(sums[count as int]),
    decreases count,
{
    if count > 0 {
        lemma_partial_sums(tree, node, numbers, sums, (count - 1) as nat);
        let (child, weight) = tree[node].children[count - 1];
        let number = numbers[count - 1];
        assert(node < child < tree.len());
        assert(progress_at(tree, child) == Progress::Determinate(number));
        assert(sums[count - 1 + 1] == sums[count - 1].sum_of(number.product_of(weight)));
    } else {
        assert(sums[0] == Binary64 { bits: sums[0].bits });
    }
}

proof fn lemma_same_progress<S>(before: Seq<NodeModel<S>>, after: Seq<NodeModel<S>>, node: int)
    requires
        children_come_later(before),
        before.len() == after.len(),
        forall|i: int|
            #![trigger after[i]]
            0 <= i < before.len() ==> {
                &&& after[i].children == before[i].children
                &&& after[i].progress == before[i].progress
                &&& after[i].completed == before[i].completed
            },
        0 <= node < before.len(),
    ensures
        progress_at(after, node) == progress_at(before, node),
    decreases before.len() - node, before[node].children.len() + 1,
{
    assert(after[node].children == before[node].children);
    lemma_same_total(before, after, node, before[node].children.len());
}

proof fn lemma_same_total<S>(
    before: Seq<NodeModel<S>>,
    after: Seq<NodeModel<S>>,
    node: int,
    count: nat,
)
    requires
        children_come_later(before),
        before.len() == after.len(),
        forall|i: int|
            #![trigger after[i]]
            0 <= i < before.len() ==> {
                &&& after[i].children == before[i].children
                &&& after[i].progress == before[i].progress
                &&& after[i].completed == before[i].completed
            },
        0 <= node < before.len(),
        count <= before[node].children.len(),
    ensures
        weighted_total(after, node, count) == weighted_total(before, node, count),
    decreases before.len() - node, count,
{
    assert(after[node].children == before[node].children);
    if count > 0 {
        lemma_same_total(before, after, node, (count - 1) as nat);
        lemma_same_progress(before, after, before[node].children[count - 1].0);
    }
}

/// A message changes no progress: every task in the tree reports the same one after it as before.
pub proof fn law_messages_change_no_progress<S>(
    tree: Seq<NodeModel<S>>,
    node: int,
    status: S,
    other: int,
)
    requires
        children_come_later(tree),
        0 <= node < tree.len(),
        0 <= other < tree.len(),
    ensures
        progress_at(after_status(tree, node, status), other) == progress_at(tree, other),
{
    lemma_same_progress(tree, after_status(tree, node, status), other);
}

/// A progress changes no message: every task in the tree reports the same ones after it as before.
pub proof fn law_progress_changes_no_message<S: Clone>(
    tree: Seq<NodeModel<S>>,
    node: int,
    progress: Progress,
    other: int,
    statuses: Seq<S>,
)
    requires
        children_come_later(tree),
        0 <= node < tree.len(),
        0 <= other < tree.len(),
    ensures
        are_statuses(after_progress(tree, node, progress), other, statuses) <==> are_statuses(
            tree,
            other,
            statuses,
        ),
{
    let after = after_progress(tree, node, progress);
    assert forall|i: int| #![trigger after[i]] 0 <= i < tree.len() implies after[i].children
        == tree[i].children && after[i].completed == tree[i].completed && after[i].status
        == tree[i].status by {}
    law_every_task_has_an_active_path(tree, other);
    let path = active_path(tree, other);
    assert forall|i: int, k: int|
        #![trigger after[i].children[k]]
        0 <= i < after.len() && 0 <= k < after[i].children.len() implies i < after[i].children[k].0
        < after.len() by {
        assert(after[i].children[k] == tree[i].children[k]);
    }
    assert forall|k: int|
        #![trigger path[k]]
        0 <= k < path.len() - 1 implies is_first_active(after, path[k], path[k + 1]) by {
        let at = path[k];
        let child = path[k + 1];
        assert(is_first_active(tree, at, child));
        let j = choose|j: int|
            #![trigger tree[at].children[j]]
            {
                &&& 0 <= j < tree[at].children.len()
                &&& tree[at].children[j].0 == child
                &&& !tree[child].completed
                &&& forall|m: int|
                    #![trigger tree[at].children[m]]
                    0 <= m < j ==> tree[tree[at].children[m].0].completed
            };
        assert(after[at].children[j].0 == child);
        assert(after[child].completed == tree[child].completed);
        assert forall|m: int| #![trigger after[at].children[m]] 0 <= m < j implies after[
            after[at].children[m].0
        ].completed by {
            assert(tree[tree[at].children[m].0].completed);
            assert(after[tree[at].children[m].0].completed);
        }
    }
    let last = path.last();
    assert forall|k: int|
        #![trigger after[last].children[k]]
        0 <= k < after[last].children.len() implies after[after[last].children[k].0].completed by {
        assert(tree[tree[last].children[k].0].completed);
        assert(after[tree[last].children[k].0].completed);
    }
    assert(leads_down(after, path));
    law_messages_are_those_of_the_path(tree, other, path, statuses);
    law_messages_are_those_of_the_path(after, other, path, statuses);
    assert forall|k: int| #![trigger statuses[k]] 0 <= k < path.len() implies after[path[k]].status
        == tree[path[k]].status by {
        assert(after[path[k]].status == tree[path[k]].status);
    }
}

/// A completed task is not the active child of any, so its message is reported below none.
pub proof fn law_completed_tasks_are_not_active<S: Clone>(tree: Seq<NodeModel<S>>, node: int, k: int)
    requires
        children_come_later(tree),
        0 <= node < tree.len(),
        0 < k < active_path(tree, node).len(),
    ensures
        !tree[active_path(tree, node)[k]].completed,
{
    law_every_task_has_an_active_path(tree, node);
    let path = active_path(tree, node);
    assert(is_first_active(tree, path[k - 1], path[k - 1 + 1]));
}

/// What a wait returns, by what ended it.
pub proof fn law_what_a_wait_returns<S>(event: UpdateEvent<S>)
    ensures
        event matches UpdateEvent::Received(update) ==> event.outcome()
            == Ok::<ProgressUpdate<S>, ProgressError>(update),
        event is Cancelled || event is Closed ==> event.outcome()
            == Err::<ProgressUpdate<S>, ProgressError>(ProgressError::Cancelled),
        event is Lagged ==> event.outcome() == Err::<ProgressUpdate<S>, ProgressError>(
            ProgressError::Lagged,
        ),
{
}

/// A tree holds the task of a token exactly if the position of the task is in it.
pub proof fn law_what_a_tree_holds<S>(token: ProgressToken, tree: &ProgressTree<S>)
    ensures
        token.belongs_to(tree) <==> 0 <= token.position() < tree@.len(),
{
}

/// The identities of a family are those of its tokens, in order.
pub proof fn law_identities_of_a_family(family: Seq<CancellationToken>, i: int)
    requires
        0 <= i < family.len(),
    ensures
        family_identities(family).len() == family.len(),
        family_identities(family)[i] == token_identity(family[i]),
{
}

/// A subscriber may leave sixteen updates unread.
pub proof fn law_buffer()
    ensures
        UPDATE_BUFFER == 16,
{
}

/// In every well-formed tree the first task is the only one without a parent, every other one comes
/// after its parent and is listed there, and everything that is listed at a task is its child and
/// listed once. A completed task stands at one, no number is out of range, and what is below a
/// cancelled task is cancelled.
pub proof fn law_what_holds_of_every_tree<S>(tree: Seq<NodeModel<S>>, i: int)
    requires
        well_formed(tree),
        0 <= i < tree.len(),
    ensures
        parents_come_first(tree),
        children_come_later(tree),
        tree[i].parent is None <==> i == 0,
        tree[i].parent matches Some(parent) ==> {
            &&& 0 <= parent < i
            &&& exists|k: int|
                0 <= k < tree[parent].children.len() && #[trigger] tree[parent].children[k].0 == i
            &&& tree[parent].cancelled ==> tree[i].cancelled
        },
        forall|k: int|
            #![trigger tree[i].children[k]]
            0 <= k < tree[i].children.len() ==> tree[tree[i].children[k].0].parent == Some(i),
        forall|j: int, k: int|
            #![trigger tree[i].children[j], tree[i].children[k]]
            0 <= j < k < tree[i].children.len() ==> tree[i].children[j].0
                != tree[i].children[k].0,
        tree[i].completed ==> tree[i].progress == Progress::Determinate(
            Binary64 { bits: 0x3ff0_0000_0000_0000 },
        ),
        tree[i].progress matches Progress::Determinate(number) ==> number.bits
            <= 0x3ff0_0000_0000_0000,
{
    assert forall|j: int|
        #![trigger tree[j].parent]
        0 <= j < tree.len() implies (tree[j].parent matches Some(parent) ==> 0 <= parent < j) by {
        if j > 0 {
            assert(has_parent(tree, j));
        }
    }
    if i > 0 {
        assert(has_parent(tree, i));
    }
    assert(tree[i].progress.in_unit_range());
    match tree[i].progress {
        Progress::Determinate(number) => {
            law_unit_range_by_bits(number);
        },
        Progress::Indeterminate => {},
    }
}

} // verus!
