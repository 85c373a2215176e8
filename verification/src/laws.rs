//! Laws of a tree of tasks as a whole: what every operation keeps, what a report changes and what
//! it leaves alone, and who hears of it.

use crate::binary64::{Binary64, ONE};
use crate::cancellation::{descends, lemma_descends_from_parent};
use crate::model::{
    accepts_updates, active_child, active_child_from, active_path, after_cancel, after_child,
    after_complete, after_progress, after_status, after_update, announces, has_parent,
    lemma_same_active_path, lineage, parents, progress_at, root_tree, weighted_total, well_formed,
    NodeModel, Notice,
};
use crate::preservation::{
    lemma_cancel_well_formed, lemma_child_well_formed, lemma_complete_well_formed,
    lemma_progress_well_formed, lemma_root_well_formed, lemma_status_well_formed,
};
use crate::progress::{Progress, ProgressError, UpdateEvent};
use vstd::prelude::*;

verus! {

/// A request to a task.
pub enum Request<S> {
    Child { weight: Binary64, status: S },
    Progress { progress: Progress },
    Status { status: S },
    Update { progress: Progress, status: S },
    Complete,
    Cancel,
}

/// The tree after a request to `node`.
pub open spec fn after_request<S>(
    tree: Seq<NodeModel<S>>,
    node: int,
    request: Request<S>,
) -> Seq<NodeModel<S>> {
    match request {
        Request::Child { weight, status } => after_child(tree, node, weight, status),
        Request::Progress { progress } => after_progress(tree, node, progress),
        Request::Status { status } => after_status(tree, node, status),
        Request::Update { progress, status } => after_update(tree, node, progress, status),
        Request::Complete => after_complete(tree, node),
        Request::Cancel => after_cancel(tree, node),
    }
}

/// The request reports something of the task itself: it is neither for a new task below it nor
/// for its cancellation.
pub open spec fn is_report<S>(request: Request<S>) -> bool {
    !(request is Child) && !(request is Cancel)
}

/// The request is carried out and told to subscribers.
pub open spec fn is_announced<S>(tree: Seq<NodeModel<S>>, node: int, request: Request<S>) -> bool {
    match request {
        Request::Child { .. } => false,
        Request::Cancel => !tree[node].cancelled,
        _ => accepts_updates(tree, node),
    }
}

/// The tree after a sequence of requests, each to the task at the given position.
pub open spec fn after_requests<S>(
    tree: Seq<NodeModel<S>>,
    requests: Seq<(int, Request<S>)>,
) -> Seq<NodeModel<S>>
    decreases requests.len(),
{
    if requests.len() == 0 {
        tree
    } else {
        let (node, request) = requests.last();
        after_request(after_requests(tree, requests.drop_last()), node, request)
    }
}

/// Each request is to a task that exists when its turn comes.
pub open spec fn are_possible<S>(tree: Seq<NodeModel<S>>, requests: Seq<(int, Request<S>)>) -> bool
    decreases requests.len(),
{
    requests.len() > 0 ==> {
        &&& are_possible(tree, requests.drop_last())
        &&& 0 <= requests.last().0 < after_requests(tree, requests.drop_last()).len()
    }
}

/// Every request keeps the tree well-formed: each reported progress is indeterminate or from zero
/// to one, a completed task stands at one, and what is below a cancelled task is cancelled. No
/// task ever leaves the tree or moves in it.
pub proof fn law_well_formed<S>(tree: Seq<NodeModel<S>>, node: int, request: Request<S>)
    requires
        well_formed(tree),
        0 <= node < tree.len(),
    ensures
        well_formed(after_request(tree, node, request)),
        tree.len() <= after_request(tree, node, request).len(),
        forall|i: int|
            0 <= i < tree.len() ==> #[trigger] after_request(tree, node, request)[i].parent
                == tree[i].parent,
{
    match request {
        Request::Child { weight, status } => {
            lemma_child_well_formed(tree, node, weight, status);
        },
        Request::Progress { progress } => {
            lemma_progress_well_formed(tree, node, progress);
        },
        Request::Status { status } => {
            lemma_status_well_formed(tree, node, status);
        },
        Request::Update { progress, status } => {
            lemma_progress_well_formed(tree, node, progress);
            lemma_status_well_formed(after_progress(tree, node, progress), node, status);
        },
        Request::Complete => {
            lemma_complete_well_formed(tree, node);
        },
        Request::Cancel => {
            lemma_cancel_well_formed(tree, node);
        },
    }
}

/// Every tree that grows from a single task is well-formed.
pub proof fn law_every_tree_well_formed<S>(status: S, requests: Seq<(int, Request<S>)>)
    requires
        are_possible(root_tree(status), requests),
    ensures
        well_formed(after_requests(root_tree(status), requests)),
    decreases requests.len(),
{
    if requests.len() == 0 {
        lemma_root_well_formed(status);
    } else {
        law_every_tree_well_formed(status, requests.drop_last());
        let (node, request) = requests.last();
        law_well_formed(after_requests(root_tree(status), requests.drop_last()), node, request);
    }
}

/// Completion is permanent: whatever is requested, a completed task stays completed, keeps its
/// status message, and reports a progress of one.
pub proof fn law_completion_is_permanent<S>(
    tree: Seq<NodeModel<S>>,
    node: int,
    request: Request<S>,
    done: int,
)
    requires
        well_formed(tree),
        0 <= node < tree.len(),
        0 <= done < tree.len(),
        tree[done].completed,
    ensures
        after_request(tree, node, request)[done].completed,
        after_request(tree, node, request)[done].status == tree[done].status,
        progress_at(tree, done) == Progress::Determinate(Binary64 { bits: ONE }),
        progress_at(after_request(tree, node, request), done) == Progress::Determinate(
            Binary64 { bits: ONE },
        ),
{
    law_well_formed(tree, node, request);
}

/// Cancellation is permanent: whatever is requested, a cancelled task stays cancelled, and keeps
/// its own progress and status message.
pub proof fn law_cancellation_is_permanent<S>(
    tree: Seq<NodeModel<S>>,
    node: int,
    request: Request<S>,
    gone: int,
)
    requires
        well_formed(tree),
        0 <= node < tree.len(),
        0 <= gone < tree.len(),
        tree[gone].cancelled,
    ensures
        after_request(tree, node, request)[gone].cancelled,
        after_request(tree, node, request)[gone].progress == tree[gone].progress,
        after_request(tree, node, request)[gone].status == tree[gone].status,
        after_request(tree, node, request)[gone].completed == tree[gone].completed,
{
}

/// Completion is permanent over any number of requests.
pub proof fn law_completion_is_forever<S>(
    tree: Seq<NodeModel<S>>,
    requests: Seq<(int, Request<S>)>,
    done: int,
)
    requires
        well_formed(tree),
        are_possible(tree, requests),
        0 <= done < tree.len(),
        tree[done].completed,
    ensures
        well_formed(after_requests(tree, requests)),
        tree.len() <= after_requests(tree, requests).len(),
        after_requests(tree, requests)[done].completed,
        after_requests(tree, requests)[done].status == tree[done].status,
        progress_at(after_requests(tree, requests), done) == Progress::Determinate(
            Binary64 { bits: ONE },
        ),
    decreases requests.len(),
{
    if requests.len() > 0 {
        let (node, request) = requests.last();
        let between = after_requests(tree, requests.drop_last());
        law_completion_is_forever(tree, requests.drop_last(), done);
        law_well_formed(between, node, request);
        law_completion_is_permanent(between, node, request, done);
    }
}

/// Cancellation is permanent over any number of requests.
pub proof fn law_cancellation_is_forever<S>(
    tree: Seq<NodeModel<S>>,
    requests: Seq<(int, Request<S>)>,
    gone: int,
)
    requires
        well_formed(tree),
        are_possible(tree, requests),
        0 <= gone < tree.len(),
        tree[gone].cancelled,
    ensures
        well_formed(after_requests(tree, requests)),
        tree.len() <= after_requests(tree, requests).len(),
        after_requests(tree, requests)[gone].cancelled,
        after_requests(tree, requests)[gone].progress == tree[gone].progress,
        after_requests(tree, requests)[gone].status == tree[gone].status,
    decreases requests.len(),
{
    if requests.len() > 0 {
        let (node, request) = requests.last();
        let between = after_requests(tree, requests.drop_last());
        law_cancellation_is_forever(tree, requests.drop_last(), gone);
        law_well_formed(between, node, request);
        law_cancellation_is_permanent(between, node, request, gone);
    }
}

/// A task that takes updates has the status message that it was last given, and that message is
/// the first one that it reports. The path of active tasks stays the same.
pub proof fn law_status_is_what_was_given<S>(tree: Seq<NodeModel<S>>, node: int, status: S)
    requires
        well_formed(tree),
        0 <= node < tree.len(),
        accepts_updates(tree, node),
    ensures
        after_status(tree, node, status)[node].status == status,
        active_path(after_status(tree, node, status), node) == active_path(tree, node),
        active_path(tree, node)[0] == node,
{
    lemma_same_active_path(tree, after_status(tree, node, status), node);
}

/// A task that is completed or cancelled ignores every report: nothing changes, and nobody is
/// told.
pub proof fn law_closed_task_ignores_reports<S>(
    tree: Seq<NodeModel<S>>,
    node: int,
    request: Request<S>,
)
    requires
        well_formed(tree),
        0 <= node < tree.len(),
        tree[node].completed || tree[node].cancelled,
        is_report(request),
    ensures
        after_request(tree, node, request) == tree,
        !is_announced(tree, node, request),
{
}

/// A completed task reports a progress of one.
pub proof fn law_complete_reports_one<S>(tree: Seq<NodeModel<S>>, node: int)
    requires
        well_formed(tree),
        0 <= node < tree.len(),
        accepts_updates(tree, node),
    ensures
        after_complete(tree, node)[node].completed,
        progress_at(after_complete(tree, node), node) == Progress::Determinate(
            Binary64 { bits: ONE },
        ),
{
}

/// A task without children that takes updates reports the progress that it was last given,
/// brought into the range from zero to one.
pub proof fn law_leaf_reports_what_it_was_given<S>(
    tree: Seq<NodeModel<S>>,
    node: int,
    progress: Progress,
)
    requires
        well_formed(tree),
        0 <= node < tree.len(),
        accepts_updates(tree, node),
        tree[node].children.len() == 0,
    ensures
        progress_at(after_progress(tree, node, progress), node) == progress.clamped(),
        progress.in_unit_range() ==> progress.clamped() == progress,
{
}

/// A node below a cancelled one is cancelled.
pub proof fn law_cancelled_below<S>(tree: Seq<NodeModel<S>>, node: int, ancestor: int)
    requires
        well_formed(tree),
        0 <= node < tree.len(),
        0 <= ancestor < tree.len(),
        descends(parents(tree), node, ancestor),
        tree[ancestor].cancelled,
    ensures
        tree[node].cancelled,
    decreases node,
{
    if node != ancestor {
        let parent = parents(tree)[node]->0;
        assert(has_parent(tree, node));
        law_cancelled_below(tree, parent, ancestor);
    }
}

/// Cancelling a task cancels it and every task below it, and no other one.
pub proof fn law_cancel_reaches_all_below<S>(tree: Seq<NodeModel<S>>, node: int, other: int)
    requires
        well_formed(tree),
        0 <= node < tree.len(),
        0 <= other < tree.len(),
    ensures
        descends(parents(tree), other, node) ==> after_cancel(tree, node)[other].cancelled,
        !descends(parents(tree), other, node) ==> after_cancel(tree, node)[other] == tree[other],
{
}

/// Cancelling a cancelled task changes nothing.
pub proof fn law_cancel_again<S>(tree: Seq<NodeModel<S>>, node: int)
    requires
        well_formed(tree),
        0 <= node < tree.len(),
        tree[node].cancelled,
    ensures
        after_cancel(tree, node) == tree,
{
    assert forall|i: int| 0 <= i < tree.len() implies after_cancel(tree, node)[i] == tree[i] by {
        if descends(parents(tree), i, node) {
            law_cancelled_below(tree, i, node);
        }
    }
    assert(after_cancel(tree, node) =~= tree);
}

/// A task created below a cancelled one is cancelled from the start.
pub proof fn law_child_of_cancelled<S>(
    tree: Seq<NodeModel<S>>,
    parent: int,
    weight: Binary64,
    status: S,
)
    requires
        well_formed(tree),
        0 <= parent < tree.len(),
    ensures
        after_child(tree, parent, weight, status).last().cancelled == tree[parent].cancelled,
{
}

/// The nodes that an update passes on its way are `node` itself, its parent, and so on up to the
/// root: exactly the nodes that `node` descends from.
pub proof fn law_lineage_leads_to_root<S>(tree: Seq<NodeModel<S>>, node: int)
    requires
        well_formed(tree),
        0 <= node < tree.len(),
    ensures
        lineage(tree, node).len() > 0,
        lineage(tree, node)[0] == node,
        lineage(tree, node).last() == 0,
        forall|k: int|
            #![trigger lineage(tree, node)[k]]
            0 <= k < lineage(tree, node).len() ==> 0 <= lineage(tree, node)[k] <= node,
        forall|k: int|
            #![trigger lineage(tree, node)[k]]
            0 <= k < lineage(tree, node).len() - 1 ==> tree[lineage(tree, node)[k]].parent == Some(
                lineage(tree, node)[k + 1],
            ),
        forall|j: int|
            0 <= j < tree.len() ==> (#[trigger] lineage(tree, node).contains(j) <==> descends(
                parents(tree),
                node,
                j,
            )),
    decreases node,
{
    let line = lineage(tree, node);
    if node > 0 {
        assert(has_parent(tree, node));
        let parent = tree[node].parent->0;
        law_lineage_leads_to_root(tree, parent);
        let rest = lineage(tree, parent);
        assert(line == seq![node] + rest);
        assert forall|k: int|
            #![trigger line[k]]
            0 <= k < line.len() - 1 implies tree[line[k]].parent == Some(line[k + 1]) by {
            if k > 0 {
                assert(line[k] == rest[k - 1]);
                assert(line[k + 1] == rest[k]);
            } else {
                assert(line[1] == rest[0]);
            }
        }
        assert forall|j: int| 0 <= j < tree.len() implies (#[trigger] line.contains(j) <==> descends(
            parents(tree),
            node,
            j,
        )) by {
            assert(parents(tree)[node] == Some(parent));
            if line.contains(j) && j != node {
                let k = choose|k: int| 0 <= k < line.len() && line[k] == j;
                assert(rest[k - 1] == j);
                assert(rest.contains(j));
            }
            if descends(parents(tree), node, j) {
                if j == node {
                    assert(line[0] == j);
                } else {
                    assert(rest.contains(j));
                    let k = choose|k: int| 0 <= k < rest.len() && rest[k] == j;
                    assert(line[k + 1] == j);
                }
            }
        }
    } else {
        assert(line == seq![0int]);
        assert forall|j: int| 0 <= j < tree.len() implies (#[trigger] line.contains(j) <==> descends(
            parents(tree),
            node,
            j,
        )) by {
            assert(line[0] == 0);
        }
    }
}

/// Once a task is cancelled, no request to any task is announced to its subscribers.
pub proof fn law_no_updates_after_cancellation<S>(
    tree: Seq<NodeModel<S>>,
    node: int,
    request: Request<S>,
    gone: int,
)
    requires
        well_formed(tree),
        0 <= node < tree.len(),
        0 <= gone < tree.len(),
        tree[gone].cancelled,
        is_announced(tree, node, request),
    ensures
        !lineage(after_request(tree, node, request), node).contains(gone),
{
    let after = after_request(tree, node, request);
    law_well_formed(tree, node, request);
    law_lineage_leads_to_root(after, node);
    assert(parents(after) =~= parents(tree));
    if descends(parents(tree), node, gone) {
        law_cancelled_below(tree, node, gone);
    }
}

/// Only a cancelled task is told that it is cancelled: the task that such an update is sent to,
/// when a request has been carried out, is cancelled, and stays so whatever is requested later.
pub proof fn law_only_cancelled_are_told_so<S: Clone>(
    tree: Seq<NodeModel<S>>,
    node: int,
    request: Request<S>,
    notices: Seq<Notice<S>>,
    later: Seq<(int, Request<S>)>,
    k: int,
)
    requires
        well_formed(tree),
        0 <= node < tree.len(),
        is_announced(tree, node, request),
        announces(after_request(tree, node, request), node, request is Cancel, notices),
        are_possible(after_request(tree, node, request), later),
        0 <= k < notices.len(),
        notices[k].update.is_cancelled,
    ensures
        0 <= notices[k].node < tree.len(),
        after_requests(after_request(tree, node, request), later)[notices[k].node as int].cancelled,
{
    let after = after_request(tree, node, request);
    law_well_formed(tree, node, request);
    law_lineage_leads_to_root(after, node);
    assert(notices[k].node == lineage(after, node)[k]);
    assert(k == 0);
    assert(descends(parents(tree), node, node));
    law_cancellation_is_forever(after, later, node);
}

/// What can end a wait for the next update of `node`, when `sent` are the updates that its
/// channel has carried: the future that waits for the cancellation, which ends once the task is
/// cancelled, or the channel, which hands out what it was sent and is not closed while the tree
/// that holds its sender lives.
pub open spec fn can_end_wait<S>(
    tree: Seq<NodeModel<S>>,
    node: int,
    sent: Seq<Notice<S>>,
    event: UpdateEvent<S>,
) -> bool {
    match event {
        UpdateEvent::Cancelled => tree[node].cancelled,
        UpdateEvent::Received(update) => exists|k: int|
            0 <= k < sent.len() && (#[trigger] sent[k]).node == node && sent[k].update == update,
        UpdateEvent::Closed => false,
        UpdateEvent::Lagged(_) => true,
    }
}

/// `notice` is among the updates that one of the requests, made one after the other to the tasks
/// of `tree`, was announced with when its turn came.
pub open spec fn was_sent<S: Clone>(
    tree: Seq<NodeModel<S>>,
    requests: Seq<(int, Request<S>)>,
    notice: Notice<S>,
) -> bool
    decreases requests.len(),
{
    requests.len() > 0 && {
        ||| was_sent(tree, requests.drop_last(), notice)
        ||| is_sent_by(
            after_requests(tree, requests.drop_last()),
            requests.last().0,
            requests.last().1,
            notice,
        )
    }
}

/// `notice` is among the updates that a request to `node` is announced with.
pub open spec fn is_sent_by<S: Clone>(
    tree: Seq<NodeModel<S>>,
    node: int,
    request: Request<S>,
    notice: Notice<S>,
) -> bool {
    &&& is_announced(tree, node, request)
    &&& exists|notices: Seq<Notice<S>>|
        #![trigger notices.contains(notice)]
        announces(after_request(tree, node, request), node, request is Cancel, notices)
            && notices.contains(notice)
}

/// Of all updates that were ever sent, only those to tasks that are cancelled now say that the
/// task is cancelled.
pub proof fn law_all_that_were_told_so_are_cancelled<S: Clone>(
    status: S,
    requests: Seq<(int, Request<S>)>,
    notice: Notice<S>,
)
    requires
        are_possible(root_tree(status), requests),
        was_sent(root_tree(status), requests, notice),
        notice.update.is_cancelled,
    ensures
        notice.node < after_requests(root_tree(status), requests).len(),
        after_requests(root_tree(status), requests)[notice.node as int].cancelled,
    decreases requests.len(),
{
    let earlier = requests.drop_last();
    let before = after_requests(root_tree(status), earlier);
    let (node, request) = requests.last();
    law_every_tree_well_formed(status, earlier);
    law_well_formed(before, node, request);
    if was_sent(root_tree(status), earlier, notice) {
        law_all_that_were_told_so_are_cancelled(status, earlier, notice);
        law_cancellation_is_permanent(before, node, request, notice.node as int);
    } else {
        let after = after_request(before, node, request);
        let notices = choose|notices: Seq<Notice<S>>|
            #![trigger notices.contains(notice)]
            announces(after, node, request is Cancel, notices) && notices.contains(notice);
        let k = choose|k: int| 0 <= k < notices.len() && notices[k] == notice;
        let none = Seq::<(int, Request<S>)>::empty();
        law_only_cancelled_are_told_so(before, node, request, notices, none, k);
    }
}

/// A wait speaks of a cancellation only if the task has been cancelled, whether it returns an
/// error or an update, and whatever has been requested since the tree began: it is enough that
/// the channel, which has carried updates of any number of requests, and the future end the wait
/// as they should.
pub proof fn law_wait_tells_cancelled_only_of_cancelled<S: Clone>(
    status: S,
    requests: Seq<(int, Request<S>)>,
    sent: Seq<Notice<S>>,
    waiting: int,
    event: UpdateEvent<S>,
)
    requires
        are_possible(root_tree(status), requests),
        forall|k: int|
            #![trigger sent[k]]
            0 <= k < sent.len() ==> was_sent(root_tree(status), requests, sent[k]),
        can_end_wait(after_requests(root_tree(status), requests), waiting, sent, event),
    ensures
        match event.outcome() {
            Err(ProgressError::Cancelled) => after_requests(
                root_tree(status),
                requests,
            )[waiting].cancelled,
            Err(ProgressError::Lagged) => true,
            Ok(update) => update.is_cancelled ==> after_requests(
                root_tree(status),
                requests,
            )[waiting].cancelled,
        },
{
    match event {
        UpdateEvent::Received(update) => {
            let k = choose|k: int|
                0 <= k < sent.len() && (#[trigger] sent[k]).node == waiting && sent[k].update
                    == update;
            if update.is_cancelled {
                law_all_that_were_told_so_are_cancelled(status, requests, sent[k]);
            }
        },
        _ => {},
    }
}

/// The trees differ at most in `node` and in nodes that the first one does not have.
spec fn agree_besides<S>(
    before: Seq<NodeModel<S>>,
    after: Seq<NodeModel<S>>,
    node: int,
) -> bool {
    &&& before.len() <= after.len()
    &&& forall|i: int|
        #![trigger after[i]]
        0 <= i < before.len() && i != node ==> {
            &&& after[i].children == before[i].children
            &&& after[i].progress == before[i].progress
            &&& after[i].status == before[i].status
            &&& after[i].completed == before[i].completed
        }
}

proof fn lemma_progress_elsewhere<S>(
    before: Seq<NodeModel<S>>,
    after: Seq<NodeModel<S>>,
    node: int,
    other: int,
)
    requires
        well_formed(before),
        agree_besides(before, after, node),
        0 <= other < before.len(),
        !descends(parents(before), node, other),
    ensures
        progress_at(after, other) == progress_at(before, other),
    decreases before.len() - other, before[other].children.len() + 1,
{
    assert(other != node);
    lemma_total_elsewhere(before, after, node, other, before[other].children.len());
}

proof fn lemma_total_elsewhere<S>(
    before: Seq<NodeModel<S>>,
    after: Seq<NodeModel<S>>,
    node: int,
    other: int,
    count: nat,
)
    requires
        well_formed(before),
        agree_besides(before, after, node),
        0 <= other < before.len(),
        !descends(parents(before), node, other),
        count <= before[other].children.len(),
    ensures
        weighted_total(after, other, count) == weighted_total(before, other, count),
    decreases before.len() - other, count,
{
    assert(other != node);
    if count > 0 {
        lemma_total_elsewhere(before, after, node, other, (count - 1) as nat);
        let child = before[other].children[count - 1].0;
        assert(parents(before)[child] == Some(other));
        if descends(parents(before), node, child) {
            lemma_descends_from_parent(parents(before), node, child, other);
        }
        lemma_progress_elsewhere(before, after, node, child);
    }
}

proof fn lemma_active_child_elsewhere<S>(
    before: Seq<NodeModel<S>>,
    after: Seq<NodeModel<S>>,
    node: int,
    other: int,
    from: nat,
)
    requires
        well_formed(before),
        agree_besides(before, after, node),
        0 <= other < before.len(),
        !descends(parents(before), node, other),
    ensures
        active_child_from(after, other, from) == active_child_from(before, other, from),
        active_child_from(before, other, from) matches Some(child) ==> other < child < before.len()
            && !descends(parents(before), node, child),
    decreases before[other].children.len() - from,
{
    assert(other != node);
    if from < before[other].children.len() {
        let child = before[other].children[from as int].0;
        assert(parents(before)[child] == Some(other));
        if descends(parents(before), node, child) {
            lemma_descends_from_parent(parents(before), node, child, other);
        }
        assert(child != node);
        lemma_active_child_elsewhere(before, after, node, other, from + 1);
    }
}

proof fn lemma_statuses_elsewhere<S>(
    before: Seq<NodeModel<S>>,
    after: Seq<NodeModel<S>>,
    node: int,
    other: int,
)
    requires
        well_formed(before),
        agree_besides(before, after, node),
        0 <= other < before.len(),
        !descends(parents(before), node, other),
    ensures
        active_path(after, other) == active_path(before, other),
        forall|k: int|
            #![trigger active_path(before, other)[k]]
            0 <= k < active_path(before, other).len()
                ==> after[active_path(before, other)[k]].status
                == before[active_path(before, other)[k]].status,
    decreases before.len() - other,
{
    assert(other != node);
    lemma_active_child_elsewhere(before, after, node, other, 0);
    match active_child(before, other) {
        Some(child) => {
            lemma_statuses_elsewhere(before, after, node, child);
            let rest = active_path(before, child);
            let path = active_path(before, other);
            assert(path == seq![other] + rest);
            assert forall|k: int|
                #![trigger path[k]]
                0 <= k < path.len() implies after[path[k]].status == before[path[k]].status by {
                if k > 0 {
                    assert(path[k] == rest[k - 1]);
                }
            }
        },
        None => {},
    }
}

/// A request to a task changes what that task and those above it report, and nothing else: every
/// other task reports the same progress and the same status messages as before. Those that are
/// told of a report are thus all those that it can concern.
pub proof fn law_request_concerns_lineage_only<S>(
    tree: Seq<NodeModel<S>>,
    node: int,
    request: Request<S>,
    other: int,
)
    requires
        well_formed(tree),
        0 <= node < tree.len(),
        0 <= other < tree.len(),
        !lineage(tree, node).contains(other),
    ensures
        progress_at(after_request(tree, node, request), other) == progress_at(tree, other),
        active_path(after_request(tree, node, request), other) == active_path(tree, other),
        forall|k: int|
            #![trigger active_path(tree, other)[k]]
            0 <= k < active_path(tree, other).len() ==> after_request(
                tree,
                node,
                request,
            )[active_path(tree, other)[k]].status == tree[active_path(tree, other)[k]].status,
{
    let after = after_request(tree, node, request);
    law_lineage_leads_to_root(tree, node);
    assert(agree_besides(tree, after, node));
    lemma_progress_elsewhere(tree, after, node, other);
    lemma_statuses_elsewhere(tree, after, node, other);
}

} // verus!
