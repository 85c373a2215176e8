//! Handles to the tasks of a tree: how a task is reported on, watched, completed and cancelled.
//!
//! A [`ProgressToken`] names a task. The tree that holds the task is handed to every method, so a
//! method's contract tells the tree before the call from the tree after it. A method that changes
//! what subscribers see returns the updates that they are to receive; no update is returned for a
//! request that was ignored.

use crate::binary64::Binary64;
use crate::cancellation::awaited_identity;
use crate::model::{
    accepts_updates, after_cancel, after_child, after_complete, after_progress, after_status,
    after_update, announces, are_statuses, progress_at, reports, root_tree, NodeModel, Notice,
};
use crate::laws::law_cancel_again;
use crate::progress::{Progress, ProgressError, ProgressUpdate, UpdateEvent};
use crate::tree::ProgressTree;
use tokio_util::sync::WaitForCancellationFutureOwned;
use vstd::prelude::*;

verus! {

/// A handle to a task of a tree.
#[derive(Debug, Clone, Copy)]
pub struct ProgressToken {
    node: usize,
}

/// The updates that follow from a request to `node`: what `node` and all nodes above it report
/// in `tree`, or none if the request was ignored.
pub open spec fn answers<S: Clone>(
    accepted: bool,
    tree: Seq<NodeModel<S>>,
    node: int,
    is_cancelled: bool,
    notices: Seq<Notice<S>>,
) -> bool {
    if accepted {
        announces(tree, node, is_cancelled, notices)
    } else {
        notices.len() == 0
    }
}

impl ProgressToken {
    /// The position of the task in its tree.
    pub closed spec fn position(self) -> int {
        self.node as int
    }

    /// The tree holds the task.
    pub open spec fn belongs_to<S>(self, tree: &ProgressTree<S>) -> bool {
        0 <= self.position() < tree@.len()
    }

    /// The position of the task in its tree.
    pub fn node(&self) -> (node: usize)
        ensures
            node == self.position(),
    {
        self.node
    }

    /// Whether the tree holds the task.
    pub fn is_in<S>(&self, tree: &ProgressTree<S>) -> (held: bool)
        ensures
            held == self.belongs_to(tree),
    {
        self.node < tree.len()
    }

    /// Creates a tree of one task, and the token of that task.
    pub fn new<S>(status: S) -> (made: (ProgressTree<S>, ProgressToken))
        ensures
            made.0.wf(),
            made.0@ == root_tree(status),
            made.1.position() == 0,
    {
        (ProgressTree::new(status), ProgressToken { node: 0 })
    }

    /// Creates a task below this one. The weight is the part that the new task plays in the
    /// progress of this one.
    pub fn child<S>(
        &self,
        tree: &mut ProgressTree<S>,
        weight: Binary64,
        status: S,
    ) -> (child: ProgressToken)
        requires
            old(tree).wf(),
            self.belongs_to(old(tree)),
        ensures
            final(tree).wf(),
            final(tree)@ == after_child(old(tree)@, self.position(), weight, status),
            final(tree).cancellation_ids().drop_last() == old(tree).cancellation_ids(),
            child.position() == old(tree)@.len(),
    {
        ProgressToken { node: tree.child(self.node, weight, status) }
    }

    /// Reports a progress, which is brought into the range from zero to one.
    pub fn update_progress<S: Clone>(
        &self,
        tree: &mut ProgressTree<S>,
        progress: Binary64,
    ) -> (notices: Vec<Notice<S>>)
        requires
            old(tree).wf(),
            self.belongs_to(old(tree)),
        ensures
            final(tree).wf(),
            final(tree)@ == after_progress(
                old(tree)@,
                self.position(),
                Progress::Determinate(progress),
            ),
            final(tree).cancellation_ids() == old(tree).cancellation_ids(),
            answers(
                accepts_updates(old(tree)@, self.position()),
                final(tree)@,
                self.position(),
                false,
                notices@,
            ),
    {
        if !tree.set_progress(self.node, Progress::Determinate(progress)) {
            return Vec::new();
        }
        tree.notify_subscribers(self.node, false)
    }

    /// Reports that the progress cannot be measured.
    pub fn update_indeterminate<S: Clone>(&self, tree: &mut ProgressTree<S>) -> (notices: Vec<
        Notice<S>,
    >)
        requires
            old(tree).wf(),
            self.belongs_to(old(tree)),
        ensures
            final(tree).wf(),
            final(tree)@ == after_progress(
                old(tree)@,
                self.position(),
                Progress::Indeterminate,
            ),
            final(tree).cancellation_ids() == old(tree).cancellation_ids(),
            answers(
                accepts_updates(old(tree)@, self.position()),
                final(tree)@,
                self.position(),
                false,
                notices@,
            ),
    {
        if !tree.set_progress(self.node, Progress::Indeterminate) {
            return Vec::new();
        }
        tree.notify_subscribers(self.node, false)
    }

    /// Reports a status message.
    pub fn update_status<S: Clone>(&self, tree: &mut ProgressTree<S>, status: S) -> (notices: Vec<
        Notice<S>,
    >)
        requires
            old(tree).wf(),
            self.belongs_to(old(tree)),
        ensures
            final(tree).wf(),
            final(tree)@ == after_status(old(tree)@, self.position(), status),
            final(tree).cancellation_ids() == old(tree).cancellation_ids(),
            answers(
                accepts_updates(old(tree)@, self.position()),
                final(tree)@,
                self.position(),
                false,
                notices@,
            ),
    {
        if !tree.set_status(self.node, status) {
            return Vec::new();
        }
        tree.notify_subscribers(self.node, false)
    }

    /// Reports a progress, which is brought into the range from zero to one, and a status
    /// message.
    pub fn update<S: Clone>(
        &self,
        tree: &mut ProgressTree<S>,
        progress: Progress,
        status: S,
    ) -> (notices: Vec<Notice<S>>)
        requires
            old(tree).wf(),
            self.belongs_to(old(tree)),
        ensures
            final(tree).wf(),
            final(tree)@ == after_update(old(tree)@, self.position(), progress, status),
            final(tree).cancellation_ids() == old(tree).cancellation_ids(),
            answers(
                accepts_updates(old(tree)@, self.position()),
                final(tree)@,
                self.position(),
                false,
                notices@,
            ),
    {
        if !tree.set_progress(self.node, progress) {
            return Vec::new();
        }
        tree.set_status(self.node, status);
        tree.notify_subscribers(self.node, false)
    }

    /// Marks the task as complete.
    pub fn complete<S: Clone>(&self, tree: &mut ProgressTree<S>) -> (notices: Vec<Notice<S>>)
        requires
            old(tree).wf(),
            self.belongs_to(old(tree)),
        ensures
            final(tree).wf(),
            final(tree)@ == after_complete(old(tree)@, self.position()),
            final(tree).cancellation_ids() == old(tree).cancellation_ids(),
            answers(
                accepts_updates(old(tree)@, self.position()),
                final(tree)@,
                self.position(),
                false,
                notices@,
            ),
    {
        if !tree.set_complete(self.node) {
            return Vec::new();
        }
        tree.notify_subscribers(self.node, false)
    }

    /// An error if the task has been cancelled.
    pub fn check<S>(&self, tree: &ProgressTree<S>) -> (result: Result<(), ProgressError>)
        requires
            tree.wf(),
            self.belongs_to(tree),
        ensures
            result == (if tree@[self.position()].cancelled {
                Err(ProgressError::Cancelled)
            } else {
                Ok(())
            }),
    {
        if self.is_cancelled(tree) {
            Err(ProgressError::Cancelled)
        } else {
            Ok(())
        }
    }

    /// Whether the task has been cancelled.
    pub fn is_cancelled<S>(&self, tree: &ProgressTree<S>) -> (cancelled: bool)
        requires
            tree.wf(),
            self.belongs_to(tree),
        ensures
            cancelled == tree@[self.position()].cancelled,
    {
        tree.is_cancelled(self.node)
    }

    /// Cancels the task and all tasks below it.
    pub fn cancel<S: Clone>(&self, tree: &mut ProgressTree<S>) -> (notices: Vec<Notice<S>>)
        requires
            old(tree).wf(),
            self.belongs_to(old(tree)),
        ensures
            final(tree).wf(),
            final(tree)@ == after_cancel(old(tree)@, self.position()),
            final(tree).cancellation_ids() == old(tree).cancellation_ids(),
            answers(
                !old(tree)@[self.position()].cancelled,
                final(tree)@,
                self.position(),
                true,
                notices@,
            ),
    {
        if tree.is_cancelled(self.node) {
            proof {
                tree.lemma_wf();
                law_cancel_again(tree@, self.position());
            }
            return Vec::new();
        }
        tree.set_cancelled(self.node);
        tree.notify_subscribers(self.node, true)
    }

    /// The progress that the task reports.
    pub fn state<S>(&self, tree: &ProgressTree<S>) -> (progress: Progress)
        requires
            tree.wf(),
            self.belongs_to(tree),
        ensures
            progress == progress_at(tree@, self.position()),
    {
        tree.calculate_progress(self.node)
    }

    /// The status messages from the task down to the deepest active one below it.
    pub fn statuses<S: Clone>(&self, tree: &ProgressTree<S>) -> (statuses: Vec<S>)
        requires
            tree.wf(),
            self.belongs_to(tree),
        ensures
            are_statuses(tree@, self.position(), statuses@),
    {
        tree.get_status_hierarchy(self.node)
    }

    /// A future that waits until the task is cancelled.
    pub fn cancelled<S>(&self, tree: &ProgressTree<S>) -> (future: WaitForCancellationFutureOwned)
        requires
            tree.wf(),
            self.belongs_to(tree),
        ensures
            awaited_identity(future) == tree.cancellation_ids()[self.position()],
    {
        tree.wait_for_cancellation(self.node)
    }

    /// What a wait for the next update returns, by what ended it.
    pub fn updated<S>(&self, event: UpdateEvent<S>) -> (result: Result<
        ProgressUpdate<S>,
        ProgressError,
    >)
        ensures
            result == event.outcome(),
    {
        match event {
            UpdateEvent::Cancelled => Err(ProgressError::Cancelled),
            UpdateEvent::Received(update) => Ok(update),
            UpdateEvent::Closed => Err(ProgressError::Cancelled),
            UpdateEvent::Lagged(_) => Err(ProgressError::Lagged),
        }
    }

    /// Begins a subscription, whose first update tells what the task reports now.
    pub fn subscribe<S: Clone>(&self, tree: &ProgressTree<S>) -> (stream: ProgressStream<S>)
        requires
            tree.wf(),
            self.belongs_to(tree),
        ensures
            stream.first() matches Some(update) && reports(
                tree@,
                self.position(),
                tree@[self.position()].cancelled,
                update,
            ),
    {
        let is_cancelled = self.is_cancelled(tree);
        ProgressStream { first: Some(tree.snapshot(self.node, is_cancelled)) }
    }

    /// What a poll for a change of the task returns: nothing more once the task is cancelled,
    /// otherwise what it reports as soon as a change has been notified.
    pub fn poll_change<S: Clone>(&self, tree: &ProgressTree<S>, notified: bool) -> (poll: ChangePoll<
        S,
    >)
        requires
            tree.wf(),
            self.belongs_to(tree),
        ensures
            tree@[self.position()].cancelled <==> poll is Cancelled,
            !tree@[self.position()].cancelled && !notified <==> poll is Pending,
            poll matches ChangePoll::Changed(update) ==> reports(
                tree@,
                self.position(),
                false,
                update,
            ),
    {
        if self.is_cancelled(tree) {
            return ChangePoll::Cancelled;
        }
        if !notified {
            return ChangePoll::Pending;
        }
        ChangePoll::Changed(tree.snapshot(self.node, false))
    }

    /// A guard that completes the task when it goes.
    pub fn complete_guard(&self) -> (guard: CompleteGuard)
        ensures
            guard.token() == *self,
            guard.armed(),
    {
        CompleteGuard { token: *self, armed: true }
    }
}

/// What a poll for a change of a task returns.
pub enum ChangePoll<S> {
    /// The task has been cancelled.
    Cancelled,
    /// Nothing has changed yet.
    Pending,
    /// Something has changed; this is what the task reports now.
    Changed(ProgressUpdate<S>),
}

/// The part of a subscription that comes before what the channel hands out.
pub struct ProgressStream<S> {
    first: Option<ProgressUpdate<S>>,
}

impl<S> ProgressStream<S> {
    /// The update that has not been handed out yet.
    pub closed spec fn first(self) -> Option<ProgressUpdate<S>> {
        self.first
    }

    /// Hands out the first update, once.
    pub fn take_first(&mut self) -> (update: Option<ProgressUpdate<S>>)
        ensures
            update == old(self).first(),
            final(self).first() is None,
    {
        self.first.take()
    }
}

/// A guard that completes a task when it goes, unless it has been forgotten.
#[must_use]
pub struct CompleteGuard {
    token: ProgressToken,
    armed: bool,
}

impl CompleteGuard {
    /// The task.
    pub closed spec fn token(self) -> ProgressToken {
        self.token
    }

    /// The guard has not been forgotten.
    pub closed spec fn armed(self) -> bool {
        self.armed
    }

    /// Forgets the guard: the task will not be completed.
    pub fn forget(self) -> (guard: CompleteGuard)
        ensures
            guard.token() == self.token(),
            !guard.armed(),
    {
        CompleteGuard { token: self.token, armed: false }
    }

    /// Ends the guard: completes the task unless the guard has been forgotten.
    pub fn drop<S: Clone>(self, tree: &mut ProgressTree<S>) -> (notices: Vec<Notice<S>>)
        requires
            old(tree).wf(),
            self.token().belongs_to(old(tree)),
        ensures
            final(tree).wf(),
            final(tree)@ == (if self.armed() {
                after_complete(old(tree)@, self.token().position())
            } else {
                old(tree)@
            }),
            final(tree).cancellation_ids() == old(tree).cancellation_ids(),
            answers(
                self.armed() && accepts_updates(old(tree)@, self.token().position()),
                final(tree)@,
                self.token().position(),
                false,
                notices@,
            ),
    {
        if !self.armed {
            return Vec::new();
        }
        self.token.complete(tree)
    }
}

} // verus!
