//! A tree of tasks: what each of them has reported, and what follows for those above it.

use crate::binary64::{Binary64, ONE, SIGN};
use crate::cancellation::{
    awaited_identity, cancel_token, child_token, family_identities, is_family, new_token,
    token_flags, token_is_cancelled, token_parents, wait_for_token,
};
use crate::preservation::{
    lemma_cancel_well_formed, lemma_child_well_formed, lemma_complete_well_formed,
    lemma_progress_well_formed, lemma_root_well_formed, lemma_status_well_formed,
};
use crate::model::{
    accepts_updates, active_child, active_child_from, active_path, after_cancel, after_child,
    after_complete, after_progress, after_status, announces, are_statuses, has_parent, lineage,
    lemma_total_stays_indeterminate, parents, progress_at, reports, root_tree, weighted_total, well_formed, NodeModel, Notice,
};
use crate::progress::{Progress, ProgressUpdate};
use tokio_util::sync::{CancellationToken, WaitForCancellationFutureOwned};
use vstd::prelude::*;

verus! {

/// A task.
struct ProgressNode<S> {
    parent: Option<usize>,
    children: Vec<(usize, Binary64)>,
    progress: Progress,
    status: S,
    is_completed: bool,
}

impl<S> ProgressNode<S> {
    spec fn model(self, cancelled: bool) -> NodeModel<S> {
        NodeModel {
            parent: match self.parent {
                Some(parent) => Some(parent as int),
                None => None,
            },
            children: self.children@.map_values(
                |child: (usize, Binary64)| (child.0 as int, child.1),
            ),
            progress: self.progress,
            status: self.status,
            completed: self.is_completed,
            cancelled,
        }
    }

    /// A task that has not begun.
    fn new(parent: Option<usize>, status: S) -> (node: Self)
        ensures
            node.model(false) == (NodeModel {
                parent: match parent {
                    Some(parent) => Some(parent as int),
                    None => None,
                },
                children: Seq::empty(),
                progress: Progress::Determinate(Binary64 { bits: 0 }),
                status,
                completed: false,
                cancelled: false,
            }),
    {
        ProgressNode {
            parent,
            children: Vec::new(),
            progress: Progress::Determinate(Binary64 { bits: 0 }),
            status,
            is_completed: false,
        }
    }
}

/// A tree of tasks.
pub struct ProgressTree<S> {
    nodes: Vec<ProgressNode<S>>,
    tokens: Vec<CancellationToken>,
}

impl<S> View for ProgressTree<S> {
    type V = Seq<NodeModel<S>>;

    closed spec fn view(&self) -> Seq<NodeModel<S>> {
        Seq::new(
            self.nodes@.len(),
            |i: int| self.nodes@[i].model(token_flags(self.tokens@)[i]),
        )
    }
}

impl<S> ProgressTree<S> {
    /// For each task the cancellation flag that is its own. A wait for the cancellation of a task
    /// is a wait for this flag.
    pub closed spec fn cancellation_ids(&self) -> Seq<int> {
        family_identities(self.tokens@)
    }

    /// The tree is well-formed, the cancellation tokens are linked as the tasks are, and no two
    /// tasks share a cancellation flag.
    pub closed spec fn wf(&self) -> bool {
        &&& well_formed(self@)
        &&& self.tokens@.len() == self.nodes@.len()
        &&& is_family(self.tokens@)
        &&& token_parents(self.tokens@) == parents(self@)
        &&& self.cancellation_ids().no_duplicates()
    }

    /// What holds of every tree holds of this one: it is well-formed, and each task has a
    /// cancellation flag of its own.
    pub proof fn lemma_wf(&self)
        requires
            self.wf(),
        ensures
            well_formed(self@),
            self.cancellation_ids().len() == self@.len(),
            self.cancellation_ids().no_duplicates(),
    {
    }

    /// The number of tasks.
    pub fn len(&self) -> (len: usize)
        ensures
            len == self@.len(),
    {
        self.nodes.len()
    }

    /// The tree of a single task.
    pub fn new(status: S) -> (tree: Self)
        ensures
            tree.wf(),
            tree@ == root_tree(status),
    {
        let mut nodes: Vec<ProgressNode<S>> = Vec::new();
        nodes.push(ProgressNode::new(None, status));
        let tree = ProgressTree { nodes, tokens: new_token() };
        proof {
            assert(tree@ =~= root_tree(status));
            lemma_root_well_formed(status);
        }
        assert(token_parents(tree.tokens@) == parents(tree@));
        tree
    }

    /// Adds a task below `parent`.
    pub fn child(&mut self, parent: usize, weight: Binary64, status: S) -> (child: usize)
        requires
            old(self).wf(),
            parent < old(self)@.len(),
        ensures
            final(self).wf(),
            final(self)@ == after_child(old(self)@, parent as int, weight, status),
            final(self).cancellation_ids().drop_last() == old(self).cancellation_ids(),
            child == old(self)@.len(),
    {
        let child: usize = self.nodes.len();
        child_token(&mut self.tokens, parent);
        self.nodes[parent].children.push((child, weight));
        self.nodes.push(ProgressNode::new(Some(parent), status));
        proof {
            let before = old(self)@;
            let after = after_child(before, parent as int, weight, status);
            assert forall|i: int| 0 <= i < after.len() implies self@[i] == after[i] by {
                assert(self@[i].children =~= after[i].children);
            }
            assert(self@ =~= after);
            lemma_child_well_formed(before, parent as int, weight, status);
            assert(parents(after) =~= parents(before).push(Some(parent as int)));
            let ids = self.cancellation_ids();
            assert(ids.drop_last().push(ids.last()) =~= ids);
        }
        child
    }

    /// The progress that a task reports.
    pub fn calculate_progress(&self, node: usize) -> (progress: Progress)
        requires
            self.wf(),
            node < self@.len(),
        ensures
            progress == progress_at(self@, node as int),
        decreases self@.len() - node,
    {
        let own = &self.nodes[node];
        if matches!(own.progress, Progress::Indeterminate) || own.is_completed
            || own.children.len() == 0 {
            return own.progress;
        }
        let mut total = Binary64 { bits: SIGN };
        let mut k: usize = 0;
        while k < own.children.len()
            invariant
                self.wf(),
                node < self@.len(),
                own == self.nodes@[node as int],
                !(own.progress is Indeterminate),
                !own.is_completed,
                k <= own.children@.len(),
                weighted_total(self@, node as int, k as nat) == Progress::Determinate(total),
            decreases own.children@.len() - k,
        {
            let (child, weight) = own.children[k];
            assert(self@[node as int].children[k as int] == (child as int, weight));
            match self.calculate_progress(child) {
                Progress::Determinate(number) => {
                    total = total.plus(number.times(weight));
                },
                Progress::Indeterminate => {
                    proof {
                        lemma_total_stays_indeterminate(
                            self@,
                            node as int,
                            (k + 1) as nat,
                            own.children@.len(),
                        );
                    }
                    return Progress::Indeterminate;
                },
            }
            k = k + 1;
        }
        Progress::Determinate(total)
    }

    /// The status messages from a task down to the deepest active one below it.
    pub fn get_status_hierarchy(&self, node: usize) -> (statuses: Vec<S>) where S: Clone
        requires
            self.wf(),
            node < self@.len(),
        ensures
            are_statuses(self@, node as int, statuses@),
        decreases self@.len() - node,
    {
        let own = &self.nodes[node];
        let mut statuses: Vec<S> = Vec::new();
        statuses.push(own.status.clone());
        let mut k: usize = 0;
        while k < own.children.len()
            invariant
                self.wf(),
                node < self@.len(),
                own == self.nodes@[node as int],
                k <= own.children@.len(),
                active_child(self@, node as int) == active_child_from(
                    self@,
                    node as int,
                    k as nat,
                ),
                statuses@.len() == 1,
                cloned(self@[node as int].status, statuses@[0]),
            decreases own.children@.len() - k,
        {
            let child: usize = own.children[k].0;
            assert(self@[node as int].children[k as int].0 == child);
            if !self.nodes[child].is_completed {
                let mut below = self.get_status_hierarchy(child);
                let ghost deeper = below@;
                statuses.append(&mut below);
                proof {
                    let path = active_path(self@, node as int);
                    assert(path == seq![node as int] + active_path(self@, child as int));
                    assert forall|j: int| #![trigger statuses@[j]]
                        0 <= j < path.len() implies cloned(
                        self@[path[j]].status,
                        statuses@[j],
                    ) by {
                        if j > 0 {
                            assert(statuses@[j] == deeper[j - 1]);
                        }
                    }
                }
                return statuses;
            }
            k = k + 1;
        }
        statuses
    }

    /// What a task reports at this moment.
    pub fn snapshot(&self, node: usize, is_cancelled: bool) -> (update: ProgressUpdate<S>) where
        S: Clone,

        requires
            self.wf(),
            node < self@.len(),
        ensures
            reports(self@, node as int, is_cancelled, update),
    {
        ProgressUpdate {
            progress: self.calculate_progress(node),
            statuses: self.get_status_hierarchy(node),
            is_cancelled,
        }
    }

    /// The updates that the subscribers of a task and of all tasks above it are to receive.
    pub fn notify_subscribers(&self, node: usize, is_cancelled: bool) -> (notices: Vec<
        Notice<S>,
    >) where S: Clone
        requires
            self.wf(),
            node < self@.len(),
        ensures
            announces(self@, node as int, is_cancelled, notices@),
        decreases node,
    {
        let mut notices: Vec<Notice<S>> = Vec::new();
        notices.push(Notice { node, update: self.snapshot(node, is_cancelled) });
        match self.nodes[node].parent {
            Some(parent) => {
                proof {
                    if node > 0 {
                        assert(has_parent(self@, node as int));
                    }
                    assert(self@[node as int].parent == Some(parent as int));
                }
                let mut above = self.notify_subscribers(parent, false);
                let ghost higher = above@;
                notices.append(&mut above);
                proof {
                    let line = lineage(self@, node as int);
                    assert(line == seq![node as int] + lineage(self@, parent as int));
                    assert forall|k: int| #![trigger notices@[k]] 0 <= k < line.len() implies {
                        &&& notices@[k].node == line[k]
                        &&& reports(self@, line[k], is_cancelled && k == 0, notices@[k].update)
                    } by {
                        if k > 0 {
                            assert(notices@[k] == higher[k - 1]);
                        }
                    }
                }
            },
            None => {},
        }
        notices
    }

    /// Whether a task has been cancelled.
    pub fn is_cancelled(&self, node: usize) -> (cancelled: bool)
        requires
            self.wf(),
            node < self@.len(),
        ensures
            cancelled == self@[node as int].cancelled,
    {
        token_is_cancelled(&self.tokens, node)
    }

    /// A future that waits until a task is cancelled.
    pub fn wait_for_cancellation(&self, node: usize) -> (future: WaitForCancellationFutureOwned)
        requires
            self.wf(),
            node < self@.len(),
        ensures
            awaited_identity(future) == self.cancellation_ids()[node as int],
    {
        wait_for_token(&self.tokens, node)
    }

    /// Whether a task takes updates.
    fn is_open(&self, node: usize) -> (open: bool)
        requires
            self.wf(),
            node < self@.len(),
        ensures
            open == accepts_updates(self@, node as int),
    {
        !self.is_cancelled(node) && !self.nodes[node].is_completed
    }

    /// Records a progress, unless the task takes no updates any more.
    pub(crate) fn set_progress(&mut self, node: usize, progress: Progress) -> (accepted: bool)
        requires
            old(self).wf(),
            node < old(self)@.len(),
        ensures
            final(self).wf(),
            final(self)@ == after_progress(old(self)@, node as int, progress),
            final(self).cancellation_ids() == old(self).cancellation_ids(),
            accepted == accepts_updates(old(self)@, node as int),
    {
        if !self.is_open(node) {
            return false;
        }
        self.nodes[node].progress = progress.clamp();
        proof {
            let before = old(self)@;
            let after = after_progress(before, node as int, progress);
            assert(self@ =~= after);
            lemma_progress_well_formed(before, node as int, progress);
            assert(parents(after) =~= parents(before));
        }
        true
    }

    /// Records a status message, unless the task takes no updates any more.
    pub(crate) fn set_status(&mut self, node: usize, status: S) -> (accepted: bool)
        requires
            old(self).wf(),
            node < old(self)@.len(),
        ensures
            final(self).wf(),
            final(self)@ == after_status(old(self)@, node as int, status),
            final(self).cancellation_ids() == old(self).cancellation_ids(),
            accepted == accepts_updates(old(self)@, node as int),
    {
        if !self.is_open(node) {
            return false;
        }
        self.nodes[node].status = status;
        proof {
            let before = old(self)@;
            let after = after_status(before, node as int, status);
            assert(self@ =~= after);
            lemma_status_well_formed(before, node as int, status);
            assert(parents(after) =~= parents(before));
        }
        true
    }

    /// Marks a task as complete, unless it takes no updates any more.
    pub(crate) fn set_complete(&mut self, node: usize) -> (accepted: bool)
        requires
            old(self).wf(),
            node < old(self)@.len(),
        ensures
            final(self).wf(),
            final(self)@ == after_complete(old(self)@, node as int),
            final(self).cancellation_ids() == old(self).cancellation_ids(),
            accepted == accepts_updates(old(self)@, node as int),
    {
        if !self.is_open(node) {
            return false;
        }
        self.nodes[node].is_completed = true;
        self.nodes[node].progress = Progress::Determinate(Binary64 { bits: ONE });
        proof {
            let before = old(self)@;
            let after = after_complete(before, node as int);
            assert(self@ =~= after);
            lemma_complete_well_formed(before, node as int);
            assert(parents(after) =~= parents(before));
        }
        true
    }

    /// Cancels a task and all tasks below it.
    pub(crate) fn set_cancelled(&mut self, node: usize)
        requires
            old(self).wf(),
            node < old(self)@.len(),
        ensures
            final(self).wf(),
            final(self)@ == after_cancel(old(self)@, node as int),
            final(self).cancellation_ids() == old(self).cancellation_ids(),
    {
        cancel_token(&mut self.tokens, node);
        proof {
            let before = old(self)@;
            let after = after_cancel(before, node as int);
            assert(self@ =~= after);
            lemma_cancel_well_formed(before, node as int);
        }
    }
}

} // verus!
