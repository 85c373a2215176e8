//! Tokens and the trees behind them.

use progress_token::{
    most_specific, Binary64, ChangePoll, Notice, Progress, ProgressError, ProgressStream, ProgressToken,
    ProgressTree, ProgressUpdate, UpdateEvent, UPDATE_BUFFER,
};
use std::sync::{Arc, Mutex};
use tokio::sync::broadcast;

fn number(value: f64) -> Binary64 {
    Binary64::from_bits(value.to_bits())
}

fn value(progress: Progress) -> f64 {
    match progress.as_f64() {
        Some(number) => f64::from_bits(number.to_bits()),
        None => panic!("the progress is indeterminate"),
    }
}

fn near(progress: Progress, expected: f64) -> bool {
    matches!(progress, Progress::Determinate(_)) && (value(progress) - expected).abs() < f64::EPSILON
}

fn texts(statuses: &Vec<&str>) -> Vec<String> {
    statuses.iter().map(|status| status.to_string()).collect()
}

// helper function to create a test hierarchy
fn create_test_hierarchy() -> (
    ProgressTree<String>,
    ProgressToken,
    ProgressToken,
    ProgressToken,
) {
    let (mut tree, root) = ProgressToken::new("root".to_string());
    let child1 = root.child(&mut tree, number(0.6), "child1".to_string());
    let child2 = root.child(&mut tree, number(0.4), "child2".to_string());
    (tree, root, child1, child2)
}

/// A subscriber: what the subscription begins with, then what the channel hands out.
struct Subscriber {
    begun: ProgressStream<String>,
    receiver: broadcast::Receiver<ProgressUpdate<String>>,
}

impl Subscriber {
    fn next(&mut self) -> Option<ProgressUpdate<String>> {
        match self.begun.take_first() {
            Some(first) => Some(first),
            None => self.receiver.try_recv().ok(),
        }
    }
}

/// The channel of one task.
struct Channel {
    node: usize,
    sender: broadcast::Sender<ProgressUpdate<String>>,
}

impl Channel {
    fn new(token: &ProgressToken) -> Channel {
        Channel {
            node: token.node(),
            sender: broadcast::channel(UPDATE_BUFFER).0,
        }
    }

    fn subscribe(&self, tree: &ProgressTree<String>, token: &ProgressToken) -> Subscriber {
        Subscriber {
            begun: token.subscribe(tree),
            receiver: self.sender.subscribe(),
        }
    }

    fn deliver(&self, notices: Vec<Notice<String>>) {
        for notice in notices {
            if notice.node == self.node {
                let _ = self.sender.send(notice.update);
            }
        }
    }
}

#[test]
fn test_basic_progress_updates() {
    let (mut tree, token) = ProgressToken::new("test".to_string());
    token.update_progress(&mut tree, number(0.5));
    assert!(near(token.state(&tree), 0.5));

    token.update_progress(&mut tree, number(1.0));
    assert!(near(token.state(&tree), 1.0));

    // test progress clamping
    token.update_progress(&mut tree, number(1.5));
    assert!(near(token.state(&tree), 1.0));

    token.update_progress(&mut tree, number(-0.5));
    assert!(near(token.state(&tree), 0.0));
}

#[test]
fn test_hierarchical_progress() {
    let (mut tree, root, child1, child2) = create_test_hierarchy();

    // update children progress
    child1.update_progress(&mut tree, number(0.5));
    child2.update_progress(&mut tree, number(0.5));

    // root progress should be weighted average: 0.5 * 0.6 + 0.5 * 0.4 = 0.5
    assert!(near(root.state(&tree), 0.5));

    child1.update_progress(&mut tree, number(1.0));
    // root progress should now be: 1.0 * 0.6 + 0.5 * 0.4 = 0.8
    assert!(near(root.state(&tree), 0.8));
}

#[test]
fn test_indeterminate_state() {
    let (mut tree, root, child1, child2) = create_test_hierarchy();

    // set one child to indeterminate
    child1.update_indeterminate(&mut tree);
    child2.update_progress(&mut tree, number(0.5));

    // root should be indeterminate
    assert!(matches!(root.state(&tree), Progress::Indeterminate));

    // set child back to determinate
    child1.update_progress(&mut tree, number(0.5));
    assert!(matches!(root.state(&tree), Progress::Determinate(_)));
}

#[test]
fn test_status_updates() {
    let (mut tree, token) = ProgressToken::new("initial status".to_string());
    let statuses = token.statuses(&tree);
    assert_eq!(statuses, vec!["initial status".to_string()]);

    token.update_status(&mut tree, "updated status".to_string());
    let statuses = token.statuses(&tree);
    assert_eq!(statuses, vec!["updated status".to_string()]);
}

#[test]
fn test_status_hierarchy() {
    let (mut tree, root, child1, _) = create_test_hierarchy();

    let statuses = root.statuses(&tree);
    assert_eq!(statuses, vec!["root".to_string(), "child1".to_string()]);

    child1.update_status(&mut tree, "updated child1".to_string());
    let statuses = root.statuses(&tree);
    assert_eq!(
        statuses,
        vec!["root".to_string(), "updated child1".to_string()]
    );
}

#[test]
fn test_cancellation() {
    let (mut tree, root, child1, child2) = create_test_hierarchy();

    // cancel root
    root.cancel(&mut tree);

    assert!(root.is_cancelled(&tree));
    assert!(child1.is_cancelled(&tree));
    assert!(child2.is_cancelled(&tree));

    // updates should not be processed after cancellation
    child1.update_progress(&mut tree, number(0.5));
    assert!(near(child1.state(&tree), 0.0));
}

#[test]
fn test_complete_guard() {
    let (mut tree, token) = ProgressToken::new("test".to_string());

    {
        let guard = token.complete_guard();
        token.update_progress(&mut tree, number(0.5));
        assert!(near(token.state(&tree), 0.5));
        guard.drop(&mut tree);
    } // the guard ends here, token should be completed

    // token should be completed and at progress 1.0
    assert!(near(token.state(&tree), 1.0));

    // updates after completion should be ignored
    token.update_progress(&mut tree, number(0.5));
    assert!(near(token.state(&tree), 1.0));

    // test forget
    let (mut tree, token) = ProgressToken::new("test2".to_string());
    {
        let guard = token.complete_guard();
        token.update_progress(&mut tree, number(0.5));
        let forgotten = guard.forget(); // prevent completion
        assert_eq!(forgotten.drop(&mut tree).len(), 0);
    }

    // token should still be at 0.5 since guard was forgotten
    assert!(near(token.state(&tree), 0.5));
}

#[test]
fn test_subscription() {
    let (mut tree, token) = ProgressToken::new("test".to_string());
    let channel = Channel::new(&token);
    let mut subscription = channel.subscribe(&tree, &token);

    // initial update
    let update = subscription.next().unwrap();
    assert_eq!(update.status(), &"test".to_string());
    assert!(near(update.progress, 0.0));

    // progress update
    channel.deliver(token.update_progress(&mut tree, number(0.5)));
    let update = subscription.next().unwrap();
    assert!(near(update.progress, 0.5));
}

#[test]
fn test_multiple_subscribers() {
    let (mut tree, token) = ProgressToken::new("test".to_string());
    let channel = Channel::new(&token);
    let mut sub1 = channel.subscribe(&tree, &token);
    let mut sub2 = channel.subscribe(&tree, &token);

    // Skip initial updates
    sub1.next().unwrap();
    sub2.next().unwrap();

    // both subscribers should receive updates
    channel.deliver(token.update_progress(&mut tree, number(0.5)));

    let update1 = sub1.next().unwrap();
    let update2 = sub2.next().unwrap();

    assert!(near(update1.progress, 0.5), "{update1:?}");
    assert!(near(update2.progress, 0.5), "{update2:?}");
}

async fn delayed_update(tree: Arc<Mutex<ProgressTree<String>>>, token: ProgressToken, i: u32) {
    for _ in 0..i * 10 {
        tokio::task::yield_now().await;
    }
    token.update_progress(&mut tree.lock().unwrap(), number(i as f64 / 10.0));
}

#[test]
fn test_concurrent_updates() {
    let (tree, token) = ProgressToken::new("test".to_string());
    let tree = Arc::new(Mutex::new(tree));
    let mut handles = vec![];

    // run multiple tasks updating the same token
    for i in 0..10 {
        handles.push(delayed_update(tree.clone(), token, i));
    }

    // wait for all tasks to complete
    futures::executor::block_on(futures::future::join_all(handles));

    // final progress should be from the last update (0.9)
    assert!(near(token.state(&tree.lock().unwrap()), 0.9));
}

#[test]
fn test_edge_cases() {
    // single node tree
    let (mut tree, token) = ProgressToken::new("single".to_string());
    token.update_progress(&mut tree, number(0.5));
    assert!(near(token.state(&tree), 0.5));

    // deep hierarchy
    let (mut tree, root) = ProgressToken::new("root".to_string());
    let mut current = root;
    for i in 0..10 {
        current = current.child(&mut tree, number(1.0), format!("child{}", i));
    }

    // update leaf node
    current.update_progress(&mut tree, number(1.0));
    // progress should propagate to root
    assert!(near(current.state(&tree), 1.0));
    assert!(near(root.state(&tree), 1.0));
    assert_eq!(root.statuses(&tree).len(), 11);
}

#[test]
fn weighted_children_add_up() {
    let (mut tree, root) = ProgressToken::new("Main task".to_string());
    let process = root.child(&mut tree, number(0.7), "Processing".to_string());
    let cleanup = root.child(&mut tree, number(0.3), "Cleanup".to_string());

    process.update_progress(&mut tree, number(0.5));
    assert!(near(root.state(&tree), 0.35));
    cleanup.update_progress(&mut tree, number(1.0));
    assert!(near(root.state(&tree), 0.65));
    let sum: f64 = vec![0.5 * 0.7, 1.0 * 0.3].iter().sum();
    assert_eq!(value(root.state(&tree)).to_bits(), sum.to_bits());

    process.complete(&mut tree);
    cleanup.complete(&mut tree);
    assert!(near(process.state(&tree), 1.0));
    assert!(near(cleanup.state(&tree), 1.0));
    assert!(near(root.state(&tree), 1.0));
}

#[test]
fn many_children_add_up_in_order() {
    let (mut tree, root) = ProgressToken::new("all".to_string());
    let mut terms: Vec<f64> = Vec::new();
    for i in 0..10 {
        let weight = 0.1 * (i as f64);
        let part = 1.0 / (i as f64 + 3.0);
        let child = root.child(&mut tree, number(weight), "part".to_string());
        child.update_progress(&mut tree, number(part));
        terms.push(part * weight);
    }
    let sum: f64 = terms.iter().sum();
    assert_eq!(value(root.state(&tree)).to_bits(), sum.to_bits());
}

#[test]
fn negative_weights_add_up_to_negative_zero() {
    let (mut tree, root) = ProgressToken::new("all".to_string());
    root.child(&mut tree, number(-1.0), "part".to_string());
    root.child(&mut tree, number(-2.0), "part".to_string());
    let sum: f64 = vec![0.0 * -1.0, 0.0 * -2.0].iter().sum();
    assert_eq!(value(root.state(&tree)).to_bits(), sum.to_bits());
    assert_eq!(sum.to_bits(), (-0.0f64).to_bits());
}

#[test]
fn weights_that_are_not_numbers_spoil_the_sum() {
    let (mut tree, root) = ProgressToken::new("all".to_string());
    root.child(&mut tree, number(f64::NAN), "part".to_string());
    assert!(value(root.state(&tree)).is_nan());
}

#[test]
fn every_report_is_brought_into_the_unit_range() {
    let (mut tree, token) = ProgressToken::new("a".to_string());
    token.update(&mut tree, Progress::Determinate(number(7.0)), "b".to_string());
    assert_eq!(value(token.state(&tree)), 1.0);
    assert_eq!(token.statuses(&tree), texts(&vec!["b"]));
    token.update(&mut tree, Progress::Determinate(number(-7.0)), "c".to_string());
    assert_eq!(value(token.state(&tree)), 0.0);
    token.update(&mut tree, Progress::Determinate(number(0.25)), "d".to_string());
    assert_eq!(value(token.state(&tree)), 0.25);
    token.update_progress(&mut tree, number(f64::NAN));
    assert_eq!(value(token.state(&tree)), 0.0);
    token.update(&mut tree, Progress::Indeterminate, "e".to_string());
    assert_eq!(token.state(&tree), Progress::Indeterminate);
    assert_eq!(token.statuses(&tree), texts(&vec!["e"]));
}

#[test]
fn progress_grows_with_the_children() {
    let (mut tree, root, child1, child2) = create_test_hierarchy();
    let mut last: f64 = value(root.state(&tree));
    for i in 0..11 {
        child1.update_progress(&mut tree, number(i as f64 / 10.0));
        child2.update_progress(&mut tree, number(i as f64 / 20.0));
        let now: f64 = value(root.state(&tree));
        assert!(last <= now);
        last = now;
    }
    assert!((last - 0.8).abs() < f64::EPSILON);
}

#[test]
fn new_children_begin_at_zero() {
    let (mut tree, root) = ProgressToken::new("root".to_string());
    root.update_progress(&mut tree, number(0.5));
    assert!(near(root.state(&tree), 0.5));
    let child = root.child(&mut tree, number(1.0), "child".to_string());
    assert!(near(child.state(&tree), 0.0));
    assert_eq!(child.statuses(&tree), texts(&vec!["child"]));
    assert!(near(root.state(&tree), 0.0));
    // A task with children does not report its own number.
    root.update_progress(&mut tree, number(0.75));
    assert!(near(root.state(&tree), 0.0));
}

#[test]
fn completed_tasks_ignore_reports() {
    let (mut tree, token) = ProgressToken::new("task".to_string());
    assert_eq!(token.complete(&mut tree).len(), 1);
    assert_eq!(token.update_progress(&mut tree, number(0.5)).len(), 0);
    assert_eq!(token.update_status(&mut tree, "update".to_string()).len(), 0);
    assert_eq!(token.update_indeterminate(&mut tree).len(), 0);
    assert_eq!(
        token
            .update(&mut tree, Progress::Indeterminate, "update".to_string())
            .len(),
        0
    );
    assert_eq!(token.complete(&mut tree).len(), 0);
    assert_eq!(value(token.state(&tree)), 1.0);
    assert_eq!(token.statuses(&tree), texts(&vec!["task"]));
    assert!(token.check(&tree).is_ok());
}

#[test]
fn cancelled_tasks_ignore_reports() {
    let (mut tree, token) = ProgressToken::new("task".to_string());
    token.update_progress(&mut tree, number(0.25));
    assert!(token.check(&tree).is_ok());
    assert_eq!(token.cancel(&mut tree).len(), 1);
    assert_eq!(token.update_progress(&mut tree, number(0.5)).len(), 0);
    assert_eq!(token.update_status(&mut tree, "update".to_string()).len(), 0);
    assert_eq!(token.update_indeterminate(&mut tree).len(), 0);
    assert_eq!(token.complete(&mut tree).len(), 0);
    assert_eq!(token.cancel(&mut tree).len(), 0);
    assert_eq!(value(token.state(&tree)), 0.25);
    assert_eq!(token.statuses(&tree), texts(&vec!["task"]));
    assert_eq!(token.check(&tree), Err(ProgressError::Cancelled));
}

#[test]
fn completion_is_reported_whatever_the_children_report() {
    let (mut tree, root) = ProgressToken::new("root".to_string());
    let child = root.child(&mut tree, number(1.0), "child".to_string());
    child.update_progress(&mut tree, number(0.5));
    assert_eq!(value(root.state(&tree)), 0.5);
    root.complete(&mut tree);
    assert_eq!(value(root.state(&tree)), 1.0);
    child.update_indeterminate(&mut tree);
    assert_eq!(value(root.state(&tree)), 1.0);
    assert_eq!(child.state(&tree), Progress::Indeterminate);
}

#[test]
fn indeterminate_children_count_until_they_are_completed() {
    let (mut tree, root, child1, child2) = create_test_hierarchy();
    let grandchild = child1.child(&mut tree, number(1.0), "grandchild".to_string());
    child2.update_progress(&mut tree, number(0.5));
    grandchild.update_indeterminate(&mut tree);
    assert_eq!(child1.state(&tree), Progress::Indeterminate);
    assert_eq!(root.state(&tree), Progress::Indeterminate);
    child1.complete(&mut tree);
    assert!(near(root.state(&tree), 0.8));
    root.update_indeterminate(&mut tree);
    assert_eq!(root.state(&tree), Progress::Indeterminate);
}

#[test]
fn statuses_follow_the_first_active_child() {
    let (mut tree, root, child1, child2) = create_test_hierarchy();
    let deep = child2.child(&mut tree, number(1.0), "deep".to_string());
    assert_eq!(root.statuses(&tree), texts(&vec!["root", "child1"]));
    child1.complete(&mut tree);
    assert_eq!(root.statuses(&tree), texts(&vec!["root", "child2", "deep"]));
    assert_eq!(child2.statuses(&tree), texts(&vec!["child2", "deep"]));
    deep.complete(&mut tree);
    assert_eq!(root.statuses(&tree), texts(&vec!["root", "child2"]));
    child2.complete(&mut tree);
    assert_eq!(root.statuses(&tree), texts(&vec!["root"]));
    // A cancelled child is still the active one.
    let late = root.child(&mut tree, number(0.0), "late".to_string());
    late.cancel(&mut tree);
    assert_eq!(root.statuses(&tree), texts(&vec!["root", "late"]));
}

#[test]
fn notices_go_up_to_the_root() {
    let (mut tree, root, child1, child2) = create_test_hierarchy();
    let deep = child1.child(&mut tree, number(1.0), "deep".to_string());
    let notices = deep.update_progress(&mut tree, number(0.5));
    let nodes: Vec<usize> = notices.iter().map(|notice| notice.node).collect();
    assert_eq!(nodes, vec![deep.node(), child1.node(), root.node()]);
    assert!(near(notices[0].update.progress, 0.5));
    assert!(near(notices[1].update.progress, 0.5));
    assert!(near(notices[2].update.progress, 0.3));
    assert_eq!(notices[0].update.statuses, texts(&vec!["deep"]));
    assert_eq!(notices[1].update.statuses, texts(&vec!["child1", "deep"]));
    assert_eq!(notices[2].update.statuses, texts(&vec!["root", "child1", "deep"]));
    assert_eq!(notices[2].update.status(), "deep");
    assert_eq!(most_specific(&notices[1].update.statuses), "deep");

    // Only the cancelled task itself is told that it is cancelled.
    let notices = child2.cancel(&mut tree);
    assert_eq!(notices.len(), 2);
    assert!(notices[0].update.is_cancelled);
    assert!(!notices[1].update.is_cancelled);
    assert_eq!(notices[1].node, root.node());

    // Other tasks report what they did before.
    assert!(near(deep.state(&tree), 0.5));
    assert!(near(root.state(&tree), 0.3));
}

#[test]
fn cancellation_goes_down_and_not_up() {
    let (mut tree, root, child1, child2) = create_test_hierarchy();
    let deep = child1.child(&mut tree, number(1.0), "deep".to_string());
    child1.cancel(&mut tree);
    assert!(child1.is_cancelled(&tree));
    assert!(deep.is_cancelled(&tree));
    assert!(!root.is_cancelled(&tree));
    assert!(!child2.is_cancelled(&tree));
    // A task below a cancelled one is cancelled from the start.
    let late = deep.child(&mut tree, number(1.0), "late".to_string());
    assert!(late.is_cancelled(&tree));
    // What is below a cancelled task tells nobody anything any more.
    assert_eq!(deep.update_progress(&mut tree, number(1.0)).len(), 0);
    assert_eq!(deep.cancel(&mut tree).len(), 0);
    assert_eq!(child2.update_progress(&mut tree, number(1.0)).len(), 2);
    // A completed task can still be cancelled.
    child2.complete(&mut tree);
    assert_eq!(child2.cancel(&mut tree).len(), 2);
    assert!(child2.is_cancelled(&tree));
}

#[test]
fn a_wait_for_cancellation_ends_with_it() {
    let (mut tree, root, child1, child2) = create_test_hierarchy();
    let mut above = Box::pin(root.cancelled(&tree));
    let mut wait = Box::pin(child1.cancelled(&tree));
    let mut other = Box::pin(child2.cancelled(&tree));
    let waker = futures::task::noop_waker();
    let mut context = std::task::Context::from_waker(&waker);
    assert!(std::future::Future::poll(wait.as_mut(), &mut context).is_pending());
    assert!(std::future::Future::poll(other.as_mut(), &mut context).is_pending());
    child1.cancel(&mut tree);
    assert!(std::future::Future::poll(wait.as_mut(), &mut context).is_ready());
    assert!(std::future::Future::poll(other.as_mut(), &mut context).is_pending());
    assert!(std::future::Future::poll(above.as_mut(), &mut context).is_pending());
    root.cancel(&mut tree);
    assert!(std::future::Future::poll(other.as_mut(), &mut context).is_ready());
    futures::executor::block_on(above);
}

#[test]
fn waits_outlast_what_happens_to_the_tree() {
    let (mut tree, root, child1, child2) = create_test_hierarchy();
    let mut wait = Box::pin(child1.cancelled(&tree));
    let waker = futures::task::noop_waker();
    let mut context = std::task::Context::from_waker(&waker);
    child1.update_progress(&mut tree, number(0.5));
    child1.update_status(&mut tree, "half".to_string());
    child1.update(&mut tree, Progress::Indeterminate, "more".to_string());
    let late = child1.child(&mut tree, number(1.0), "late".to_string());
    root.child(&mut tree, number(1.0), "beside".to_string());
    late.complete(&mut tree);
    child1.complete(&mut tree);
    child2.cancel(&mut tree);
    late.cancel(&mut tree);
    assert!(std::future::Future::poll(wait.as_mut(), &mut context).is_pending());
    root.cancel(&mut tree);
    assert!(std::future::Future::poll(wait.as_mut(), &mut context).is_ready());
}

#[test]
fn reported_progress_stays_within_the_unit_range() {
    let (mut tree, root, child1, child2) = create_test_hierarchy();
    let third = child2.child(&mut tree, number(0.75), "third".to_string());
    let fourth = child2.child(&mut tree, number(0.25), "fourth".to_string());
    let values: Vec<f64> = vec![-3.0, 0.0, 0.1, 0.9999999999999999, 1.0, 8.0];
    for a in &values {
        for b in &values {
            child1.update_progress(&mut tree, number(*a));
            third.update_progress(&mut tree, number(*b));
            fourth.update_progress(&mut tree, number(*a));
            for token in vec![root, child1, child2, third, fourth] {
                let reported: f64 = value(token.state(&tree));
                assert!(0.0 <= reported && reported <= 1.0);
            }
        }
    }
    assert_eq!(value(root.state(&tree)), 1.0);
}

#[test]
fn raising_a_leaf_lowers_no_ancestor() {
    let (mut tree, root, child1, child2) = create_test_hierarchy();
    let leaf = child1.child(&mut tree, number(0.3), "leaf".to_string());
    let beside = child1.child(&mut tree, number(5.0), "beside".to_string());
    beside.update_progress(&mut tree, number(0.7));
    let tokens: Vec<ProgressToken> = vec![root, child1, child2, leaf, beside];
    let mut last: Vec<f64> = tokens.iter().map(|token| value(token.state(&tree))).collect();
    for i in 0..21 {
        leaf.update_progress(&mut tree, number(i as f64 / 20.0));
        let now: Vec<f64> = tokens.iter().map(|token| value(token.state(&tree))).collect();
        for k in 0..tokens.len() {
            assert!(last[k] <= now[k]);
        }
        last = now;
    }
    assert!(near(leaf.state(&tree), 1.0));
}

#[test]
fn only_cancelled_tasks_are_told_so() {
    let (mut tree, root, child1, child2) = create_test_hierarchy();
    let mut notices = child1.update_progress(&mut tree, number(0.5));
    notices.append(&mut child1.complete(&mut tree));
    notices.append(&mut child1.cancel(&mut tree));
    notices.append(&mut child2.update_status(&mut tree, "still here".to_string()));
    let told: Vec<usize> = notices
        .iter()
        .filter(|notice| notice.update.is_cancelled)
        .map(|notice| notice.node)
        .collect();
    assert_eq!(told, vec![child1.node()]);
    assert!(child1.is_cancelled(&tree));
    assert!(!root.is_cancelled(&tree));
    for notice in notices {
        let node = notice.node;
        let received = root.updated(UpdateEvent::Received(notice.update)).unwrap();
        assert!(!received.is_cancelled || node == child1.node());
    }
}

#[test]
fn channels_tell_of_a_cancellation_only_once_it_has_happened() {
    let (mut tree, root, child1, child2) = create_test_hierarchy();
    let above = Channel::new(&root);
    let channel = Channel::new(&child1);
    let mut root_receiver = above.sender.subscribe();
    let mut receiver = channel.sender.subscribe();
    for i in 0..3 {
        channel.deliver(child1.update_progress(&mut tree, number(i as f64 / 4.0)));
        above.deliver(child2.update_progress(&mut tree, number(i as f64 / 4.0)));
    }
    above.deliver(child2.cancel(&mut tree));
    channel.deliver(child1.complete(&mut tree));
    for _ in 0..4 {
        let event = UpdateEvent::Received(receiver.try_recv().unwrap());
        assert!(!child1.updated(event).unwrap().is_cancelled);
    }
    assert!(!child1.is_cancelled(&tree));
    channel.deliver(child1.cancel(&mut tree));
    let event = UpdateEvent::Received(receiver.try_recv().unwrap());
    assert!(child1.updated(event).unwrap().is_cancelled);
    assert!(child1.is_cancelled(&tree));
    // The root is told of what was cancelled below it, but is not cancelled itself.
    for _ in 0..4 {
        let event = UpdateEvent::Received(root_receiver.try_recv().unwrap());
        assert!(!root.updated(event).unwrap().is_cancelled);
    }
    assert!(root_receiver.try_recv().is_err());
    assert!(!root.is_cancelled(&tree));
}

#[test]
fn subscriptions_begin_with_the_present() {
    let (mut tree, root, child1, _) = create_test_hierarchy();
    child1.update_progress(&mut tree, number(0.5));
    let mut stream = root.subscribe(&tree);
    let first = stream.take_first().unwrap();
    assert!(near(first.progress, 0.3));
    assert_eq!(first.statuses, texts(&vec!["root", "child1"]));
    assert!(!first.is_cancelled);
    assert!(stream.take_first().is_none());
    root.cancel(&mut tree);
    assert!(root.subscribe(&tree).take_first().unwrap().is_cancelled);
}

#[test]
fn slow_subscribers_lag() {
    let (mut tree, token) = ProgressToken::new("test".to_string());
    let channel = Channel::new(&token);
    let mut receiver = channel.sender.subscribe();
    for i in 0..UPDATE_BUFFER + 1 {
        channel.deliver(token.update_progress(&mut tree, number(i as f64 / 100.0)));
    }
    let event: UpdateEvent<String> = match receiver.try_recv() {
        Err(broadcast::error::TryRecvError::Lagged(missed)) => UpdateEvent::Lagged(missed),
        _ => panic!("no update was dropped"),
    };
    assert!(matches!(token.updated(event), Err(ProgressError::Lagged)));
    let update = receiver.try_recv().unwrap();
    assert!(near(update.progress, 0.01));
}

#[test]
fn waits_end_with_an_update_or_an_error() {
    let (tree, token) = ProgressToken::new("test".to_string());
    let update = token.subscribe(&tree).take_first().unwrap();
    let copy = update.clone();
    let received = token.updated(UpdateEvent::Received(update)).unwrap();
    assert_eq!(received.statuses, copy.statuses);
    assert_eq!(received.progress, copy.progress);
    assert_eq!(received.is_cancelled, copy.is_cancelled);
    let cancelled: UpdateEvent<String> = UpdateEvent::Cancelled;
    assert!(matches!(token.updated(cancelled), Err(ProgressError::Cancelled)));
    let closed: UpdateEvent<String> = UpdateEvent::Closed;
    assert!(matches!(token.updated(closed), Err(ProgressError::Cancelled)));
    let lagged: UpdateEvent<String> = UpdateEvent::Lagged(3);
    assert!(matches!(token.updated(lagged), Err(ProgressError::Lagged)));
}

#[test]
fn polls_for_a_change_wait_for_a_notification() {
    let (mut tree, token) = ProgressToken::new("test".to_string());
    token.update_progress(&mut tree, number(0.5));
    assert!(matches!(token.poll_change(&tree, false), ChangePoll::Pending));
    match token.poll_change(&tree, true) {
        ChangePoll::Changed(update) => {
            assert!(near(update.progress, 0.5));
            assert_eq!(update.status(), "test");
            assert!(!update.is_cancelled);
        }
        _ => panic!("the change was not reported"),
    }
    token.cancel(&mut tree);
    assert!(matches!(token.poll_change(&tree, true), ChangePoll::Cancelled));
    assert!(matches!(token.poll_change(&tree, false), ChangePoll::Cancelled));
}

#[test]
fn guards_complete_once() {
    let (mut tree, root, child1, _) = create_test_hierarchy();
    let guard = child1.complete_guard();
    let notices = guard.drop(&mut tree);
    assert_eq!(notices.len(), 2);
    assert!(near(notices[0].update.progress, 1.0));
    assert!(near(root.state(&tree), 0.6));
    assert_eq!(child1.complete_guard().drop(&mut tree).len(), 0);
    // A cancelled task is not completed.
    root.cancel(&mut tree);
    assert_eq!(root.complete_guard().drop(&mut tree).len(), 0);
    assert!(near(root.state(&tree), 0.6));
}

#[test]
fn errors_are_told_in_words() {
    assert_eq!(ProgressError::Lagged.message(), "progress updates lagged");
    assert_eq!(
        ProgressError::Cancelled.message(),
        "the operation has been cancelled"
    );
}

#[test]
fn tokens_know_their_tree() {
    let (tree, root, child1, _) = create_test_hierarchy();
    let (small, _) = ProgressToken::new("small".to_string());
    assert!(root.is_in(&tree));
    assert!(child1.is_in(&tree));
    assert!(!child1.is_in(&small));
    assert_eq!(tree.len(), 3);
    assert_eq!(Progress::Indeterminate.as_f64(), None);
    assert_eq!(
        Progress::Determinate(number(0.5)).as_f64(),
        Some(number(0.5))
    );
}
