//! Laws of how the progress of a task follows from the tasks below it.

use crate::binary64::{lemma_one, Binary64, NOT_A_NUMBER, ONE, SIGN};
use crate::cancellation::{descends, lemma_descends_from_parent};
use crate::model::{
    active_child, active_child_from, active_path, after_cancel, after_child, after_progress,
    lemma_same_active_path, lemma_total_stays_indeterminate, parents, progress_at, weighted_total,
    well_formed, NodeModel,
};
use crate::preservation::lemma_progress_well_formed;
use crate::progress::Progress;
use crate::rounding::{
    grid, lemma_grid_increases, lemma_nearest_exact, lemma_nearest_monotone, nearest, INFINITY,
    UNIT_SHIFT,
};
use vstd::arithmetic::power2::{lemma2_to64, lemma_pow2_pos, pow2};
use vstd::prelude::*;

verus! {

/// A task that is not completed and can measure its own progress reports an indeterminate
/// progress exactly if one of its children that are not completed does.
pub proof fn law_indeterminate_while_a_child_is<S>(tree: Seq<NodeModel<S>>, node: int)
    requires
        well_formed(tree),
        0 <= node < tree.len(),
        !tree[node].completed,
        !(tree[node].progress is Indeterminate),
    ensures
        progress_at(tree, node) is Indeterminate <==> exists|k: int|
            #![trigger tree[node].children[k]]
            0 <= k < tree[node].children.len() && {
                let child = tree[node].children[k].0;
                !tree[child].completed && progress_at(tree, child) is Indeterminate
            },
{
    lemma_total_indeterminate(tree, node, tree[node].children.len());
}

proof fn lemma_total_indeterminate<S>(tree: Seq<NodeModel<S>>, node: int, count: nat)
    requires
        well_formed(tree),
        0 <= node < tree.len(),
        count <= tree[node].children.len(),
    ensures
        weighted_total(tree, node, count) is Indeterminate <==> exists|k: int|
            #![trigger tree[node].children[k]]
            0 <= k < count && {
                let child = tree[node].children[k].0;
                !tree[child].completed && progress_at(tree, child) is Indeterminate
            },
    decreases count,
{
    if count > 0 {
        let last = tree[node].children[count - 1].0;
        lemma_total_indeterminate(tree, node, (count - 1) as nat);
        if weighted_total(tree, node, count) is Indeterminate {
            if weighted_total(tree, node, (count - 1) as nat) is Indeterminate {
                let k = choose|k: int|
                    #![trigger tree[node].children[k]]
                    0 <= k < count - 1 && {
                        let child = tree[node].children[k].0;
                        !tree[child].completed && progress_at(tree, child) is Indeterminate
                    };
                assert(0 <= k < count && tree[node].children[k] == tree[node].children[k]);
            } else {
                assert(progress_at(tree, last) is Indeterminate);
                assert(!tree[last].completed);
            }
        }
    }
}

/// A task that cannot measure its own progress reports that, whatever its children report.
pub proof fn law_own_indeterminate_prevails<S>(tree: Seq<NodeModel<S>>, node: int)
    requires
        well_formed(tree),
        0 <= node < tree.len(),
        tree[node].progress is Indeterminate,
    ensures
        progress_at(tree, node) is Indeterminate,
{
}

/// The progress of a task with children that is not completed is the sum of the progress of each
/// child times its weight, if all of it can be measured.
pub proof fn law_progress_is_weighted_sum<S>(tree: Seq<NodeModel<S>>, node: int, count: nat)
    requires
        well_formed(tree),
        0 <= node < tree.len(),
        !tree[node].completed,
        tree[node].children.len() > 0,
        progress_at(tree, node) is Determinate,
        count < tree[node].children.len(),
    ensures
        progress_at(tree, node) == weighted_total(tree, node, tree[node].children.len()),
        weighted_total(tree, node, 0) == Progress::Determinate(Binary64 { bits: SIGN }),
        weighted_total(tree, node, count) is Determinate,
        progress_at(tree, tree[node].children[count as int].0) is Determinate,
        weighted_total(tree, node, count + 1)->Determinate_0 == weighted_total(
            tree,
            node,
            count,
        )->Determinate_0.sum_of(
            progress_at(
                tree,
                tree[node].children[count as int].0,
            )->Determinate_0.product_of(tree[node].children[count as int].1),
        ),
{
    let all = tree[node].children.len();
    if weighted_total(tree, node, count + 1) is Indeterminate {
        lemma_total_stays_indeterminate(tree, node, count + 1, all);
    }
}

/// Cancelling a task changes the progress and the status messages of none.
pub proof fn law_cancel_changes_no_report<S>(tree: Seq<NodeModel<S>>, node: int, other: int)
    requires
        well_formed(tree),
        0 <= node < tree.len(),
        0 <= other < tree.len(),
    ensures
        progress_at(after_cancel(tree, node), other) == progress_at(tree, other),
        active_path(after_cancel(tree, node), other) == active_path(tree, other),
        after_cancel(tree, node)[other].status == tree[other].status,
{
    lemma_cancel_keeps_progress(tree, node, other);
    lemma_same_active_path(tree, after_cancel(tree, node), other);
}

proof fn lemma_cancel_keeps_progress<S>(tree: Seq<NodeModel<S>>, node: int, other: int)
    requires
        well_formed(tree),
        0 <= other < tree.len(),
    ensures
        progress_at(after_cancel(tree, node), other) == progress_at(tree, other),
    decreases tree.len() - other, tree[other].children.len() + 1,
{
    lemma_cancel_keeps_total(tree, node, other, tree[other].children.len());
}

proof fn lemma_cancel_keeps_total<S>(tree: Seq<NodeModel<S>>, node: int, other: int, count: nat)
    requires
        well_formed(tree),
        0 <= other < tree.len(),
        count <= tree[other].children.len(),
    ensures
        weighted_total(after_cancel(tree, node), other, count) == weighted_total(
            tree,
            other,
            count,
        ),
    decreases tree.len() - other, count,
{
    if count > 0 {
        lemma_cancel_keeps_total(tree, node, other, (count - 1) as nat);
        lemma_cancel_keeps_progress(tree, node, tree[other].children[count - 1].0);
    }
}

/// The active child of a task is the first one, in the order of creation, that is not completed.
pub proof fn law_active_child_is_first_uncompleted<S>(tree: Seq<NodeModel<S>>, node: int)
    requires
        well_formed(tree),
        0 <= node < tree.len(),
    ensures
        match active_child(tree, node) {
            Some(child) => {
                &&& node < child < tree.len()
                &&& !tree[child].completed
                &&& exists|k: int|
                    0 <= k < tree[node].children.len() && #[trigger] tree[node].children[k].0
                        == child
                &&& forall|k: int|
                    #![trigger tree[node].children[k]]
                    0 <= k < tree[node].children.len() && tree[node].children[k].0 < child
                        ==> tree[tree[node].children[k].0].completed
            },
            None => forall|k: int|
                #![trigger tree[node].children[k]]
                0 <= k < tree[node].children.len()
                    ==> tree[tree[node].children[k].0].completed,
        },
{
    lemma_active_child_from(tree, node, 0);
}

proof fn lemma_active_child_from<S>(tree: Seq<NodeModel<S>>, node: int, from: nat)
    requires
        well_formed(tree),
        0 <= node < tree.len(),
        from <= tree[node].children.len(),
    ensures
        match active_child_from(tree, node, from) {
            Some(child) => {
                &&& node < child < tree.len()
                &&& !tree[child].completed
                &&& exists|k: int|
                    from <= k < tree[node].children.len() && #[trigger] tree[node].children[k].0
                        == child
                &&& forall|k: int|
                    #![trigger tree[node].children[k]]
                    from <= k < tree[node].children.len() && tree[node].children[k].0 < child
                        ==> tree[tree[node].children[k].0].completed
            },
            None => forall|k: int|
                #![trigger tree[node].children[k]]
                from <= k < tree[node].children.len()
                    ==> tree[tree[node].children[k].0].completed,
        },
    decreases tree[node].children.len() - from,
{
    if from < tree[node].children.len() {
        let child = tree[node].children[from as int].0;
        lemma_active_child_from(tree, node, from + 1);
    }
}

/// The status messages of a task begin with its own, go on with that of the active child of the
/// task before, and end where there is no active child: the last one is the most specific.
pub proof fn law_statuses_follow_active_children<S>(tree: Seq<NodeModel<S>>, node: int)
    requires
        well_formed(tree),
        0 <= node < tree.len(),
    ensures
        active_path(tree, node).len() > 0,
        active_path(tree, node)[0] == node,
        active_child(tree, active_path(tree, node).last()) is None,
        forall|k: int|
            #![trigger active_path(tree, node)[k]]
            0 <= k < active_path(tree, node).len() ==> 0 <= active_path(tree, node)[k]
                < tree.len(),
        forall|k: int|
            #![trigger active_path(tree, node)[k]]
            0 <= k < active_path(tree, node).len() - 1 ==> active_child(
                tree,
                active_path(tree, node)[k],
            ) == Some(active_path(tree, node)[k + 1]),
    decreases tree.len() - node,
{
    lemma_active_child_from(tree, node, 0);
    match active_child(tree, node) {
        Some(child) => {
            law_statuses_follow_active_children(tree, child);
            let path = active_path(tree, node);
            let rest = active_path(tree, child);
            assert(path == seq![node] + rest);
            assert(path.last() == rest.last());
            assert forall|k: int| #![trigger path[k]] 0 <= k < path.len() implies 0 <= path[k]
                < tree.len() by {
                if k > 0 {
                    assert(path[k] == rest[k - 1]);
                }
            }
            assert forall|k: int|
                #![trigger path[k]]
                0 <= k < path.len() - 1 implies active_child(tree, path[k]) == Some(
                path[k + 1],
            ) by {
                if k > 0 {
                    assert(path[k] == rest[k - 1]);
                    assert(path[k + 1] == rest[k]);
                }
            }
        },
        None => {},
    }
}

/// A new task reports a progress of zero and its own status message.
pub proof fn law_new_child<S>(
    tree: Seq<NodeModel<S>>,
    parent: int,
    weight: Binary64,
    status: S,
)
    requires
        well_formed(tree),
        0 <= parent < tree.len(),
    ensures
        progress_at(after_child(tree, parent, weight, status), tree.len() as int)
            == Progress::Determinate(Binary64 { bits: 0 }),
        active_path(after_child(tree, parent, weight, status), tree.len() as int) == seq![
            tree.len() as int,
        ],
        after_child(tree, parent, weight, status)[tree.len() as int].status == status,
{
}

/// Multiplying by one changes no number.
pub proof fn law_times_one(number: Binary64)
    requires
        !number.not_a_number(),
    ensures
        number.product_of(Binary64 { bits: ONE }) == number,
{
    lemma_one();
    if number.finite() {
        lemma_nearest_exact(number.magnitude(), UNIT_SHIFT as nat);
    }
}

/// Negative zero, the sum of nothing, changes no number that is added to it.
pub proof fn law_sum_of_nothing(number: Binary64)
    requires
        !number.not_a_number(),
    ensures
        (Binary64 { bits: SIGN }).sum_of(number) == number,
{
    lemma2_to64();
    if number.finite() {
        lemma_nearest_exact(number.magnitude(), 0);
        if number.magnitude() > 0 {
            lemma_grid_increases(0, number.magnitude());
        }
    }
}

/// A sum that is not a number has the one pattern for it.
proof fn lemma_sum_not_a_number(a: Binary64, b: Binary64)
    requires
        a.sum_of(b).not_a_number(),
    ensures
        a.sum_of(b).bits == NOT_A_NUMBER,
{
    if a.finite() && b.finite() {
        let exact = a.value() + b.value();
        if exact > 0 {
            lemma_nearest_monotone(exact as nat, exact as nat, 0);
        }
        if exact < 0 {
            lemma_nearest_monotone((-exact) as nat, (-exact) as nat, 0);
        }
    }
}

/// A reported progress that is not a number has the one pattern for it.
proof fn lemma_progress_not_a_number<S>(tree: Seq<NodeModel<S>>, node: int)
    requires
        well_formed(tree),
        0 <= node < tree.len(),
    ensures
        progress_at(tree, node) matches Progress::Determinate(number) ==> number.not_a_number()
            ==> number.bits == NOT_A_NUMBER,
{
    let own = tree[node];
    assert(own.progress.in_unit_range());
    if !(own.progress is Indeterminate || own.completed || own.children.len() == 0) {
        let count = own.children.len();
        let (child, weight) = own.children[count - 1];
        if progress_at(tree, node) is Determinate {
            let rest = weighted_total(tree, node, (count - 1) as nat)->Determinate_0;
            let last = progress_at(tree, child)->Determinate_0.product_of(weight);
            if rest.sum_of(last).not_a_number() {
                lemma_sum_not_a_number(rest, last);
            }
        }
    }
}

/// A task whose only child has a weight of one reports what the child reports.
pub proof fn law_only_child_of_weight_one<S>(tree: Seq<NodeModel<S>>, node: int)
    requires
        well_formed(tree),
        0 <= node < tree.len(),
        !tree[node].completed,
        !(tree[node].progress is Indeterminate),
        tree[node].children.len() == 1,
        tree[node].children[0].1 == (Binary64 { bits: ONE }),
    ensures
        progress_at(tree, node) == progress_at(tree, tree[node].children[0].0),
{
    let child = tree[node].children[0].0;
    assert(weighted_total(tree, node, 0) == Progress::Determinate(Binary64 { bits: SIGN }));
    assert(progress_at(tree, node) == weighted_total(tree, node, 1));
    match progress_at(tree, child) {
        Progress::Determinate(number) => {
            if number.not_a_number() {
                lemma_progress_not_a_number(tree, child);
            } else {
                law_times_one(number);
                law_sum_of_nothing(number);
            }
        },
        Progress::Indeterminate => {},
    }
}

/// From `top` down to `bottom` every task above `bottom` is active, can measure its progress and
/// has an only child, of weight one.
pub open spec fn is_plain_chain<S>(tree: Seq<NodeModel<S>>, top: int, bottom: int) -> bool
    decreases tree.len() - top,
{
    ||| top == bottom
    ||| {
        &&& !tree[top].completed
        &&& !(tree[top].progress is Indeterminate)
        &&& tree[top].children.len() == 1
        &&& tree[top].children[0].1 == (Binary64 { bits: ONE })
        &&& top < tree[top].children[0].0 < tree.len()
        &&& is_plain_chain(tree, tree[top].children[0].0, bottom)
    }
}

/// A progress passes unchanged through a chain of only children of weight one, however long.
pub proof fn law_chain_passes_progress_up<S>(tree: Seq<NodeModel<S>>, top: int, bottom: int)
    requires
        well_formed(tree),
        0 <= top < tree.len(),
        0 <= bottom < tree.len(),
        is_plain_chain(tree, top, bottom),
    ensures
        progress_at(tree, top) == progress_at(tree, bottom),
    decreases tree.len() - top,
{
    if top != bottom {
        law_only_child_of_weight_one(tree, top);
        law_chain_passes_progress_up(tree, tree[top].children[0].0, bottom);
    }
}

/// The number is zero, positive or infinite: it counts towards a progress.
pub open spec fn counts(number: Binary64) -> bool {
    !number.not_a_number() && (number.negative() ==> number.magnitude() == 0)
}

/// A sum grows with its terms.
pub proof fn law_sum_monotone(a: Binary64, b: Binary64, c: Binary64, d: Binary64)
    requires
        counts(a),
        counts(b),
        counts(c),
        counts(d),
        a.magnitude() <= b.magnitude(),
        c.magnitude() <= d.magnitude(),
    ensures
        counts(a.sum_of(c)),
        counts(b.sum_of(d)),
        a.sum_of(c).magnitude() <= b.sum_of(d).magnitude(),
{
    lemma_sum_magnitude(a, c);
    lemma_sum_magnitude(b, d);
    if b.finite() && d.finite() {
        if a.magnitude() < b.magnitude() {
            lemma_grid_increases(a.magnitude(), b.magnitude());
        }
        if c.magnitude() < d.magnitude() {
            lemma_grid_increases(c.magnitude(), d.magnitude());
        }
        lemma_nearest_monotone(
            grid(a.magnitude()) + grid(c.magnitude()),
            grid(b.magnitude()) + grid(d.magnitude()),
            0,
        );
    }
}

proof fn lemma_sum_magnitude(a: Binary64, b: Binary64)
    requires
        counts(a),
        counts(b),
    ensures
        counts(a.sum_of(b)),
        a.sum_of(b).magnitude() == if a.finite() && b.finite() {
            nearest(grid(a.magnitude()) + grid(b.magnitude()), 0)
        } else {
            INFINITY as int
        },
{
    lemma2_to64();
    if a.finite() && b.finite() {
        let exact = grid(a.magnitude()) + grid(b.magnitude());
        assert(a.value() + b.value() == exact);
        lemma_nearest_monotone(exact, exact, 0);
        if exact == 0 {
            lemma_nearest_exact(0, 0);
        }
    }
}

/// A product grows with its first factor, where both products are numbers. They fail to be
/// numbers only where zero meets infinity.
pub proof fn law_product_monotone(a: Binary64, b: Binary64, weight: Binary64)
    requires
        counts(a),
        counts(b),
        counts(weight),
        a.magnitude() <= b.magnitude(),
        !a.product_of(weight).not_a_number(),
        !b.product_of(weight).not_a_number(),
    ensures
        counts(a.product_of(weight)),
        counts(b.product_of(weight)),
        a.product_of(weight).magnitude() <= b.product_of(weight).magnitude(),
{
    lemma_product_magnitude(a, weight);
    lemma_product_magnitude(b, weight);
    if b.finite() && weight.finite() {
        let w = grid(weight.magnitude()) as int;
        let x = grid(a.magnitude()) as int;
        let y = grid(b.magnitude()) as int;
        if a.magnitude() < b.magnitude() {
            lemma_grid_increases(a.magnitude(), b.magnitude());
        }
        assert(0 <= x * w <= y * w) by (nonlinear_arith)
            requires
                0 <= x <= y,
                0 <= w,
        ;
        lemma_nearest_monotone((x * w) as nat, (y * w) as nat, UNIT_SHIFT as nat);
    }
}

/// What the product of two numbers is; only zero times infinity is none.
proof fn lemma_product_magnitude(number: Binary64, weight: Binary64)
    requires
        counts(number),
        counts(weight),
    ensures
        number.product_of(weight).not_a_number() <==> number.infinite() && weight.magnitude() == 0
            || weight.infinite() && number.magnitude() == 0,
        !number.product_of(weight).not_a_number() ==> counts(number.product_of(weight)),
        number.finite() && weight.finite() ==> number.product_of(weight).magnitude() == nearest(
            grid(number.magnitude()) * grid(weight.magnitude()),
            UNIT_SHIFT as nat,
        ),
        !number.product_of(weight).not_a_number() && !(number.finite() && weight.finite())
            ==> number.product_of(weight).magnitude() == INFINITY,
        number.product_of(weight).magnitude() <= INFINITY
            || number.product_of(weight).not_a_number(),
{
    if number.finite() && weight.finite() {
        let x = grid(number.magnitude());
        let w = grid(weight.magnitude());
        lemma_nearest_monotone(x * w, x * w, UNIT_SHIFT as nat);
        if number.negative() || weight.negative() {
            lemma_pow2_pos(UNIT_SHIFT as nat);
            lemma_nearest_exact(0, UNIT_SHIFT as nat);
            assert(x * w == 0) by (nonlinear_arith)
                requires
                    x == 0 || w == 0,
            ;
            assert(0 * pow2(UNIT_SHIFT as nat) == 0);
        }
    }
}

/// A child contributes no more than its weight: the product of a progress from zero to one and a
/// weight is at most the weight.
pub proof fn law_contribution_within_weight(number: Binary64, weight: Binary64)
    requires
        counts(number),
        number.magnitude() <= ONE,
        counts(weight),
        weight.finite(),
    ensures
        counts(number.product_of(weight)),
        number.product_of(weight).magnitude() <= weight.magnitude(),
{
    let one = Binary64 { bits: ONE };
    lemma_product_magnitude(number, weight);
    lemma_product_magnitude(one, weight);
    law_product_monotone(number, one, weight);
    law_times_one(weight);
    let w = grid(weight.magnitude());
    let o = grid(ONE as int);
    assert(w * o == o * w) by (nonlinear_arith);
}

/// The sum of the weights of the first `count` children of a node, from the first to the last.
pub open spec fn weight_sum<S>(tree: Seq<NodeModel<S>>, node: int, count: nat) -> Binary64
    decreases count,
{
    if count == 0 {
        Binary64 { bits: SIGN }
    } else {
        weight_sum(tree, node, (count - 1) as nat).sum_of(tree[node].children[count - 1].1)
    }
}

/// The weights of the children of a node are finite, none of them is negative, and they add up to
/// no more than one.
pub open spec fn shares_one<S>(tree: Seq<NodeModel<S>>, node: int) -> bool {
    let all = tree[node].children.len();
    &&& forall|k: int|
        #![trigger tree[node].children[k]]
        0 <= k < all ==> counts(tree[node].children[k].1) && tree[node].children[k].1.finite()
    &&& weight_sum(tree, node, all).magnitude() <= ONE
}

/// The progress that a task reports is a number from zero to one, or none at all, if the weights
/// at the task and at every task below it are not negative and add up to no more than one.
pub proof fn law_progress_within_unit_range<S>(tree: Seq<NodeModel<S>>, node: int)
    requires
        well_formed(tree),
        0 <= node < tree.len(),
        forall|i: int|
            #![trigger shares_one(tree, i)]
            0 <= i < tree.len() && descends(parents(tree), i, node) ==> shares_one(tree, i),
    ensures
        progress_at(tree, node) matches Progress::Determinate(number) ==> {
            &&& counts(number)
            &&& number.magnitude() <= ONE
            &&& 0 <= number.value() <= pow2(UNIT_SHIFT as nat)
        },
    decreases tree.len() - node, tree[node].children.len() + 1,
{
    lemma_one();
    assert(shares_one(tree, node));
    lemma_total_within_weights(tree, node, tree[node].children.len());
    if progress_at(tree, node) is Determinate {
        let number = progress_at(tree, node)->Determinate_0;
        if tree[node].progress == progress_at(tree, node) {
            assert(tree[node].progress.in_unit_range());
            if ONE < number.magnitude() {
                lemma_grid_increases(ONE as int, number.magnitude());
            }
        }
        if number.magnitude() < ONE {
            lemma_grid_increases(number.magnitude(), ONE as int);
        }
    }
}

/// What the children of a task add up to is no more than their weights do.
proof fn lemma_total_within_weights<S>(tree: Seq<NodeModel<S>>, node: int, count: nat)
    requires
        well_formed(tree),
        0 <= node < tree.len(),
        count <= tree[node].children.len(),
        forall|i: int|
            #![trigger shares_one(tree, i)]
            0 <= i < tree.len() && descends(parents(tree), i, node) ==> shares_one(tree, i),
    ensures
        counts(weight_sum(tree, node, count)),
        weighted_total(tree, node, count) matches Progress::Determinate(number) ==> {
            &&& counts(number)
            &&& number.magnitude() <= weight_sum(tree, node, count).magnitude()
        },
    decreases tree.len() - node, count,
{
    assert(shares_one(tree, node));
    if count > 0 {
        lemma_total_within_weights(tree, node, (count - 1) as nat);
        let (child, weight) = tree[node].children[count - 1];
        let weights = weight_sum(tree, node, (count - 1) as nat);
        assert(parents(tree)[child] == Some(node));
        assert forall|i: int|
            #![trigger shares_one(tree, i)]
            0 <= i < tree.len() && descends(parents(tree), i, child) implies shares_one(
            tree,
            i,
        ) by {
            lemma_descends_from_parent(parents(tree), i, child, node);
        }
        law_progress_within_unit_range(tree, child);
        law_sum_monotone(weights, weights, weight, weight);
        if weighted_total(tree, node, count) is Determinate {
            let number = progress_at(tree, child)->Determinate_0;
            law_contribution_within_weight(number, weight);
            law_sum_monotone(
                weighted_total(tree, node, (count - 1) as nat)->Determinate_0,
                weights,
                number.product_of(weight),
                weight,
            );
        }
    }
}

/// A task reports a determinate progress if it and every task below it have.
pub proof fn law_determinate_if_all_below_are<S>(tree: Seq<NodeModel<S>>, node: int)
    requires
        well_formed(tree),
        0 <= node < tree.len(),
        forall|i: int|
            #![trigger tree[i].progress]
            0 <= i < tree.len() && descends(parents(tree), i, node)
                ==> tree[i].progress is Determinate,
    ensures
        progress_at(tree, node) is Determinate,
    decreases tree.len() - node,
{
    assert(descends(parents(tree), node, node));
    assert(tree[node].progress is Determinate);
    if !tree[node].completed {
        law_indeterminate_while_a_child_is(tree, node);
        assert forall|k: int|
            #![trigger tree[node].children[k]]
            0 <= k < tree[node].children.len() implies progress_at(
            tree,
            tree[node].children[k].0,
        ) is Determinate by {
            let child = tree[node].children[k].0;
            assert(parents(tree)[child] == Some(node));
            assert forall|i: int|
                #![trigger tree[i].progress]
                0 <= i < tree.len() && descends(
                    parents(tree),
                    i,
                    child,
                ) implies tree[i].progress is Determinate by {
                lemma_descends_from_parent(parents(tree), i, child, node);
            }
            law_determinate_if_all_below_are(tree, child);
        }
    }
}

/// The number is not less than zero, if it is a number.
pub open spec fn not_below_zero(number: Binary64) -> bool {
    number.not_a_number() || counts(number)
}

/// `after` has the tasks of `before`, with the same weights, of which none is negative. The same
/// tasks are completed, and no task itself has reported less.
pub open spec fn is_raised<S>(before: Seq<NodeModel<S>>, after: Seq<NodeModel<S>>) -> bool {
    &&& before.len() == after.len()
    &&& forall|i: int|
        #![trigger after[i]]
        0 <= i < before.len() ==> {
            &&& after[i].children == before[i].children
            &&& after[i].completed == before[i].completed
            &&& match (before[i].progress, after[i].progress) {
                (Progress::Determinate(earlier), Progress::Determinate(later)) => {
                    earlier.magnitude() <= later.magnitude()
                },
                (Progress::Indeterminate, Progress::Indeterminate) => true,
                _ => false,
            }
        }
    &&& forall|i: int, k: int|
        #![trigger before[i].children[k]]
        0 <= i < before.len() && 0 <= k < before[i].children.len() ==> not_below_zero(
            before[i].children[k].1,
        )
}

/// `later` is not less than `earlier`: either both are indeterminate, or both are determinate, and
/// if both are numbers the second one is at least the first.
pub open spec fn does_not_fall(earlier: Progress, later: Progress) -> bool {
    match (earlier, later) {
        (Progress::Determinate(low), Progress::Determinate(high)) => {
            !low.not_a_number() && !high.not_a_number() ==> {
                &&& counts(low)
                &&& counts(high)
                &&& low.magnitude() <= high.magnitude()
            }
        },
        (Progress::Indeterminate, Progress::Indeterminate) => true,
        _ => false,
    }
}

/// The progress of a task does not fall while that of none of its children falls, no weight is
/// negative, and what is compared are numbers.
pub proof fn law_progress_grows_with_children<S>(
    before: Seq<NodeModel<S>>,
    after: Seq<NodeModel<S>>,
    node: int,
)
    requires
        well_formed(before),
        well_formed(after),
        0 <= node < before.len(),
        node < after.len(),
        !before[node].completed,
        !after[node].completed,
        before[node].progress is Determinate,
        after[node].progress is Determinate,
        before[node].children.len() > 0,
        after[node].children == before[node].children,
        forall|k: int|
            #![trigger before[node].children[k]]
            0 <= k < before[node].children.len() ==> child_does_not_fall(
                before,
                after,
                before[node].children[k],
            ),
    ensures
        does_not_fall(progress_at(before, node), progress_at(after, node)),
{
    lemma_total_does_not_fall(before, after, node, before[node].children.len());
}

/// The weight of the child is not negative, and its progress is no less after than before.
pub open spec fn child_does_not_fall<S>(
    before: Seq<NodeModel<S>>,
    after: Seq<NodeModel<S>>,
    child: (int, Binary64),
) -> bool {
    &&& not_below_zero(child.1)
    &&& does_not_fall(progress_at(before, child.0), progress_at(after, child.0))
}

proof fn lemma_total_does_not_fall<S>(
    before: Seq<NodeModel<S>>,
    after: Seq<NodeModel<S>>,
    node: int,
    count: nat,
)
    requires
        well_formed(before),
        well_formed(after),
        0 <= node < before.len(),
        node < after.len(),
        after[node].children == before[node].children,
        count <= before[node].children.len(),
        forall|k: int|
            #![trigger before[node].children[k]]
            0 <= k < before[node].children.len() ==> child_does_not_fall(
                before,
                after,
                before[node].children[k],
            ),
    ensures
        does_not_fall(weighted_total(before, node, count), weighted_total(after, node, count)),
    decreases count,
{
    if count > 0 {
        lemma_total_does_not_fall(before, after, node, (count - 1) as nat);
        let (child, weight) = before[node].children[count - 1];
        assert(after[node].children[count - 1] == (child, weight));
        match (weighted_total(before, node, count), weighted_total(after, node, count)) {
            (Progress::Determinate(low), Progress::Determinate(high)) => {
                if !low.not_a_number() && !high.not_a_number() {
                    // What is not a number spoils every product and every sum that it enters.
                    let earlier = progress_at(before, child)->Determinate_0;
                    let later = progress_at(after, child)->Determinate_0;
                    law_product_monotone(earlier, later, weight);
                    law_sum_monotone(
                        weighted_total(before, node, (count - 1) as nat)->Determinate_0,
                        weighted_total(after, node, (count - 1) as nat)->Determinate_0,
                        earlier.product_of(weight),
                        later.product_of(weight),
                    );
                }
            },
            _ => {},
        }
    }
}

/// Raising what tasks themselves have reported lowers the progress of no task in the whole tree,
/// while no weight is negative and what is compared are numbers.
pub proof fn law_raising_lowers_no_progress<S>(
    before: Seq<NodeModel<S>>,
    after: Seq<NodeModel<S>>,
    node: int,
)
    requires
        well_formed(before),
        well_formed(after),
        is_raised(before, after),
        0 <= node < before.len(),
    ensures
        does_not_fall(progress_at(before, node), progress_at(after, node)),
    decreases before.len() - node,
{
    assert(after[node].children == before[node].children);
    assert(before[node].progress.in_unit_range());
    assert(after[node].progress.in_unit_range());
    if before[node].progress is Determinate && !before[node].completed
        && before[node].children.len() > 0 {
        assert forall|k: int|
            #![trigger before[node].children[k]]
            0 <= k < before[node].children.len() implies child_does_not_fall(
            before,
            after,
            before[node].children[k],
        ) by {
            law_raising_lowers_no_progress(before, after, before[node].children[k].0);
        }
        law_progress_grows_with_children(before, after, node);
    }
}

/// A task that reports more than before lowers the progress of no other task, while no weight is
/// negative and what is compared are numbers.
pub proof fn law_more_progress_lowers_none<S>(
    tree: Seq<NodeModel<S>>,
    leaf: int,
    progress: Binary64,
    node: int,
)
    requires
        well_formed(tree),
        0 <= leaf < tree.len(),
        0 <= node < tree.len(),
        tree[leaf].progress matches Progress::Determinate(own) && own.magnitude()
            <= progress.clamped().magnitude(),
        forall|i: int, k: int|
            #![trigger tree[i].children[k]]
            0 <= i < tree.len() && 0 <= k < tree[i].children.len() ==> not_below_zero(
                tree[i].children[k].1,
            ),
    ensures
        does_not_fall(
            progress_at(tree, node),
            progress_at(after_progress(tree, leaf, Progress::Determinate(progress)), node),
        ),
{
    let after = after_progress(tree, leaf, Progress::Determinate(progress));
    lemma_progress_well_formed(tree, leaf, Progress::Determinate(progress));
    law_raising_lowers_no_progress(tree, after, node);
}

} // verus!
