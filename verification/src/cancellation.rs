//! The cancellation flags of a tree of tasks, kept by `tokio_util`'s cancellation tokens.
//!
//! The flag of a [`CancellationToken`] is shared: cancelling one token also sets the flags of the
//! tokens derived from it. So no single token determines what it answers, and the contracts below
//! speak of a whole family of tokens, held in one vector in the order of creation: the first one
//! is the root, every other one was derived from an earlier one. The vector belongs to one tree,
//! which hands out none of its tokens, only futures that wait for them: nothing else can set a flag.

use tokio_util::sync::{CancellationToken, WaitForCancellationFutureOwned};
use vstd::prelude::*;

verus! {

/// `tokio_util::sync::CancellationToken`, a handle to a shared flag.
#[verifier::external_type_specification]
#[verifier::external_body]
pub struct ExCancellationToken(CancellationToken);

/// `tokio_util::sync::WaitForCancellationFutureOwned`, a future that waits for a flag.
#[verifier::external_type_specification]
#[verifier::external_body]
pub struct ExWaitForCancellationFutureOwned(WaitForCancellationFutureOwned);

/// The flag of each token of a family.
pub uninterp spec fn token_flags(family: Seq<CancellationToken>) -> Seq<bool>;

/// For each token of a family the position of the token that it was derived from.
pub uninterp spec fn token_parents(family: Seq<CancellationToken>) -> Seq<Option<int>>;

/// Which shared flag a token is a handle to. It is the same for as long as the token lives, while
/// the flag itself may change.
pub uninterp spec fn token_identity(token: CancellationToken) -> int;

/// Which shared flag a future waits for.
pub uninterp spec fn awaited_identity(future: WaitForCancellationFutureOwned) -> int;

/// Which shared flag each token of a family is a handle to.
pub open spec fn family_identities(family: Seq<CancellationToken>) -> Seq<int> {
    family.map_values(|token: CancellationToken| token_identity(token))
}

/// The position `node` is `ancestor` itself or lies below it.
pub open spec fn descends(parents: Seq<Option<int>>, node: int, ancestor: int) -> bool
    decreases node,
{
    ||| node == ancestor
    ||| 0 <= node < parents.len() && match parents[node] {
        Some(parent) => 0 <= parent < node && descends(parents, parent, ancestor),
        None => false,
    }
}

/// What lies below a child lies below its parent.
pub proof fn lemma_descends_from_parent(parents: Seq<Option<int>>, node: int, child: int, parent: int)
    requires
        0 <= parent < child < parents.len(),
        parents[child] == Some(parent),
        descends(parents, node, child),
    ensures
        descends(parents, node, parent),
    decreases node,
{
    if node != child {
        lemma_descends_from_parent(parents, parents[node]->0, child, parent);
    } else {
        assert(descends(parents, parent, parent));
    }
}

/// Both names speak of every token of the family.
pub open spec fn is_family(family: Seq<CancellationToken>) -> bool {
    &&& token_flags(family).len() == family.len()
    &&& token_parents(family).len() == family.len()
}

/// `CancellationToken::new`: a family of one token, which is not cancelled.
#[verifier::external_body]
pub(crate) fn new_token() -> (family: Vec<CancellationToken>)
    ensures
        family@.len() == 1,
        token_flags(family@) == seq![false],
        token_parents(family@) == seq![None::<int>],
{
    vec![CancellationToken::new()]
}

/// `CancellationToken::child_token`: the family gains a token derived from the one at `parent`,
/// cancelled if that one is. Its flag is one that no other token of the family is a handle to. The
/// other tokens stay handles to the flags that they were handles to, and keep what these say.
#[verifier::external_body]
pub(crate) fn child_token(family: &mut Vec<CancellationToken>, parent: usize)
    requires
        is_family(old(family)@),
        parent < old(family)@.len(),
    ensures
        final(family)@.len() == old(family)@.len() + 1,
        token_flags(final(family)@) == token_flags(old(family)@).push(
            token_flags(old(family)@)[parent as int],
        ),
        token_parents(final(family)@) == token_parents(old(family)@).push(Some(parent as int)),
        family_identities(final(family)@).drop_last() == family_identities(old(family)@),
        !family_identities(old(family)@).contains(token_identity(final(family)@.last())),
{
    let child = family[parent].child_token();
    family.push(child);
}

/// `CancellationToken::cancel`: sets the flag of the token at `node` and of every token derived
/// from it, directly or through others. All other flags stay as they are, and every token stays a
/// handle to the flag that it was a handle to.
#[verifier::external_body]
pub(crate) fn cancel_token(family: &mut Vec<CancellationToken>, node: usize)
    requires
        is_family(old(family)@),
        node < old(family)@.len(),
    ensures
        final(family)@.len() == old(family)@.len(),
        token_parents(final(family)@) == token_parents(old(family)@),
        family_identities(final(family)@) == family_identities(old(family)@),
        token_flags(final(family)@) == Seq::new(
            old(family)@.len(),
            |i: int|
                token_flags(old(family)@)[i] || descends(
                    token_parents(old(family)@),
                    i,
                    node as int,
                ),
        ),
{
    family[node].cancel();
}

/// `CancellationToken::is_cancelled`: reads the flag of the token at `node`.
#[verifier::external_body]
pub(crate) fn token_is_cancelled(family: &Vec<CancellationToken>, node: usize) -> (cancelled: bool)
    requires
        is_family(family@),
        node < family@.len(),
    ensures
        cancelled == token_flags(family@)[node as int],
{
    family[node].is_cancelled()
}

/// `CancellationToken::cancelled_owned`, on a clone of the token at `node`: a future that waits
/// for the flag of that token. That it completes once the flag is set, and not before, is left
/// unsaid: no contract speaks of how a future is polled.
#[verifier::external_body]
pub(crate) fn wait_for_token(
    family: &Vec<CancellationToken>,
    node: usize,
) -> (future: WaitForCancellationFutureOwned)
    requires
        is_family(family@),
        node < family@.len(),
    ensures
        awaited_identity(future) == token_identity(family@[node as int]),
{
    family[node].clone().cancelled_owned()
}

} // verus!
