//! What a difference is for: applied to the current records, it gives
//! the desired ones.

use crate::change::{keeps_identity, ChangeView};
use crate::diff::{
    change_at, difference_of, lemma_difference_covers, lemma_difference_distinct,
    lemma_difference_sound, lookup, subject,
};
use crate::endpoint::{EndpointView, IdentView};
use vstd::prelude::*;

verus! {

/// The records that a list of endpoints stands for: one for each
/// identity, the last endpoint of the list with that identity.
pub open spec fn records(endpoints: Seq<EndpointView>) -> Map<IdentView, EndpointView> {
    Map::new(
        |identity: IdentView| lookup(endpoints, identity) is Some,
        |identity: IdentView| lookup(endpoints, identity)->0,
    )
}

/// The records after a change: a deletion removes the record of its
/// endpoint's identity, a creation sets the record of its endpoint's
/// identity, an update removes the record of the old endpoint's identity
/// and sets that of the new one's.
pub open spec fn applied(held: Map<IdentView, EndpointView>, change: ChangeView) -> Map<
    IdentView,
    EndpointView,
> {
    match change {
        ChangeView::Delete(endpoint) => held.remove(endpoint.identity),
        ChangeView::Create(endpoint) => held.insert(endpoint.identity, endpoint),
        ChangeView::Update { old, new } => held.remove(old.identity).insert(new.identity, new),
    }
}

/// The records after a list of changes, applied one after the other.
pub open spec fn applied_all(held: Map<IdentView, EndpointView>, changes: Seq<ChangeView>) -> Map<
    IdentView,
    EndpointView,
>
    decreases changes.len(),
{
    if changes.len() == 0 {
        held
    } else {
        applied(applied_all(held, changes.drop_last()), changes.last())
    }
}

/// The record under an identity, if there is one.
pub open spec fn record_at(held: Map<IdentView, EndpointView>, identity: IdentView) -> Option<
    EndpointView,
> {
    if held.contains_key(identity) {
        Some(held[identity])
    } else {
        None
    }
}

/// The record that a change leaves under the identity it is about.
pub open spec fn left_by(change: ChangeView) -> Option<EndpointView> {
    match change {
        ChangeView::Delete(endpoint) => None,
        ChangeView::Create(endpoint) => Some(endpoint),
        ChangeView::Update { old, new } => Some(new),
    }
}

/// Whether each update of `changes` is between endpoints of one identity.
pub open spec fn updates_keep_identity(changes: Seq<ChangeView>) -> bool {
    forall|k: int| 0 <= k < changes.len() ==> keeps_identity(#[trigger] changes[k])
}

/// Changes that are about other identities leave a record as it is.
pub proof fn lemma_untouched(
    held: Map<IdentView, EndpointView>,
    changes: Seq<ChangeView>,
    identity: IdentView,
)
    requires
        updates_keep_identity(changes),
        forall|k: int| 0 <= k < changes.len() ==> subject(#[trigger] changes[k]) != identity,
    ensures
        record_at(applied_all(held, changes), identity) == record_at(held, identity),
    decreases changes.len(),
{
    if changes.len() > 0 {
        let front = changes.drop_last();
        assert forall|k: int| 0 <= k < front.len() implies subject(#[trigger] front[k])
            != identity by {
            assert(front[k] == changes[k]);
        }
        assert forall|k: int| 0 <= k < front.len() implies keeps_identity(#[trigger] front[k]) by {
            assert(front[k] == changes[k]);
        }
        lemma_untouched(held, front, identity);
        assert(subject(changes[changes.len() - 1]) != identity);
    }
}

/// Where one change of a list is about an identity, the record under
/// that identity is what this change leaves.
pub proof fn lemma_touched_once(
    held: Map<IdentView, EndpointView>,
    changes: Seq<ChangeView>,
    identity: IdentView,
    k: int,
)
    requires
        updates_keep_identity(changes),
        0 <= k < changes.len(),
        subject(changes[k]) == identity,
        forall|l: int|
            0 <= l < changes.len() && l != k ==> subject(#[trigger] changes[l]) != identity,
    ensures
        record_at(applied_all(held, changes), identity) == left_by(changes[k]),
    decreases changes.len(),
{
    let front = changes.drop_last();
    assert forall|l: int| 0 <= l < front.len() implies keeps_identity(#[trigger] front[l]) by {
        assert(front[l] == changes[l]);
    }
    if k == changes.len() - 1 {
    } else {
        assert(front[k] == changes[k]);
        assert forall|l: int| 0 <= l < front.len() && l != k implies subject(#[trigger] front[l])
            != identity by {
            assert(front[l] == changes[l]);
        }
        lemma_touched_once(held, front, identity, k);
        assert(subject(changes[changes.len() - 1]) != identity);
    }
}

/// Reconciliation: the changes that lead from `current` to `desired`,
/// applied to the records of `current` one after the other, give the
/// records of `desired`.
pub proof fn lemma_difference_reconciles(current: Seq<EndpointView>, desired: Seq<EndpointView>)
    ensures
        applied_all(records(current), difference_of(current, desired)) == records(desired),
{
    let difference = difference_of(current, desired);
    let reached = applied_all(records(current), difference);
    assert forall|k: int| 0 <= k < difference.len() implies keeps_identity(#[trigger] difference[k]) by {
        lemma_difference_sound(current, desired, k);
    }
    assert forall|identity: IdentView|
        record_at(reached, identity) == record_at(records(desired), identity) by {
        lemma_difference_covers(current, desired, identity);
        match change_at(current, desired, identity) {
            Some(change) => {
                let k = choose|k: int| 0 <= k < difference.len() && difference[k] == change;
                assert forall|l: int| 0 <= l < difference.len() && l != k implies subject(
                    #[trigger] difference[l],
                ) != identity by {
                    if l < k {
                        lemma_difference_distinct(current, desired, l, k);
                    } else {
                        lemma_difference_distinct(current, desired, k, l);
                    }
                }
                lemma_touched_once(records(current), difference, identity, k);
            },
            None => {
                assert forall|l: int| 0 <= l < difference.len() implies subject(
                    #[trigger] difference[l],
                ) != identity by {
                    lemma_difference_sound(current, desired, l);
                }
                lemma_untouched(records(current), difference, identity);
            },
        }
    }
    assert forall|identity: IdentView|
        reached.contains_key(identity) == records(desired).contains_key(identity) by {
        assert(record_at(reached, identity) == record_at(records(desired), identity));
    }
    assert forall|identity: IdentView| reached.contains_key(identity) implies reached[identity]
        == records(desired)[identity] by {
        assert(record_at(reached, identity) == record_at(records(desired), identity));
    }
    assert(reached =~= records(desired));
}

} // verus!
