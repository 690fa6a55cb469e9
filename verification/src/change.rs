//! Changes to a provider's record set, one by one and as a wire batch.

use crate::endpoint::{distinct_identities, Endpoint, EndpointIdent, EndpointView, IdentView};
use crate::sequences::{
    lemma_filter_map_add, lemma_filter_map_all, lemma_filter_map_len, lemma_filter_map_none,
};
use vstd::prelude::*;
use vstd::std_specs::convert::FromSpecImpl;

verus! {

/// View of a [`Change`].
#[verifier::ext_equal]
pub enum ChangeView {
    Update { old: EndpointView, new: EndpointView },
    Delete(EndpointView),
    Create(EndpointView),
}

/// Change to apply to the record set held by the provider.
#[derive(Debug)]
pub enum Change {
    /// Update the `old` endpoint to match the `new` one.
    Update {
        /// Existing endpoint which should be updated.
        old: Endpoint,
        /// What the endpoint should become.
        new: Endpoint,
    },
    /// Delete the contained endpoint.
    Delete(Endpoint),
    /// Create a new endpoint.
    Create(Endpoint),
}

/// Whether `change`, if it is an update, is between endpoints of one
/// identity. The changes that this crate computes all are.
pub open spec fn keeps_identity(change: ChangeView) -> bool {
    change matches ChangeView::Update { old, new } ==> old.identity == new.identity
}

impl View for Change {
    type V = ChangeView;

    open spec fn view(&self) -> ChangeView {
        match self {
            Change::Update { old, new } => ChangeView::Update { old: old@, new: new@ },
            Change::Delete(endpoint) => ChangeView::Delete(endpoint@),
            Change::Create(endpoint) => ChangeView::Create(endpoint@),
        }
    }
}

impl DeepView for Change {
    type V = ChangeView;

    open spec fn deep_view(&self) -> ChangeView {
        self@
    }
}

impl Clone for Change {
    fn clone(&self) -> (copy: Self)
        ensures
            copy@ == self@,
    {
        match self {
            Change::Update { old, new } => Change::Update { old: old.clone(), new: new.clone() },
            Change::Delete(endpoint) => Change::Delete(endpoint.clone()),
            Change::Create(endpoint) => Change::Create(endpoint.clone()),
        }
    }
}

impl PartialEq for Change {
    fn eq(&self, other: &Self) -> (same: bool) {
        match (self, other) {
            (Change::Update { old, new }, Change::Update { old: other_old, new: other_new }) => {
                *old == *other_old && *new == *other_new
            },
            (Change::Delete(ours), Change::Delete(theirs)) => *ours == *theirs,
            (Change::Create(ours), Change::Create(theirs)) => *ours == *theirs,
            _ => false,
        }
    }
}

impl Eq for Change {}

impl vstd::std_specs::cmp::PartialEqSpecImpl for Change {
    open spec fn obeys_eq_spec() -> bool {
        true
    }

    open spec fn eq_spec(&self, other: &Self) -> bool {
        self@ == other@
    }
}

/// View of a [`Changes`] batch.
#[verifier::ext_equal]
pub struct ChangesView {
    pub create: Seq<EndpointView>,
    pub update_old: Seq<EndpointView>,
    pub update_new: Seq<EndpointView>,
    pub delete: Seq<EndpointView>,
}

/// A batch of changes in the shape in which it travels.
///
/// An entry of `update_old` and the entry of `update_new` at the same
/// position need not belong together: they are paired by identity.
#[derive(Debug)]
pub struct Changes {
    pub create: Vec<Endpoint>,
    pub update_old: Vec<Endpoint>,
    pub update_new: Vec<Endpoint>,
    pub delete: Vec<Endpoint>,
}

impl View for Changes {
    type V = ChangesView;

    open spec fn view(&self) -> ChangesView {
        ChangesView {
            create: self.create.deep_view(),
            update_old: self.update_old.deep_view(),
            update_new: self.update_new.deep_view(),
            delete: self.delete.deep_view(),
        }
    }
}

/// The endpoint that `change` creates, if it is a creation.
pub open spec fn creation(change: ChangeView) -> Option<EndpointView> {
    match change {
        ChangeView::Create(endpoint) => Some(endpoint),
        _ => None,
    }
}

/// The endpoint that `change` deletes, if it is a deletion.
pub open spec fn deletion(change: ChangeView) -> Option<EndpointView> {
    match change {
        ChangeView::Delete(endpoint) => Some(endpoint),
        _ => None,
    }
}

/// The endpoint that `change` replaces, if it is an update.
pub open spec fn replaced(change: ChangeView) -> Option<EndpointView> {
    match change {
        ChangeView::Update { old, new } => Some(old),
        _ => None,
    }
}

/// The endpoint that `change` puts in place of another, if it is an update.
pub open spec fn replacement(change: ChangeView) -> Option<EndpointView> {
    match change {
        ChangeView::Update { old, new } => Some(new),
        _ => None,
    }
}

/// The change itself, if it is an update.
pub open spec fn update(change: ChangeView) -> Option<ChangeView> {
    match change {
        ChangeView::Update { old, new } => Some(change),
        _ => None,
    }
}

/// The endpoints of the `Create` entries of `changes`, in their order.
pub open spec fn created(changes: Seq<ChangeView>) -> Seq<EndpointView> {
    changes.filter_map(|change: ChangeView| creation(change))
}

/// The endpoints of the `Delete` entries of `changes`, in their order.
pub open spec fn deleted(changes: Seq<ChangeView>) -> Seq<EndpointView> {
    changes.filter_map(|change: ChangeView| deletion(change))
}

/// The `old` endpoints of the `Update` entries of `changes`, in their order.
pub open spec fn updated_from(changes: Seq<ChangeView>) -> Seq<EndpointView> {
    changes.filter_map(|change: ChangeView| replaced(change))
}

/// The `new` endpoints of the `Update` entries of `changes`, in their order.
pub open spec fn updated_to(changes: Seq<ChangeView>) -> Seq<EndpointView> {
    changes.filter_map(|change: ChangeView| replacement(change))
}

/// The batch that a list of changes becomes: each change is appended to
/// the list of its kind, an update to both update lists.
pub open spec fn batch_of(changes: Seq<ChangeView>) -> ChangesView {
    ChangesView {
        create: created(changes),
        update_old: updated_from(changes),
        update_new: updated_to(changes),
        delete: deleted(changes),
    }
}

/// The conversion is stated of the views, by the contract of `from`.
impl FromSpecImpl<Vec<Change>> for Changes {
    open spec fn obeys_from_spec() -> bool {
        false
    }

    open spec fn from_spec(value: Vec<Change>) -> Self {
        arbitrary()
    }
}

impl From<Vec<Change>> for Changes {
    /// Sorts the changes into the four lists of a batch (see [`batch_of`]).
    fn from(value: Vec<Change>) -> (batch: Changes)
        ensures
            batch@ == batch_of(value.deep_view()),
    {
        let mut out = Changes {
            create: Vec::new(),
            update_old: Vec::new(),
            update_new: Vec::new(),
            delete: Vec::new(),
        };
        let ghost changes = value.deep_view();
        let ghost source = value@;
        assert(changes.take(0) =~= Seq::empty());
        assert(out@ =~~= batch_of(changes.take(0)));
        for change in iter: value
            invariant
                iter.seq() == source,
                changes.len() == source.len(),
                forall|k: int| 0 <= k < source.len() ==> changes[k] == (#[trigger] source[k])@,
                out@ == batch_of(changes.take(iter.index() as int)),
        {
            let ghost i = iter.index() as int;
            proof {
                assert(changes[i] == source[i]@);
                changes.lemma_filter_map_take_succ(|change: ChangeView| creation(change), i);
                changes.lemma_filter_map_take_succ(|change: ChangeView| deletion(change), i);
                changes.lemma_filter_map_take_succ(|change: ChangeView| replaced(change), i);
                changes.lemma_filter_map_take_succ(|change: ChangeView| replacement(change), i);
            }
            match change {
                Change::Update { old, new } => {
                    out.update_old.push(old);
                    out.update_new.push(new);
                },
                Change::Delete(endpoint) => out.delete.push(endpoint),
                Change::Create(endpoint) => out.create.push(endpoint),
            }
            assert(out@ =~~= batch_of(changes.take(i + 1)));
        }
        assert(changes.take(source.len() as int) =~= changes);
        out
    }
}

/// Whether position `i` holds the first of `candidates` with the given identity.
pub open spec fn is_first_match(
    candidates: Seq<EndpointView>,
    identity: IdentView,
    i: int,
) -> bool {
    &&& 0 <= i < candidates.len()
    &&& candidates[i].identity == identity
    &&& forall|k: int| 0 <= k < i ==> (#[trigger] candidates[k]).identity != identity
}

/// The first of `candidates` with the given identity, if there is one.
pub open spec fn first_match(candidates: Seq<EndpointView>, identity: IdentView) -> Option<
    EndpointView,
> {
    if exists|i: int| is_first_match(candidates, identity, i) {
        Some(candidates[choose|i: int| is_first_match(candidates, identity, i)])
    } else {
        None
    }
}

/// The update of `old`, if one of `candidates` has its identity: to the
/// first of them that has.
pub open spec fn pairing(candidates: Seq<EndpointView>, old: EndpointView) -> Option<ChangeView> {
    match first_match(candidates, old.identity) {
        Some(new) => Some(ChangeView::Update { old, new }),
        None => None,
    }
}

/// The updates that a batch stands for: each entry of `update_old`, in
/// order, with the first entry of `update_new` that has its identity. An
/// entry of `update_old` without such a partner gives no update.
pub open spec fn paired(batch: ChangesView) -> Seq<ChangeView> {
    batch.update_old.filter_map(|old: EndpointView| pairing(batch.update_new, old))
}

/// The list of changes that a batch becomes: its deletions, then its
/// updates (see [`paired`]), then its creations.
pub open spec fn changes_of(batch: ChangesView) -> Seq<ChangeView> {
    batch.delete.map_values(|endpoint: EndpointView| ChangeView::Delete(endpoint)) + paired(batch)
        + batch.create.map_values(|endpoint: EndpointView| ChangeView::Create(endpoint))
}

/// Position of the first of `candidates` with the given identity.
pub fn find_first(candidates: &Vec<Endpoint>, identity: &EndpointIdent) -> (found: Option<usize>)
    ensures
        match found {
            Some(i) => is_first_match(candidates.deep_view(), identity@, i as int),
            None => forall|k: int|
                0 <= k < candidates.len() ==> (#[trigger] candidates.deep_view()[k]).identity
                    != identity@,
        },
        found is Some <==> first_match(candidates.deep_view(), identity@) is Some,
        found matches Some(i) ==> first_match(candidates.deep_view(), identity@) == Some(
            candidates.deep_view()[i as int],
        ),
{
    let mut i: usize = 0;
    while i < candidates.len()
        invariant
            i <= candidates.len(),
            forall|k: int|
                0 <= k < i ==> (#[trigger] candidates.deep_view()[k]).identity != identity@,
        decreases candidates.len() - i,
    {
        if candidates[i].identity == *identity {
            assert(candidates.deep_view()[i as int].identity == identity@);
            assert(is_first_match(candidates.deep_view(), identity@, i as int));
            return Some(i);
        }
        assert(candidates.deep_view()[i as int].identity != identity@);
        i += 1;
    }
    None
}

/// The conversion is stated of the views, by the contract of `from`.
impl FromSpecImpl<Changes> for Vec<Change> {
    open spec fn obeys_from_spec() -> bool {
        false
    }

    open spec fn from_spec(changes: Changes) -> Self {
        arbitrary()
    }
}

impl From<Changes> for Vec<Change> {
    /// Lists the changes that a batch holds (see [`changes_of`]).
    fn from(changes: Changes) -> (out: Vec<Change>)
        ensures
            out.deep_view() == changes_of(changes@),
    {
        let ghost batch = changes@;
        let ghost pick = |old: EndpointView| pairing(batch.update_new, old);
        let Changes { create, update_old, update_new, delete } = changes;
        let mut out: Vec<Change> = Vec::new();

        let ghost source = delete@;
        for endpoint in iter: delete
            invariant
                iter.seq() == source,
                source.len() == batch.delete.len(),
                forall|k: int| 0 <= k < source.len() ==> batch.delete[k] == (#[trigger] source[k])@,
                out.len() == iter.index(),
                forall|k: int|
                    0 <= k < out.len() ==> (#[trigger] out[k])@ == ChangeView::Delete(
                        batch.delete[k],
                    ),
        {
            assert(batch.delete[iter.index() as int] == source[iter.index() as int]@);
            out.push(Change::Delete(endpoint));
        }
        let ghost deletions = out.deep_view();
        assert(deletions =~= batch.delete.map_values(
            |endpoint: EndpointView| ChangeView::Delete(endpoint),
        ));

        let ghost source = update_old@;
        assert(batch.update_old.take(0) =~= Seq::empty());
        assert(out.deep_view() =~= deletions + batch.update_old.take(0).filter_map(pick));
        for old in iter: update_old
            invariant
                iter.seq() == source,
                source.len() == batch.update_old.len(),
                forall|k: int|
                    0 <= k < source.len() ==> batch.update_old[k] == (#[trigger] source[k])@,
                batch.update_new == update_new.deep_view(),
                pick == |old: EndpointView| pairing(batch.update_new, old),
                out.deep_view() == deletions + batch.update_old.take(
                    iter.index() as int,
                ).filter_map(pick),
        {
            let ghost i = iter.index() as int;
            proof {
                assert(batch.update_old[i] == source[i]@);
                batch.update_old.lemma_filter_map_take_succ(pick, i);
            }
            let ghost before = out.deep_view();
            match find_first(&update_new, &old.identity) {
                Some(j) => {
                    let new = update_new[j].clone();
                    out.push(Change::Update { old, new });
                    assert(out.deep_view() =~= before.push(
                        ChangeView::Update {
                            old: batch.update_old[i],
                            new: batch.update_new[j as int],
                        },
                    ));
                },
                None => {},
            }
            assert(out.deep_view() =~= deletions + batch.update_old.take(i + 1).filter_map(pick));
        }
        assert(batch.update_old.take(source.len() as int) =~= batch.update_old);
        let ghost updates = out.deep_view();

        let ghost source = create@;
        for endpoint in iter: create
            invariant
                iter.seq() == source,
                source.len() == batch.create.len(),
                forall|k: int| 0 <= k < source.len() ==> batch.create[k] == (#[trigger] source[k])@,
                out.len() == updates.len() + iter.index(),
                forall|k: int| 0 <= k < updates.len() ==> (#[trigger] out[k])@ == updates[k],
                forall|k: int|
                    updates.len() <= k < out.len() ==> (#[trigger] out[k])@ == ChangeView::Create(
                        batch.create[k - updates.len()],
                    ),
        {
            assert(batch.create[iter.index() as int] == source[iter.index() as int]@);
            out.push(Change::Create(endpoint));
        }
        assert(out.deep_view() =~= updates + batch.create.map_values(
            |endpoint: EndpointView| ChangeView::Create(endpoint),
        ));
        out
    }
}

/// The `Update` entries of `changes`, in their order.
pub open spec fn updates_in(changes: Seq<ChangeView>) -> Seq<ChangeView> {
    changes.filter_map(|change: ChangeView| update(change))
}

/// Whether one of `candidates` has the given identity.
pub open spec fn has_match(candidates: Seq<EndpointView>, identity: IdentView) -> bool {
    exists|j: int| 0 <= j < candidates.len() && (#[trigger] candidates[j]).identity == identity
}

/// Where one of the candidates up to position `j` has the identity, there is a first one.
proof fn lemma_first_match_exists(candidates: Seq<EndpointView>, identity: IdentView, j: int)
    requires
        0 <= j < candidates.len(),
        candidates[j].identity == identity,
    ensures
        exists|i: int| is_first_match(candidates, identity, i),
    decreases j,
{
    if exists|k: int| 0 <= k < j && (#[trigger] candidates[k]).identity == identity {
        let k = choose|k: int| 0 <= k < j && (#[trigger] candidates[k]).identity == identity;
        lemma_first_match_exists(candidates, identity, k);
    } else {
        assert(is_first_match(candidates, identity, j));
    }
}

/// There is a first candidate with an identity exactly when there is
/// any, and it has that identity.
pub proof fn lemma_first_match(candidates: Seq<EndpointView>, identity: IdentView)
    ensures
        first_match(candidates, identity) is Some <==> has_match(candidates, identity),
        first_match(candidates, identity) matches Some(found) ==> found.identity == identity,
{
    if has_match(candidates, identity) {
        let j = choose|j: int|
            0 <= j < candidates.len() && (#[trigger] candidates[j]).identity == identity;
        lemma_first_match_exists(candidates, identity, j);
    }
    if first_match(candidates, identity) is Some {
        let i = choose|i: int| is_first_match(candidates, identity, i);
        assert(candidates[i].identity == identity);
    }
}

/// The two update lists of [`batch_of`] are as long as each other, and
/// the entries at one position are the two sides of one update.
pub proof fn lemma_update_lists_aligned(changes: Seq<ChangeView>)
    ensures
        updated_from(changes).len() == updates_in(changes).len(),
        updated_to(changes).len() == updates_in(changes).len(),
        forall|i: int|
            0 <= i < updates_in(changes).len() ==> #[trigger] updates_in(changes)[i] == (
            ChangeView::Update { old: updated_from(changes)[i], new: updated_to(changes)[i] }),
    decreases changes.len(),
{
    if changes.len() > 0 {
        lemma_update_lists_aligned(changes.drop_last());
    }
}

/// Every update that a batch becomes is between endpoints of one identity.
pub proof fn lemma_changes_of_keep_identity(batch: ChangesView, k: int)
    requires
        0 <= k < changes_of(batch).len(),
    ensures
        keeps_identity(changes_of(batch)[k]),
{
    let gone = batch.delete.map_values(|endpoint: EndpointView| ChangeView::Delete(endpoint));
    let changed = paired(batch);
    if gone.len() <= k < gone.len() + changed.len() {
        let change = changed[k - gone.len()];
        assert(changed.contains(change));
        batch.update_old.lemma_filter_map_contains(
            |old: EndpointView| pairing(batch.update_new, old),
            change,
        );
        let old = choose|old: EndpointView| #[trigger]
            batch.update_old.contains(old) && pairing(batch.update_new, old) == Some(change);
        lemma_first_match(batch.update_new, old.identity);
    }
}

/// What a batch becomes holds the batch's deletions, updates and creations, by kind.
pub proof fn lemma_changes_of_groups(batch: ChangesView)
    ensures
        deleted(changes_of(batch)) == batch.delete,
        created(changes_of(batch)) == batch.create,
        updates_in(changes_of(batch)) == paired(batch),
{
    let gone = batch.delete.map_values(|endpoint: EndpointView| ChangeView::Delete(endpoint));
    let changed = paired(batch);
    let fresh = batch.create.map_values(|endpoint: EndpointView| ChangeView::Create(endpoint));
    let pick = |old: EndpointView| pairing(batch.update_new, old);
    let pick_deleted = |change: ChangeView| deletion(change);
    let pick_created = |change: ChangeView| creation(change);
    let pick_updates = |change: ChangeView| update(change);
    assert forall|k: int| 0 <= k < changed.len() implies (#[trigger] changed[k]) is Update by {
        assert(changed.contains(changed[k]));
        batch.update_old.lemma_filter_map_contains(pick, changed[k]);
    }
    lemma_filter_map_add(gone + changed, fresh, pick_deleted);
    lemma_filter_map_add(gone, changed, pick_deleted);
    lemma_filter_map_all(gone, pick_deleted, batch.delete);
    lemma_filter_map_none(changed, pick_deleted);
    lemma_filter_map_none(fresh, pick_deleted);
    assert(deleted(changes_of(batch)) =~= batch.delete);
    lemma_filter_map_add(gone + changed, fresh, pick_created);
    lemma_filter_map_add(gone, changed, pick_created);
    lemma_filter_map_none(gone, pick_created);
    lemma_filter_map_none(changed, pick_created);
    lemma_filter_map_all(fresh, pick_created, batch.create);
    assert(created(changes_of(batch)) =~= batch.create);
    lemma_filter_map_add(gone + changed, fresh, pick_updates);
    lemma_filter_map_add(gone, changed, pick_updates);
    lemma_filter_map_none(gone, pick_updates);
    lemma_filter_map_all(changed, pick_updates, changed);
    lemma_filter_map_none(fresh, pick_updates);
    assert(updates_in(changes_of(batch)) =~= paired(batch));
}

/// Round trip: a list of changes that is turned into a batch and back
/// keeps its created endpoints and its deleted endpoints, each kind in
/// its order (so the same entries as often). Its updates come back
/// only if each `old` endpoint of an update finds an endpoint of its
/// identity among the `new` endpoints of the updates. They do come back,
/// in their order, where each update has one identity on both sides and
/// no two updates have the same.
pub proof fn lemma_round_trip(changes: Seq<ChangeView>)
    ensures
        created(changes_of(batch_of(changes))) == created(changes),
        deleted(changes_of(batch_of(changes))) == deleted(changes),
        updates_in(changes_of(batch_of(changes))) == updates_in(changes) ==> forall|i: int|
            0 <= i < updated_from(changes).len() ==> has_match(
                updated_to(changes),
                (#[trigger] updated_from(changes)[i]).identity,
            ),
        ({
            &&& distinct_identities(updated_to(changes))
            &&& forall|i: int|
                0 <= i < updated_from(changes).len() ==> (#[trigger] updated_from(
                    changes,
                )[i]).identity == updated_to(changes)[i].identity
        }) ==> updates_in(changes_of(batch_of(changes))) == updates_in(changes),
{
    let batch = batch_of(changes);
    let olds = batch.update_old;
    let news = batch.update_new;
    let pick = |old: EndpointView| pairing(batch.update_new, old);
    lemma_changes_of_groups(batch);
    lemma_update_lists_aligned(changes);
    if updates_in(changes_of(batch)) == updates_in(changes) {
        lemma_filter_map_len(olds, pick);
        assert forall|i: int| 0 <= i < olds.len() implies has_match(
            news,
            (#[trigger] olds[i]).identity,
        ) by {
            assert(pick(olds[i]) is Some);
            lemma_first_match(news, olds[i].identity);
        }
    }
    if distinct_identities(news) && forall|i: int|
        0 <= i < olds.len() ==> (#[trigger] olds[i]).identity == news[i].identity {
        assert forall|i: int| 0 <= i < olds.len() implies pick(#[trigger] olds[i]) == Some(
            updates_in(changes)[i],
        ) by {
            assert(news[i].identity == olds[i].identity);
            assert forall|k: int| 0 <= k < i implies (#[trigger] news[k]).identity
                != olds[i].identity by {
                assert(news[k].identity != news[i].identity);
            }
            assert(is_first_match(news, olds[i].identity, i));
            let chosen = choose|k: int| is_first_match(news, olds[i].identity, k);
            assert(is_first_match(news, olds[i].identity, chosen));
            if chosen < i {
                assert(news[chosen].identity != olds[i].identity);
            }
            if i < chosen {
                assert(news[i].identity != olds[i].identity);
            }
        }
        lemma_filter_map_all(olds, pick, updates_in(changes));
    }
}

} // verus!
