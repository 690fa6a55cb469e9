//! The changes that move a provider from its current records to the desired ones.

use crate::change::{
    batch_of, changes_of, created, deleted, lemma_changes_of_groups, lemma_round_trip,
    lemma_update_lists_aligned, creation, deletion, update, updated_from, updated_to, updates_in,
    Change, ChangeView,
};
use crate::endpoint::{
    disjoint_identities, distinct_identities, Endpoint, EndpointIdent, EndpointView, IdentView,
};
use crate::sequences::{
    lemma_filter_map_add, lemma_filter_map_all, lemma_filter_map_includes, lemma_filter_map_none,
    lemma_filter_map_sources,
};
use vstd::prelude::*;

verus! {

/// Whether position `i` holds the last of `endpoints` with the given identity.
pub open spec fn is_last_match(endpoints: Seq<EndpointView>, identity: IdentView, i: int) -> bool {
    &&& 0 <= i < endpoints.len()
    &&& endpoints[i].identity == identity
    &&& forall|k: int| i < k < endpoints.len() ==> (#[trigger] endpoints[k]).identity != identity
}

/// Whether the endpoint at position `i` stays when `endpoints` is indexed
/// by identity: no later endpoint has its identity.
pub open spec fn survives(endpoints: Seq<EndpointView>, i: int) -> bool {
    0 <= i < endpoints.len() && is_last_match(endpoints, endpoints[i].identity, i)
}

/// What `endpoints`, indexed by identity, holds under `identity`: the last
/// endpoint with that identity, if there is one.
pub open spec fn lookup(endpoints: Seq<EndpointView>, identity: IdentView) -> Option<EndpointView> {
    if exists|i: int| is_last_match(endpoints, identity, i) {
        Some(endpoints[choose|i: int| is_last_match(endpoints, identity, i)])
    } else {
        None
    }
}

/// The positions `0, 1, ..` below `n`.
pub open spec fn positions(n: nat) -> Seq<int> {
    Seq::new(n, |i: int| i)
}

/// The endpoint at position `i` of `these`, if it survives indexing and
/// `those` hold nothing under its identity.
pub open spec fn missing_at(these: Seq<EndpointView>, those: Seq<EndpointView>, i: int) -> Option<
    EndpointView,
> {
    if survives(these, i) && lookup(those, these[i].identity) is None {
        Some(these[i])
    } else {
        None
    }
}

/// The endpoints that `these`, indexed by identity, hold under an identity
/// that `those` lack, in the order in which they stand in `these`.
pub open spec fn only_in(these: Seq<EndpointView>, those: Seq<EndpointView>) -> Seq<EndpointView> {
    positions(these.len()).filter_map(|i: int| missing_at(these, those, i))
}

/// The update that position `i` of `current` calls for: the endpoint
/// there survives indexing, and `desired` hold another endpoint under its
/// identity.
pub open spec fn update_at(
    current: Seq<EndpointView>,
    desired: Seq<EndpointView>,
    i: int,
) -> Option<ChangeView> {
    if survives(current, i) {
        match lookup(desired, current[i].identity) {
            Some(new) => if new != current[i] {
                Some(ChangeView::Update { old: current[i], new })
            } else {
                None
            },
            None => None,
        }
    } else {
        None
    }
}

/// The deletions that lead from `current` to `desired`.
pub open spec fn deletions(current: Seq<EndpointView>, desired: Seq<EndpointView>) -> Seq<
    ChangeView,
> {
    only_in(current, desired).map_values(|endpoint: EndpointView| ChangeView::Delete(endpoint))
}

/// The updates that lead from `current` to `desired`, in the order in
/// which their endpoints stand in `current`.
pub open spec fn updates(current: Seq<EndpointView>, desired: Seq<EndpointView>) -> Seq<
    ChangeView,
> {
    positions(current.len()).filter_map(|i: int| update_at(current, desired, i))
}

/// The creations that lead from `current` to `desired`.
pub open spec fn creations(current: Seq<EndpointView>, desired: Seq<EndpointView>) -> Seq<
    ChangeView,
> {
    only_in(desired, current).map_values(|endpoint: EndpointView| ChangeView::Create(endpoint))
}

/// The changes that lead from `current` to `desired`, both indexed by
/// identity: all deletions, then all updates, then all creations.
pub open spec fn difference_of(current: Seq<EndpointView>, desired: Seq<EndpointView>) -> Seq<
    ChangeView,
> {
    deletions(current, desired) + updates(current, desired) + creations(current, desired)
}

/// Position of the last of `endpoints` with the given identity.
pub fn find_last(endpoints: &Vec<Endpoint>, identity: &EndpointIdent) -> (found: Option<usize>)
    ensures
        match found {
            Some(i) => is_last_match(endpoints.deep_view(), identity@, i as int),
            None => forall|k: int|
                0 <= k < endpoints.len() ==> (#[trigger] endpoints.deep_view()[k]).identity
                    != identity@,
        },
        found is Some <==> lookup(endpoints.deep_view(), identity@) is Some,
        found matches Some(i) ==> lookup(endpoints.deep_view(), identity@) == Some(
            endpoints.deep_view()[i as int],
        ),
{
    let mut i: usize = endpoints.len();
    while i > 0
        invariant
            i <= endpoints.len(),
            forall|k: int|
                i <= k < endpoints.len() ==> (#[trigger] endpoints.deep_view()[k]).identity
                    != identity@,
        decreases i,
    {
        i -= 1;
        if endpoints[i].identity == *identity {
            assert(endpoints.deep_view()[i as int].identity == identity@);
            assert(is_last_match(endpoints.deep_view(), identity@, i as int));
            return Some(i);
        }
        assert(endpoints.deep_view()[i as int].identity != identity@);
    }
    None
}

/// The changes for the endpoints that only `these` hold (see
/// [`only_in`]): their creations if `creating`, else their deletions.
fn one_sided(these: &Vec<Endpoint>, those: &Vec<Endpoint>, creating: bool) -> (changes: Vec<Change>)
    ensures
        changes.deep_view() == only_in(these.deep_view(), those.deep_view()).map_values(
            |endpoint: EndpointView|
                if creating {
                    ChangeView::Create(endpoint)
                } else {
                    ChangeView::Delete(endpoint)
                },
        ),
{
    let ghost ours = these.deep_view();
    let ghost theirs = those.deep_view();
    let ghost pick = |i: int| missing_at(ours, theirs, i);
    let ghost wrap = |endpoint: EndpointView|
        if creating {
            ChangeView::Create(endpoint)
        } else {
            ChangeView::Delete(endpoint)
        };
    let mut changes: Vec<Change> = Vec::new();
    let mut i: usize = 0;
    assert(positions(ours.len()).take(0) =~= Seq::empty());
    assert(changes.deep_view() =~= Seq::<EndpointView>::empty().map_values(wrap));
    while i < these.len()
        invariant
            i <= these.len(),
            ours == these.deep_view(),
            theirs == those.deep_view(),
            pick == |i: int| missing_at(ours, theirs, i),
            wrap == |endpoint: EndpointView|
                if creating {
                    ChangeView::Create(endpoint)
                } else {
                    ChangeView::Delete(endpoint)
                },
            changes.deep_view() == positions(ours.len()).take(i as int).filter_map(
                pick,
            ).map_values(wrap),
        decreases these.len() - i,
    {
        proof {
            positions(ours.len()).lemma_filter_map_take_succ(pick, i as int);
        }
        let ghost before = positions(ours.len()).take(i as int).filter_map(pick);
        let ghost prior = changes.deep_view();
        let here = find_last(these, &these[i].identity);
        let there = find_last(those, &these[i].identity);
        assert(ours[i as int].identity == these[i as int].identity@);
        if here == Some(i) && there.is_none() {
            let endpoint = these[i].clone();
            changes.push(
                if creating {
                    Change::Create(endpoint)
                } else {
                    Change::Delete(endpoint)
                },
            );
            assert(changes.deep_view() =~= prior.push(wrap(ours[i as int])));
            assert(changes.deep_view() =~= (before + seq![ours[i as int]]).map_values(wrap));
        }
        i += 1;
    }
    assert(positions(ours.len()).take(i as int) =~= positions(ours.len()));
    changes
}

/// The deletions that lead from `current` to `desired` (see [`deletions`]).
pub fn removals(current: &Vec<Endpoint>, desired: &Vec<Endpoint>) -> (changes: Vec<Change>)
    ensures
        changes.deep_view() == deletions(current.deep_view(), desired.deep_view()),
{
    let changes = one_sided(current, desired, false);
    assert(changes.deep_view() =~= deletions(current.deep_view(), desired.deep_view()));
    changes
}

/// The updates that lead from `current` to `desired` (see [`updates`]).
pub fn replacements(current: &Vec<Endpoint>, desired: &Vec<Endpoint>) -> (changes: Vec<Change>)
    ensures
        changes.deep_view() == updates(current.deep_view(), desired.deep_view()),
{
    let ghost ours = current.deep_view();
    let ghost theirs = desired.deep_view();
    let ghost pick = |i: int| update_at(ours, theirs, i);
    let mut changes: Vec<Change> = Vec::new();
    let mut i: usize = 0;
    assert(positions(ours.len()).take(0) =~= Seq::empty());
    assert(changes.deep_view() =~= Seq::empty());
    while i < current.len()
        invariant
            i <= current.len(),
            ours == current.deep_view(),
            theirs == desired.deep_view(),
            pick == |i: int| update_at(ours, theirs, i),
            changes.deep_view() == positions(ours.len()).take(i as int).filter_map(pick),
        decreases current.len() - i,
    {
        proof {
            positions(ours.len()).lemma_filter_map_take_succ(pick, i as int);
        }
        let ghost before = changes.deep_view();
        let old = &current[i];
        assert(ours[i as int] == old@);
        if find_last(current, &old.identity) == Some(i) {
            match find_last(desired, &old.identity) {
                Some(j) => {
                    let new = &desired[j];
                    assert(theirs[j as int] == new@);
                    if *old != *new {
                        changes.push(Change::Update { old: old.clone(), new: new.clone() });
                        assert(changes.deep_view() =~= before.push(
                            ChangeView::Update { old: ours[i as int], new: theirs[j as int] },
                        ));
                    }
                },
                None => {},
            }
        }
        i += 1;
    }
    assert(positions(ours.len()).take(i as int) =~= positions(ours.len()));
    changes
}

/// The creations that lead from `current` to `desired` (see [`creations`]).
pub fn additions(current: &Vec<Endpoint>, desired: &Vec<Endpoint>) -> (changes: Vec<Change>)
    ensures
        changes.deep_view() == creations(current.deep_view(), desired.deep_view()),
{
    let changes = one_sided(desired, current, true);
    assert(changes.deep_view() =~= creations(current.deep_view(), desired.deep_view()));
    changes
}

/// Computes a differential from two lists of endpoints.
pub trait EndpointDiff: Sized {
    /// Compare current (`self`) and desired (`other`) state, and compute
    /// the list of changes that moves from one state to the other.
    ///
    /// * Endpoints contained in `self` but not in `other` yield a [`Change::Delete`].
    /// * Endpoints contained in `other` but not in `self` yield a [`Change::Create`].
    /// * Endpoints contained in both yield a [`Change::Update`], if the
    ///   two entries are not identical.
    fn difference(self, other: Self) -> Vec<Change>;
}

impl EndpointDiff for Vec<Endpoint> {
    /// Both lists are taken as indexed by identity: of endpoints with one
    /// identity the last counts. The deletions come first, then the
    /// updates, then the creations, each kind in the order in which its
    /// endpoints stand in the list they are taken from (see
    /// [`difference_of`]).
    fn difference(self, other: Self) -> (changes: Vec<Change>)
        ensures
            changes.deep_view() == difference_of(self.deep_view(), other.deep_view()),
    {
        let mut changes = removals(&self, &other);
        let mut changed = replacements(&self, &other);
        let mut fresh = additions(&self, &other);
        let ghost gone = changes.deep_view();
        let ghost updated = changed.deep_view();
        let ghost created = fresh.deep_view();
        changes.append(&mut changed);
        changes.append(&mut fresh);
        assert(changes.deep_view() =~= gone + updated + created);
        changes
    }
}

/// The last endpoint with an identity is what the index holds under it.
pub proof fn lemma_lookup_last(endpoints: Seq<EndpointView>, identity: IdentView, i: int)
    requires
        is_last_match(endpoints, identity, i),
    ensures
        lookup(endpoints, identity) == Some(endpoints[i]),
{
    let chosen = choose|k: int| is_last_match(endpoints, identity, k);
    assert(is_last_match(endpoints, identity, chosen));
    if chosen < i {
        assert(endpoints[i].identity != identity);
    }
    if i < chosen {
        assert(endpoints[chosen].identity != identity);
    }
}

/// The index holds something under the identity of each of its endpoints.
pub proof fn lemma_lookup_found(endpoints: Seq<EndpointView>, identity: IdentView, i: int)
    requires
        0 <= i < endpoints.len(),
        endpoints[i].identity == identity,
    ensures
        lookup(endpoints, identity) is Some,
        lookup(endpoints, identity)->0.identity == identity,
    decreases endpoints.len() - i,
{
    if exists|k: int| i < k < endpoints.len() && (#[trigger] endpoints[k]).identity == identity {
        let k = choose|k: int|
            i < k < endpoints.len() && (#[trigger] endpoints[k]).identity == identity;
        lemma_lookup_found(endpoints, identity, k);
    } else {
        assert(is_last_match(endpoints, identity, i));
        lemma_lookup_last(endpoints, identity, i);
    }
}

/// The index holds nothing under an identity that none of its endpoints has.
pub proof fn lemma_lookup_absent(endpoints: Seq<EndpointView>, identity: IdentView)
    requires
        forall|k: int| 0 <= k < endpoints.len() ==> (#[trigger] endpoints[k]).identity != identity,
    ensures
        lookup(endpoints, identity) is None,
{
    if exists|i: int| is_last_match(endpoints, identity, i) {
        let i = choose|i: int| is_last_match(endpoints, identity, i);
        assert(endpoints[i].identity == identity);
    }
}

/// Every entry of [`updates`] is an update between two endpoints of one
/// identity that differ: the first is what `current` hold under that
/// identity, the second what `desired` hold under it.
pub proof fn lemma_updates_keep_identity(
    current: Seq<EndpointView>,
    desired: Seq<EndpointView>,
    k: int,
)
    requires
        0 <= k < updates(current, desired).len(),
    ensures
        updates(current, desired)[k] matches ChangeView::Update { old, new } && {
            &&& old.identity == new.identity
            &&& old != new
            &&& lookup(current, old.identity) == Some(old)
            &&& lookup(desired, old.identity) == Some(new)
        },
{
    let all = updates(current, desired);
    let pick = |i: int| update_at(current, desired, i);
    assert(all.contains(all[k]));
    positions(current.len()).lemma_filter_map_contains(pick, all[k]);
    let i = choose|i: int|
        #[trigger] positions(current.len()).contains(i) && pick(i) == Some(all[k]);
    assert(update_at(current, desired, i) == Some(all[k]));
    assert(survives(current, i));
    lemma_lookup_last(current, current[i].identity, i);
    let new = lookup(desired, current[i].identity)->0;
    let j = choose|j: int| is_last_match(desired, current[i].identity, j);
    assert(is_last_match(desired, current[i].identity, j));
}

/// The deleted endpoints of a difference are those that only `current`
/// hold, its created endpoints those that only `desired` hold, each in
/// the order of its source.
pub proof fn lemma_difference_groups(current: Seq<EndpointView>, desired: Seq<EndpointView>)
    ensures
        deleted(difference_of(current, desired)) == only_in(current, desired),
        created(difference_of(current, desired)) == only_in(desired, current),
{
    let gone = deletions(current, desired);
    let changed = updates(current, desired);
    let fresh = creations(current, desired);
    let pick_deleted = |change: ChangeView| deletion(change);
    let pick_created = |change: ChangeView| creation(change);
    assert forall|k: int| 0 <= k < changed.len() implies pick_deleted(#[trigger] changed[k])
        is None && pick_created(changed[k]) is None by {
        lemma_updates_keep_identity(current, desired, k);
    }
    lemma_filter_map_add(gone + changed, fresh, pick_deleted);
    lemma_filter_map_add(gone, changed, pick_deleted);
    lemma_filter_map_all(gone, pick_deleted, only_in(current, desired));
    lemma_filter_map_none(changed, pick_deleted);
    lemma_filter_map_none(fresh, pick_deleted);
    assert(deleted(difference_of(current, desired)) =~= only_in(current, desired));
    lemma_filter_map_add(gone + changed, fresh, pick_created);
    lemma_filter_map_add(gone, changed, pick_created);
    lemma_filter_map_none(gone, pick_created);
    lemma_filter_map_none(changed, pick_created);
    lemma_filter_map_all(fresh, pick_created, only_in(desired, current));
    assert(created(difference_of(current, desired)) =~= only_in(desired, current));
}

/// Idempotence: nothing leads from a state to itself.
pub proof fn lemma_difference_idempotent(endpoints: Seq<EndpointView>)
    ensures
        difference_of(endpoints, endpoints) == Seq::<ChangeView>::empty(),
{
    let all = positions(endpoints.len());
    assert forall|i: int| 0 <= i < all.len() implies (|i: int|
        missing_at(endpoints, endpoints, i))(#[trigger] all[i]) is None && (|i: int|
        update_at(endpoints, endpoints, i))(all[i]) is None by {
        if survives(endpoints, i) {
            lemma_lookup_last(endpoints, endpoints[i].identity, i);
        }
    }
    lemma_filter_map_none(all, |i: int| missing_at(endpoints, endpoints, i));
    lemma_filter_map_none(all, |i: int| update_at(endpoints, endpoints, i));
    assert(difference_of(endpoints, endpoints) =~= Seq::<ChangeView>::empty());
}

/// Symmetry: what leading from `a` to `b` deletes is what leading from
/// `b` to `a` creates, and the other way round.
pub proof fn lemma_difference_symmetric(a: Seq<EndpointView>, b: Seq<EndpointView>)
    ensures
        deleted(difference_of(a, b)) == created(difference_of(b, a)),
        created(difference_of(a, b)) == deleted(difference_of(b, a)),
{
    lemma_difference_groups(a, b);
    lemma_difference_groups(b, a);
}

/// The endpoints that stay when `endpoints` is indexed by identity, in
/// the order in which they stand there.
pub open spec fn indexed(endpoints: Seq<EndpointView>) -> Seq<EndpointView> {
    only_in(endpoints, Seq::empty())
}

/// Endpoints of distinct identities all stay when indexed.
pub proof fn lemma_indexed_distinct(endpoints: Seq<EndpointView>)
    requires
        distinct_identities(endpoints),
    ensures
        indexed(endpoints) == endpoints,
{
    let nothing = Seq::<EndpointView>::empty();
    assert forall|i: int| 0 <= i < endpoints.len() implies (|i: int|
        missing_at(endpoints, nothing, i))(#[trigger] positions(endpoints.len())[i]) == Some(
        endpoints[i],
    ) by {
        assert(survives(endpoints, i));
        lemma_lookup_absent(nothing, endpoints[i].identity);
    }
    lemma_filter_map_all(
        positions(endpoints.len()),
        |i: int| missing_at(endpoints, nothing, i),
        endpoints,
    );
}

/// What `a + b` hold and `a` lack, up to the first `n` endpoints of `b`.
proof fn lemma_only_in_appended(a: Seq<EndpointView>, b: Seq<EndpointView>, n: int)
    requires
        disjoint_identities(a, b),
        0 <= n <= b.len(),
    ensures
        positions((a + b).len()).take(a.len() + n).filter_map(
            |i: int| missing_at(a + b, a, i),
        ) == positions(b.len()).take(n).filter_map(
            |i: int| missing_at(b, Seq::empty(), i),
        ),
    decreases n,
{
    let both = a + b;
    let nothing = Seq::<EndpointView>::empty();
    let left = |i: int| missing_at(both, a, i);
    let right = |i: int| missing_at(b, nothing, i);
    if n == 0 {
        let head = positions(both.len()).take(a.len() as int);
        assert forall|i: int| 0 <= i < head.len() implies left(#[trigger] head[i]) is None by {
            assert(both[i] == a[i]);
            lemma_lookup_found(a, a[i].identity, i);
        }
        lemma_filter_map_none(head, left);
        assert(positions(b.len()).take(0) =~= Seq::<int>::empty());
    } else {
        lemma_only_in_appended(a, b, n - 1);
        positions(both.len()).lemma_filter_map_take_succ(left, a.len() + n - 1);
        positions(b.len()).lemma_filter_map_take_succ(right, n - 1);
        let here = a.len() + n - 1;
        assert(both[here] == b[n - 1]);
        assert(a.len() + n - 1 + 1 == a.len() + n);
        assert(n - 1 + 1 == n);
        lemma_lookup_absent(a, b[n - 1].identity);
        lemma_lookup_absent(nothing, b[n - 1].identity);
        if survives(b, n - 1) {
            assert forall|k: int| here < k < both.len() implies (#[trigger] both[k]).identity
                != both[here].identity by {
                assert(both[k] == b[k - a.len()]);
            }
            assert(survives(both, here));
        }
        if survives(both, here) {
            assert forall|k: int| n - 1 < k < b.len() implies (#[trigger] b[k]).identity != b[n
                - 1].identity by {
                assert(both[k + a.len()] == b[k]);
            }
            assert(survives(b, n - 1));
        }
        assert(left(here) == right(n - 1));
    }
}

/// Completeness: where no endpoint of `b` has the identity of an
/// endpoint of `a`, leading from `a` to `a` and `b` together takes one
/// creation for each endpoint that `b`, indexed by identity, hold, and
/// nothing else. Where the endpoints of `b` have distinct identities,
/// that is one creation for each endpoint of `b`.
pub proof fn lemma_difference_complete(a: Seq<EndpointView>, b: Seq<EndpointView>)
    requires
        disjoint_identities(a, b),
    ensures
        difference_of(a, a + b) == indexed(b).map_values(
            |endpoint: EndpointView| ChangeView::Create(endpoint),
        ),
        distinct_identities(b) ==> difference_of(a, a + b) == b.map_values(
            |endpoint: EndpointView| ChangeView::Create(endpoint),
        ),
{
    let both = a + b;
    let all = positions(a.len());
    assert forall|i: int| 0 <= i < all.len() implies (|i: int| missing_at(a, both, i))(
        #[trigger] all[i],
    ) is None && (|i: int| update_at(a, both, i))(all[i]) is None by {
        assert(both[i] == a[i]);
        lemma_lookup_found(both, a[i].identity, i);
        if survives(a, i) {
            assert forall|k: int| i < k < both.len() implies (#[trigger] both[k]).identity
                != a[i].identity by {
                if k < a.len() {
                    assert(both[k] == a[k]);
                } else {
                    assert(both[k] == b[k - a.len()]);
                }
            }
            assert(is_last_match(both, a[i].identity, i));
            lemma_lookup_last(both, a[i].identity, i);
        }
    }
    lemma_filter_map_none(all, |i: int| missing_at(a, both, i));
    lemma_filter_map_none(all, |i: int| update_at(a, both, i));
    lemma_only_in_appended(a, b, b.len() as int);
    assert(positions(both.len()).take(a.len() + (b.len() as int)) =~= positions(both.len()));
    assert(positions(b.len()).take(b.len() as int) =~= positions(b.len()));
    assert(only_in(both, a) == indexed(b));
    assert(difference_of(a, both) =~= indexed(b).map_values(
        |endpoint: EndpointView| ChangeView::Create(endpoint),
    ));
    if distinct_identities(b) {
        lemma_indexed_distinct(b);
    }
}

/// No two entries of [`updates`] are about the same identity.
pub proof fn lemma_updates_distinct(
    current: Seq<EndpointView>,
    desired: Seq<EndpointView>,
    k: int,
    l: int,
)
    requires
        0 <= k < l < updates(current, desired).len(),
    ensures
        updates(current, desired)[k]->old.identity != updates(current, desired)[l]->old.identity,
{
    let all = positions(current.len());
    let pick = |i: int| update_at(current, desired, i);
    let sources = lemma_filter_map_sources(all, pick);
    let p = sources[k];
    let q = sources[l];
    assert(all[p] == p && all[q] == q);
    assert(update_at(current, desired, p) == Some(updates(current, desired)[k]));
    assert(update_at(current, desired, q) == Some(updates(current, desired)[l]));
    assert(survives(current, p));
    assert(p < q);
    assert(current[q].identity != current[p].identity);
}

/// The updates of a difference are the entries of [`updates`].
pub proof fn lemma_difference_updates(current: Seq<EndpointView>, desired: Seq<EndpointView>)
    ensures
        updates_in(difference_of(current, desired)) == updates(current, desired),
{
    let gone = deletions(current, desired);
    let changed = updates(current, desired);
    let fresh = creations(current, desired);
    let pick_updates = |change: ChangeView| update(change);
    assert forall|k: int| 0 <= k < changed.len() implies pick_updates(#[trigger] changed[k])
        == Some(changed[k]) by {
        lemma_updates_keep_identity(current, desired, k);
    }
    lemma_filter_map_add(gone + changed, fresh, pick_updates);
    lemma_filter_map_add(gone, changed, pick_updates);
    lemma_filter_map_none(gone, pick_updates);
    lemma_filter_map_all(changed, pick_updates, changed);
    lemma_filter_map_none(fresh, pick_updates);
    assert(updates_in(difference_of(current, desired)) =~= changed);
}

/// A difference that travels as a batch arrives as it was: turned into a
/// batch and back, it is the same list of changes.
pub proof fn lemma_difference_round_trip(current: Seq<EndpointView>, desired: Seq<EndpointView>)
    ensures
        changes_of(batch_of(difference_of(current, desired))) == difference_of(current, desired),
{
    let difference = difference_of(current, desired);
    let batch = batch_of(difference);
    let changed = updates(current, desired);
    lemma_difference_groups(current, desired);
    lemma_difference_updates(current, desired);
    lemma_update_lists_aligned(difference);
    let olds = updated_from(difference);
    let news = updated_to(difference);
    assert forall|i: int| 0 <= i < olds.len() implies (#[trigger] olds[i]).identity
        == news[i].identity by {
        lemma_updates_keep_identity(current, desired, i);
        assert(changed[i] == ChangeView::Update { old: olds[i], new: news[i] });
    }
    assert forall|i: int, j: int| 0 <= i < j < news.len() implies (#[trigger] news[i]).identity != (
    #[trigger] news[j]).identity by {
        lemma_updates_distinct(current, desired, i, j);
        lemma_updates_keep_identity(current, desired, i);
        lemma_updates_keep_identity(current, desired, j);
        assert(changed[i] == ChangeView::Update { old: olds[i], new: news[i] });
        assert(changed[j] == ChangeView::Update { old: olds[j], new: news[j] });
    }
    lemma_round_trip(difference);
    lemma_changes_of_groups(batch);
    assert(changes_of(batch) =~= difference);
}

/// Each endpoint of [`only_in`] is what `these` hold under its identity,
/// and `those` hold nothing under it.
pub proof fn lemma_only_in_entry(these: Seq<EndpointView>, those: Seq<EndpointView>, k: int)
    requires
        0 <= k < only_in(these, those).len(),
    ensures
        lookup(these, only_in(these, those)[k].identity) == Some(only_in(these, those)[k]),
        lookup(those, only_in(these, those)[k].identity) is None,
{
    let all = positions(these.len());
    let pick = |i: int| missing_at(these, those, i);
    let sources = lemma_filter_map_sources(all, pick);
    let p = sources[k];
    assert(all[p] == p);
    assert(missing_at(these, those, p) == Some(only_in(these, those)[k]));
    lemma_lookup_last(these, these[p].identity, p);
}

/// No two endpoints of [`only_in`] have the same identity.
pub proof fn lemma_only_in_distinct(
    these: Seq<EndpointView>,
    those: Seq<EndpointView>,
    k: int,
    l: int,
)
    requires
        0 <= k < l < only_in(these, those).len(),
    ensures
        only_in(these, those)[k].identity != only_in(these, those)[l].identity,
{
    let all = positions(these.len());
    let pick = |i: int| missing_at(these, those, i);
    let sources = lemma_filter_map_sources(all, pick);
    let p = sources[k];
    let q = sources[l];
    assert(all[p] == p && all[q] == q);
    assert(missing_at(these, those, p) == Some(only_in(these, those)[k]));
    assert(missing_at(these, those, q) == Some(only_in(these, those)[l]));
    assert(survives(these, p));
    assert(p < q);
    assert(these[q].identity != these[p].identity);
}

/// The identity that a change is about: that of its endpoint, for an
/// update that of the endpoint it replaces.
pub open spec fn subject(change: ChangeView) -> IdentView {
    match change {
        ChangeView::Update { old, new } => old.identity,
        ChangeView::Delete(endpoint) => endpoint.identity,
        ChangeView::Create(endpoint) => endpoint.identity,
    }
}

/// Whether `change` is what leads from `current` to `desired` at the
/// identity it is about: a deletion of what only `current` hold there, a
/// creation of what only `desired` hold there, or an update from what
/// `current` hold there to what `desired` hold there, where the two differ.
pub open spec fn is_called_for(
    current: Seq<EndpointView>,
    desired: Seq<EndpointView>,
    change: ChangeView,
) -> bool {
    match change {
        ChangeView::Delete(endpoint) => {
            &&& lookup(current, endpoint.identity) == Some(endpoint)
            &&& lookup(desired, endpoint.identity) is None
        },
        ChangeView::Create(endpoint) => {
            &&& lookup(current, endpoint.identity) is None
            &&& lookup(desired, endpoint.identity) == Some(endpoint)
        },
        ChangeView::Update { old, new } => {
            &&& old.identity == new.identity
            &&& old != new
            &&& lookup(current, old.identity) == Some(old)
            &&& lookup(desired, old.identity) == Some(new)
        },
    }
}

/// The change that leads from `current` to `desired` at `identity`, if
/// one is needed there.
pub open spec fn change_at(
    current: Seq<EndpointView>,
    desired: Seq<EndpointView>,
    identity: IdentView,
) -> Option<ChangeView> {
    match (lookup(current, identity), lookup(desired, identity)) {
        (Some(old), None) => Some(ChangeView::Delete(old)),
        (None, Some(new)) => Some(ChangeView::Create(new)),
        (Some(old), Some(new)) => if old != new {
            Some(ChangeView::Update { old, new })
        } else {
            None
        },
        (None, None) => None,
    }
}

/// Where the three groups of a difference start and end.
proof fn lemma_difference_layout(current: Seq<EndpointView>, desired: Seq<EndpointView>)
    ensures
        difference_of(current, desired).len() == only_in(current, desired).len() + updates(
            current,
            desired,
        ).len() + only_in(desired, current).len(),
        forall|k: int|
            0 <= k < only_in(current, desired).len() ==> #[trigger] difference_of(
                current,
                desired,
            )[k] == ChangeView::Delete(only_in(current, desired)[k]),
        forall|k: int|
            0 <= k < updates(current, desired).len() ==> #[trigger] difference_of(
                current,
                desired,
            )[only_in(current, desired).len() + k] == updates(current, desired)[k],
        forall|k: int|
            0 <= k < only_in(desired, current).len() ==> #[trigger] difference_of(
                current,
                desired,
            )[only_in(current, desired).len() + updates(current, desired).len() + k]
                == ChangeView::Create(only_in(desired, current)[k]),
{
}

/// Every change of a difference is called for (see [`is_called_for`]):
/// it is the change that is needed at the identity it is about. The
/// deletions come first, then the updates, then the creations.
pub proof fn lemma_difference_sound(current: Seq<EndpointView>, desired: Seq<EndpointView>, k: int)
    requires
        0 <= k < difference_of(current, desired).len(),
    ensures
        is_called_for(current, desired, difference_of(current, desired)[k]),
        change_at(current, desired, subject(difference_of(current, desired)[k])) == Some(
            difference_of(current, desired)[k],
        ),
        difference_of(current, desired)[k] is Delete <==> k < deletions(current, desired).len(),
        difference_of(current, desired)[k] is Create <==> deletions(current, desired).len()
            + updates(current, desired).len() <= k,
{
    lemma_difference_layout(current, desired);
    let gone = only_in(current, desired).len();
    let changed = updates(current, desired).len();
    if k < gone {
        lemma_only_in_entry(current, desired, k);
    } else if k < gone + changed {
        lemma_updates_keep_identity(current, desired, k - gone);
        assert(difference_of(current, desired)[gone + (k - gone)] == updates(current, desired)[k
            - gone]);
    } else {
        lemma_only_in_entry(desired, current, k - gone - changed);
        assert(difference_of(current, desired)[gone + changed + (k - gone - changed)]
            == ChangeView::Create(only_in(desired, current)[k - gone - changed]));
    }
}

/// A difference holds the change that is needed at each identity.
pub proof fn lemma_difference_covers(
    current: Seq<EndpointView>,
    desired: Seq<EndpointView>,
    identity: IdentView,
)
    ensures
        change_at(current, desired, identity) matches Some(change) ==> difference_of(
            current,
            desired,
        ).contains(change),
{
    lemma_difference_layout(current, desired);
    let difference = difference_of(current, desired);
    let gone = only_in(current, desired);
    let changed = updates(current, desired);
    let fresh = only_in(desired, current);
    match (lookup(current, identity), lookup(desired, identity)) {
        (Some(old), None) => {
            let p = choose|p: int| is_last_match(current, identity, p);
            assert(is_last_match(current, identity, p));
            assert(positions(current.len())[p] == p);
            lemma_filter_map_includes(
                positions(current.len()),
                |i: int| missing_at(current, desired, i),
                p,
            );
            let k = choose|k: int| 0 <= k < gone.len() && gone[k] == old;
            assert(difference[k] == ChangeView::Delete(old));
        },
        (None, Some(new)) => {
            let p = choose|p: int| is_last_match(desired, identity, p);
            assert(is_last_match(desired, identity, p));
            assert(positions(desired.len())[p] == p);
            lemma_filter_map_includes(
                positions(desired.len()),
                |i: int| missing_at(desired, current, i),
                p,
            );
            let k = choose|k: int| 0 <= k < fresh.len() && fresh[k] == new;
            assert(difference[gone.len() + changed.len() + k] == ChangeView::Create(new));
        },
        (Some(old), Some(new)) => {
            if old != new {
                let p = choose|p: int| is_last_match(current, identity, p);
                assert(is_last_match(current, identity, p));
                assert(positions(current.len())[p] == p);
                lemma_filter_map_includes(
                    positions(current.len()),
                    |i: int| update_at(current, desired, i),
                    p,
                );
                let change = ChangeView::Update { old, new };
                let k = choose|k: int| 0 <= k < changed.len() && changed[k] == change;
                assert(difference[gone.len() + k] == change);
            }
        },
        (None, None) => {},
    }
}

/// No two changes of a difference are about the same identity.
pub proof fn lemma_difference_distinct(
    current: Seq<EndpointView>,
    desired: Seq<EndpointView>,
    k: int,
    l: int,
)
    requires
        0 <= k < l < difference_of(current, desired).len(),
    ensures
        subject(difference_of(current, desired)[k]) != subject(difference_of(current, desired)[l]),
{
    lemma_difference_layout(current, desired);
    lemma_difference_sound(current, desired, k);
    lemma_difference_sound(current, desired, l);
    let gone = only_in(current, desired).len();
    let changed = updates(current, desired).len();
    if l < gone {
        lemma_only_in_distinct(current, desired, k, l);
    } else if gone <= k && l < gone + changed {
        lemma_updates_distinct(current, desired, k - gone, l - gone);
        assert(difference_of(current, desired)[gone + (k - gone)] == updates(current, desired)[k
            - gone]);
        assert(difference_of(current, desired)[gone + (l - gone)] == updates(current, desired)[l
            - gone]);
    } else if gone + changed <= k {
        lemma_only_in_distinct(desired, current, k - gone - changed, l - gone - changed);
        assert(difference_of(current, desired)[gone + changed + (k - gone - changed)]
            == ChangeView::Create(only_in(desired, current)[k - gone - changed]));
        assert(difference_of(current, desired)[gone + changed + (l - gone - changed)]
            == ChangeView::Create(only_in(desired, current)[l - gone - changed]));
    }
}

} // verus!
