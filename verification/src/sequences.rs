//! Facts about `Seq::filter_map` that the laws of this crate rest on.

use vstd::prelude::*;

verus! {

/// Selecting from a concatenation is selecting from both parts.
pub proof fn lemma_filter_map_add<A, B>(left: Seq<A>, right: Seq<A>, f: spec_fn(A) -> Option<B>)
    ensures
        (left + right).filter_map(f) == left.filter_map(f) + right.filter_map(f),
    decreases right.len(),
{
    if right.len() == 0 {
        assert(left + right =~= left);
        assert(left.filter_map(f) + right.filter_map(f) =~= left.filter_map(f));
    } else {
        assert((left + right).drop_last() =~= left + right.drop_last());
        assert((left + right).last() == right.last());
        lemma_filter_map_add(left, right.drop_last(), f);
        assert((left + right).filter_map(f) =~= left.filter_map(f) + right.filter_map(f));
    }
}

/// Where nothing is selected, the selection is empty.
pub proof fn lemma_filter_map_none<A, B>(s: Seq<A>, f: spec_fn(A) -> Option<B>)
    requires
        forall|i: int| 0 <= i < s.len() ==> f(#[trigger] s[i]) is None,
    ensures
        s.filter_map(f) == Seq::<B>::empty(),
    decreases s.len(),
{
    if s.len() > 0 {
        assert(f(s[s.len() - 1]) is None);
        assert forall|i: int| 0 <= i < s.drop_last().len() implies f(
            #[trigger] s.drop_last()[i],
        ) is None by {
            assert(f(s[i]) is None);
        }
        lemma_filter_map_none(s.drop_last(), f);
    }
}

/// Where every item is selected, the selection holds what each item is mapped to.
pub proof fn lemma_filter_map_all<A, B>(s: Seq<A>, f: spec_fn(A) -> Option<B>, t: Seq<B>)
    requires
        t.len() == s.len(),
        forall|i: int| 0 <= i < s.len() ==> f(#[trigger] s[i]) == Some(t[i]),
    ensures
        s.filter_map(f) == t,
    decreases s.len(),
{
    if s.len() == 0 {
        assert(t =~= Seq::<B>::empty());
    } else {
        assert(f(s[s.len() - 1]) == Some(t[s.len() - 1]));
        assert forall|i: int| 0 <= i < s.drop_last().len() implies f(
            #[trigger] s.drop_last()[i],
        ) == Some(t.drop_last()[i]) by {
            assert(f(s[i]) == Some(t[i]));
        }
        lemma_filter_map_all(s.drop_last(), f, t.drop_last());
        assert(s.filter_map(f) =~= t);
    }
}

/// A selection is as long as its source exactly when every item is selected.
pub proof fn lemma_filter_map_len<A, B>(s: Seq<A>, f: spec_fn(A) -> Option<B>)
    ensures
        s.filter_map(f).len() <= s.len(),
        s.filter_map(f).len() == s.len() <==> forall|i: int|
            0 <= i < s.len() ==> f(#[trigger] s[i]) is Some,
    decreases s.len(),
{
    if s.len() > 0 {
        let front = s.drop_last();
        lemma_filter_map_len(front, f);
        if s.filter_map(f).len() == s.len() {
            assert(f(s.last()) is Some);
            assert forall|i: int| 0 <= i < s.len() implies f(#[trigger] s[i]) is Some by {
                if i < front.len() {
                    assert(f(front[i]) is Some);
                }
            }
        }
        if forall|i: int| 0 <= i < s.len() ==> f(#[trigger] s[i]) is Some {
            assert(f(s[s.len() - 1]) is Some);
            assert forall|i: int| 0 <= i < front.len() implies f(#[trigger] front[i]) is Some by {
                assert(f(s[i]) is Some);
            }
        }
    }
}

/// Where each entry of a selection comes from: one position of the source
/// for each entry, and these positions ascend.
pub proof fn lemma_filter_map_sources<A, B>(s: Seq<A>, f: spec_fn(A) -> Option<B>) -> (sources: Seq<
    int,
>)
    ensures
        sources.len() == s.filter_map(f).len(),
        forall|k: int|
            0 <= k < sources.len() ==> 0 <= #[trigger] sources[k] < s.len() && f(s[sources[k]])
                == Some(s.filter_map(f)[k]),
        forall|k: int, l: int|
            0 <= k < l < sources.len() ==> #[trigger] sources[k] < #[trigger] sources[l],
    decreases s.len(),
{
    if s.len() == 0 {
        Seq::empty()
    } else {
        let front = s.drop_last();
        let before = lemma_filter_map_sources(front, f);
        assert forall|k: int| 0 <= k < before.len() implies f(s[#[trigger] before[k]]) == Some(
            front.filter_map(f)[k],
        ) by {
            assert(front[before[k]] == s[before[k]]);
        }
        match f(s.last()) {
            Some(_) => before.push(s.len() - 1),
            None => before,
        }
    }
}

/// What is selected at a position of the source is in the selection.
pub proof fn lemma_filter_map_includes<A, B>(s: Seq<A>, f: spec_fn(A) -> Option<B>, p: int)
    requires
        0 <= p < s.len(),
        f(s[p]) is Some,
    ensures
        s.filter_map(f).contains(f(s[p])->0),
    decreases s.len(),
{
    let front = s.drop_last();
    let wanted = f(s[p])->0;
    if p == s.len() - 1 {
        let selection = s.filter_map(f);
        assert(selection =~= front.filter_map(f) + seq![wanted]);
        assert(selection[selection.len() - 1] == wanted);
    } else {
        assert(front[p] == s[p]);
        lemma_filter_map_includes(front, f, p);
        let found = front.filter_map(f);
        let k = choose|k: int| 0 <= k < found.len() && found[k] == wanted;
        assert(s.filter_map(f)[k] == wanted);
    }
}

} // verus!
