//! Sequences gathered step by step until a step fails.

use vstd::prelude::*;
use crate::error::NtfsError;

verus! {

/// An outcome with its value taken by its view.
pub open spec fn model<T: View>(r: Result<T, NtfsError>) -> Result<T::V, NtfsError> {
    match r {
        Ok(v) => Ok(v@),
        Err(e) => Err(e),
    }
}

/// A sequence with each item taken by its view.
pub open spec fn models<T: View>(items: Seq<T>) -> Seq<T::V> {
    items.map_values(|item: T| item@)
}

/// An outcome whose value is a list, each item taken by its view.
pub open spec fn model_list<T: View>(r: Result<Vec<T>, NtfsError>) -> Result<Seq<T::V>, NtfsError> {
    match r {
        Ok(items) => Ok(models(items@)),
        Err(e) => Err(e),
    }
}

/// The models of a list with one item more.
pub proof fn lemma_models_push<T: View>(items: Seq<T>, item: T)
    ensures
        models(items.push(item)) == models(items).push(item@),
{
    assert(models(items.push(item)) =~= models(items).push(item@));
}

/// What a walk yields whose first items are `first` and whose remainder is `rest`:
/// all the items in order, or the remainder's error.
pub open spec fn chain<T>(first: Seq<T>, rest: Result<Seq<T>, NtfsError>) -> Result<
    Seq<T>,
    NtfsError,
> {
    match rest {
        Ok(items) => Ok(first + items),
        Err(e) => Err(e),
    }
}

/// Moving one item from the remainder to the front changes nothing.
pub proof fn lemma_chain_push<T>(first: Seq<T>, item: T, rest: Result<Seq<T>, NtfsError>)
    ensures
        chain(first.push(item), rest) == chain(first, chain(seq![item], rest)),
{
    match rest {
        Ok(items) => {
            assert(first.push(item) + items =~= first + (seq![item] + items));
        },
        Err(_) => {},
    }
}

/// Nothing gathered yet: the remainder is everything.
pub proof fn lemma_chain_empty<T>(rest: Result<Seq<T>, NtfsError>)
    ensures
        chain(Seq::<T>::empty(), rest) == rest,
{
    match rest {
        Ok(items) => {
            assert(Seq::<T>::empty() + items =~= items);
        },
        Err(_) => {},
    }
}

/// Nothing left: what was gathered is everything.
pub proof fn lemma_chain_done<T>(first: Seq<T>)
    ensures
        chain(first, Ok(Seq::<T>::empty())) == Ok::<Seq<T>, NtfsError>(first),
{
    assert(first + Seq::<T>::empty() =~= first);
}

/// The first item from `i` on that satisfies `wanted`.
pub open spec fn first_from<T>(items: Seq<T>, wanted: spec_fn(T) -> bool, i: int) -> Option<T>
    decreases items.len() - i,
{
    if i < 0 || i >= items.len() {
        None
    } else if wanted(items[i]) {
        Some(items[i])
    } else {
        first_from(items, wanted, i + 1)
    }
}

/// The first item that satisfies `wanted`.
pub open spec fn first<T>(items: Seq<T>, wanted: spec_fn(T) -> bool) -> Option<T> {
    first_from(items, wanted, 0)
}

/// The search may skip items that are not wanted.
pub proof fn lemma_first_skip<T>(items: Seq<T>, wanted: spec_fn(T) -> bool, i: int)
    requires
        0 <= i <= items.len(),
        forall|j: int| 0 <= j < i ==> !wanted(#[trigger] items[j]),
    ensures
        first(items, wanted) == first_from(items, wanted, i),
    decreases i,
{
    if i > 0 {
        lemma_first_skip(items, wanted, i - 1);
    }
}

/// A list that grows by one item keeps what it selected before.
pub proof fn lemma_filter_step<T>(items: Seq<T>, wanted: spec_fn(T) -> bool, n: int)
    requires
        0 <= n < items.len(),
    ensures
        items.take(n + 1).filter(wanted) == (if wanted(items[n]) {
            items.take(n).filter(wanted).push(items[n])
        } else {
            items.take(n).filter(wanted)
        }),
{
    assert(items.take(n + 1).drop_last() =~= items.take(n));
    assert(items.take(n + 1).last() == items[n]);
    reveal(Seq::filter);
}

/// A selection holds exactly the wanted items.
pub proof fn lemma_filter_picks<T>(items: Seq<T>, wanted: spec_fn(T) -> bool)
    ensures
        forall|x: T| #[trigger]
            items.filter(wanted).contains(x) <==> items.contains(x) && wanted(x),
    decreases items.len(),
{
    reveal(Seq::filter);
    if items.len() > 0 {
        let shorter = items.drop_last();
        lemma_filter_picks(shorter, wanted);
        let picked = items.filter(wanted);
        let before = shorter.filter(wanted);
        assert forall|x: T| #[trigger]
            picked.contains(x) <==> items.contains(x) && wanted(x) by {
            if picked.contains(x) {
                let i = choose|i: int| 0 <= i < picked.len() && picked[i] == x;
                if i < before.len() {
                    assert(before[i] == x);
                    assert(before.contains(x));
                    let k = choose|k: int| 0 <= k < shorter.len() && shorter[k] == x;
                    assert(items[k] == x);
                } else {
                    assert(items[items.len() - 1] == x);
                }
            }
            if items.contains(x) && wanted(x) {
                let k = choose|k: int| 0 <= k < items.len() && items[k] == x;
                if k < items.len() - 1 {
                    assert(shorter[k] == x);
                    assert(before.contains(x));
                    let i = choose|i: int| 0 <= i < before.len() && before[i] == x;
                    assert(picked[i] == x);
                } else {
                    assert(picked[picked.len() - 1] == x);
                }
            }
        }
    }
}

/// The first wanted item is the one before which none is wanted, and there is none exactly
/// when no item is wanted.
pub proof fn lemma_first_is<T>(items: Seq<T>, wanted: spec_fn(T) -> bool, i: int)
    requires
        0 <= i <= items.len(),
        forall|j: int| 0 <= j < i ==> !wanted(#[trigger] items[j]),
        i < items.len() ==> wanted(items[i]),
    ensures
        first(items, wanted) == if i < items.len() {
            Some(items[i])
        } else {
            None
        },
{
    lemma_first_skip(items, wanted, i);
}

} // verus!
