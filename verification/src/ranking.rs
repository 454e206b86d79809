//! Putting things in order of rank.

use vstd::prelude::*;

verus! {

/// Things with a rank: a strict order that says which of two comes first.
pub trait Ranked: Sized {
    /// `self` comes before `other`.
    spec fn ranks_before(&self, other: &Self) -> bool;

    /// Whether `self` comes before `other`.
    fn is_before(&self, other: &Self) -> (before: bool)
        ensures
            before == self.ranks_before(other),
    ;

    /// Nothing comes before itself.
    proof fn lemma_ranks_irreflexive(a: &Self)
        ensures
            !a.ranks_before(a),
    ;

    /// What comes before something that comes before a third thing comes
    /// before the third thing.
    proof fn lemma_ranks_transitive(a: &Self, b: &Self, c: &Self)
        requires
            a.ranks_before(b),
            b.ranks_before(c),
        ensures
            a.ranks_before(c),
    ;
}

/// `items` are in order of rank: none comes before one that precedes it.
pub open spec fn in_rank_order<T: Ranked>(items: Seq<T>) -> bool {
    forall|i: int, j: int|
        #![trigger items[i], items[j]]
        0 <= i < j < items.len() ==> !items[j].ranks_before(&items[i])
}

/// The sum of `measure` over `items`.
pub open spec fn sum_by<T>(items: Seq<T>, measure: spec_fn(T) -> int) -> int
    decreases items.len(),
{
    if items.len() == 0 {
        0
    } else {
        sum_by(items.drop_last(), measure) + measure(items.last())
    }
}

/// An item put anywhere into a sequence adds its measure to the sum.
pub proof fn lemma_sum_by_insert<T>(items: Seq<T>, at: int, item: T, measure: spec_fn(T) -> int)
    requires
        0 <= at <= items.len(),
    ensures
        sum_by(items.insert(at, item), measure) == sum_by(items, measure) + measure(item),
    decreases items.len(),
{
    let after = items.insert(at, item);
    if at == items.len() {
        assert(after.drop_last() =~= items);
    } else {
        assert(after.drop_last() =~= items.drop_last().insert(at, item));
        lemma_sum_by_insert(items.drop_last(), at, item, measure);
    }
}

/// An item put in the place of another changes the sum by the difference of
/// their measures.
pub proof fn lemma_sum_by_update<T>(items: Seq<T>, at: int, item: T, measure: spec_fn(T) -> int)
    requires
        0 <= at < items.len(),
    ensures
        sum_by(items.update(at, item), measure) == sum_by(items, measure) - measure(items[at])
            + measure(item),
    decreases items.len(),
{
    let after = items.update(at, item);
    if at == items.len() - 1 {
        assert(after.drop_last() =~= items.drop_last());
    } else {
        assert(after.drop_last() =~= items.drop_last().update(at, item));
        lemma_sum_by_update(items.drop_last(), at, item, measure);
    }
}

/// An item put behind the others adds its measure to the sum.
pub proof fn lemma_sum_by_push<T>(items: Seq<T>, item: T, measure: spec_fn(T) -> int)
    ensures
        sum_by(items.push(item), measure) == sum_by(items, measure) + measure(item),
{
    assert(items.push(item).drop_last() =~= items);
}

/// Where no measure is negative, no item measures more than the sum.
pub proof fn lemma_sum_by_bounds<T>(items: Seq<T>, at: int, measure: spec_fn(T) -> int)
    requires
        0 <= at < items.len(),
        forall|item: T| #[trigger] measure(item) >= 0,
    ensures
        measure(items[at]) <= sum_by(items, measure),
    decreases items.len(),
{
    lemma_sum_by_nonnegative(items.drop_last(), measure);
    if at < items.len() - 1 {
        lemma_sum_by_bounds(items.drop_last(), at, measure);
    }
}

/// Where no measure is negative, the first `n` items sum to no more than
/// all of them.
pub proof fn lemma_sum_by_take<T>(items: Seq<T>, n: int, measure: spec_fn(T) -> int)
    requires
        0 <= n <= items.len(),
        forall|item: T| #[trigger] measure(item) >= 0,
    ensures
        0 <= sum_by(items.take(n), measure) <= sum_by(items, measure),
        n < items.len() ==> sum_by(items.take(n + 1), measure) == sum_by(items.take(n), measure)
            + measure(items[n]),
    decreases items.len() - n,
{
    if n < items.len() {
        assert(items.take(n + 1).drop_last() =~= items.take(n));
        lemma_sum_by_take(items, n + 1, measure);
    } else {
        assert(items.take(n) =~= items);
    }
    lemma_sum_by_nonnegative(items.take(n), measure);
}

/// Where no measure is negative, no sum is.
pub proof fn lemma_sum_by_nonnegative<T>(items: Seq<T>, measure: spec_fn(T) -> int)
    requires
        forall|item: T| #[trigger] measure(item) >= 0,
    ensures
        sum_by(items, measure) >= 0,
    decreases items.len(),
{
    if items.len() > 0 {
        lemma_sum_by_nonnegative(items.drop_last(), measure);
    }
}

/// The same items in order of rank. Every item of the result is one of
/// `items` and the other way round, and whatever is summed over the items
/// comes to the same.
pub fn sort_ranked<T: Ranked>(items: Vec<T>) -> (sorted: Vec<T>)
    ensures
        in_rank_order(sorted@),
        sorted@.len() == items@.len(),
        forall|i: int| 0 <= i < items@.len() ==> sorted@.contains(#[trigger] items@[i]),
        forall|j: int| 0 <= j < sorted@.len() ==> items@.contains(#[trigger] sorted@[j]),
        forall|measure: spec_fn(T) -> int| #[trigger]
            sum_by(sorted@, measure) == sum_by(items@, measure),
        items@.no_duplicates() ==> sorted@.no_duplicates(),
{
    let ghost given = items@;
    let mut rest = items;
    let mut sorted: Vec<T> = Vec::new();
    while rest.len() > 0
        invariant
            in_rank_order(sorted@),
            rest@ == given.take(rest@.len() as int),
            rest@.len() <= given.len(),
            sorted@.len() + rest@.len() == given.len(),
            forall|i: int|
                rest@.len() <= i < given.len() ==> sorted@.contains(#[trigger] given[i]),
            forall|j: int| 0 <= j < sorted@.len() ==> given.contains(#[trigger] sorted@[j]),
            forall|measure: spec_fn(T) -> int|
                sum_by(sorted@, measure) + #[trigger] sum_by(rest@, measure) == sum_by(
                    given,
                    measure,
                ),
            given.no_duplicates() ==> sorted@.no_duplicates(),
            given.no_duplicates() ==> forall|j: int, k: int|
                0 <= j < sorted@.len() && 0 <= k < rest@.len() ==> #[trigger] sorted@[j]
                    != #[trigger] given[k],
        decreases rest@.len(),
    {
        let ghost rest_before = rest@;
        let ghost sorted_before = sorted@;
        let item = rest.pop().unwrap();
        assert(rest@ =~= rest_before.drop_last());
        assert(item == given[rest@.len() as int]);
        let mut at: usize = 0;
        while at < sorted.len() && !item.is_before(&sorted[at])
            invariant
                at <= sorted@.len(),
                forall|k: int| 0 <= k < at ==> !item.ranks_before(&#[trigger] sorted@[k]),
            decreases sorted@.len() - at,
        {
            at += 1;
        }
        sorted.insert(at, item);
        proof {
            let after = sorted@;
            assert forall|i: int, j: int|
                #![trigger after[i], after[j]]
                0 <= i < j < after.len() implies !after[j].ranks_before(&after[i]) by {
                if j == at {
                    assert(after[i] == sorted_before[i]);
                } else if i == at {
                    assert(after[j] == sorted_before[j - 1]);
                    if after[j].ranks_before(&item) {
                        T::lemma_ranks_transitive(&after[j], &item, &sorted_before[at as int]);
                        if j - 1 == at {
                            T::lemma_ranks_irreflexive(&sorted_before[at as int]);
                        }
                    }
                } else {
                    let a = if i < at { i } else { i - 1 };
                    let b = if j < at { j } else { j - 1 };
                    assert(after[i] == sorted_before[a]);
                    assert(after[j] == sorted_before[b]);
                }
            }
            assert forall|i: int| rest@.len() <= i < given.len() implies after.contains(
                #[trigger] given[i],
            ) by {
                if i == rest@.len() {
                    assert(after[at as int] == item);
                } else {
                    let k = choose|k: int|
                        0 <= k < sorted_before.len() && sorted_before[k] == given[i];
                    let shifted = if k < at { k } else { k + 1 };
                    assert(after[shifted] == given[i]);
                }
            }
            assert forall|j: int| 0 <= j < after.len() implies given.contains(
                #[trigger] after[j],
            ) by {
                if j == at {
                } else {
                    let b = if j < at { j } else { j - 1 };
                    assert(after[j] == sorted_before[b]);
                }
            }
            assert forall|measure: spec_fn(T) -> int|
                sum_by(after, measure) + #[trigger] sum_by(rest@, measure) == sum_by(
                    given,
                    measure,
                ) by {
                lemma_sum_by_insert(sorted_before, at as int, item, measure);
                assert(sum_by(rest_before, measure) == sum_by(rest@, measure) + measure(item));
            }
            if given.no_duplicates() {
                assert forall|i: int, j: int|
                    0 <= i < after.len() && 0 <= j < after.len() && i != j implies after[i]
                    != after[j] by {
                    let a = if i < at { i } else { i - 1 };
                    let b = if j < at { j } else { j - 1 };
                    if i == at {
                        assert(after[j] == sorted_before[b]);
                        assert(sorted_before[b] != given[rest@.len() as int]);
                    } else if j == at {
                        assert(after[i] == sorted_before[a]);
                        assert(sorted_before[a] != given[rest@.len() as int]);
                    } else {
                        assert(after[i] == sorted_before[a]);
                        assert(after[j] == sorted_before[b]);
                    }
                }
                assert forall|j: int, k: int|
                    0 <= j < after.len() && 0 <= k < rest@.len() implies #[trigger] after[j]
                    != #[trigger] given[k] by {
                    if j == at {
                    } else {
                        let b = if j < at { j } else { j - 1 };
                        assert(after[j] == sorted_before[b]);
                    }
                }
            }
        }
    }
    proof {
        assert(rest@ =~= Seq::empty());
        assert forall|measure: spec_fn(T) -> int| #[trigger]
            sum_by(sorted@, measure) == sum_by(given, measure) by {
            assert(sum_by(rest@, measure) == 0);
        }
    }
    sorted
}

} // verus!
