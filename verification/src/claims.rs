//! The timestamps of reports that a tip claim names: the oldest reports for a one-time tip,
//! the newest for a feed's tip.

use vstd::prelude::*;
use vstd::relations::{sorted_by, total_ordering};

verus! {

/// Timestamps in time order.
pub open spec fn earlier_or_same() -> spec_fn(u64, u64) -> bool {
    |a: u64, b: u64| a <= b
}

/// The reported timestamps in time order.
pub open spec fn in_time_order(reported: Seq<u64>) -> Seq<u64> {
    reported.sort_by(earlier_or_same())
}

/// The `count` oldest of the reported timestamps, oldest first (all of them when fewer).
pub open spec fn oldest(reported: Seq<u64>, count: nat) -> Seq<u64> {
    let sorted = in_time_order(reported);
    sorted.take(if count < sorted.len() { count as int } else { sorted.len() as int })
}

/// The `count` newest of the reported timestamps, newest first (all of them when fewer).
pub open spec fn newest(reported: Seq<u64>, count: nat) -> Seq<u64> {
    let sorted = in_time_order(reported).reverse();
    sorted.take(if count < sorted.len() { count as int } else { sorted.len() as int })
}

/// Time order is a total order.
pub proof fn lemma_time_order_total()
    ensures
        total_ordering(earlier_or_same()),
{
    let r = earlier_or_same();
    assert(vstd::relations::reflexive(r));
    assert(vstd::relations::antisymmetric(r));
    assert(vstd::relations::transitive(r));
    assert(vstd::relations::strongly_connected(r));
}

/// The reported timestamps in time order; each timestamp occurs as often as it was reported.
pub fn sort_timestamps(reported: &Vec<u64>) -> (sorted: Vec<u64>)
    ensures
        sorted@ == in_time_order(reported@),
{
    broadcast use vstd::seq_lib::group_to_multiset_ensures;

    let mut sorted: Vec<u64> = Vec::new();
    let mut i: usize = 0;
    while i < reported.len()
        invariant
            i <= reported.len(),
            sorted_by(sorted@, earlier_or_same()),
            sorted@.to_multiset() == reported@.take(i as int).to_multiset(),
        decreases reported.len() - i,
    {
        let x: u64 = reported[i];
        let mut p: usize = 0;
        while p < sorted.len() && sorted[p] <= x
            invariant
                p <= sorted.len(),
                forall|k: int| 0 <= k < p ==> sorted@[k] <= x,
                i < reported.len(),
                x == reported@[i as int],
                sorted_by(sorted@, earlier_or_same()),
                sorted@.to_multiset() == reported@.take(i as int).to_multiset(),
            decreases sorted.len() - p,
        {
            p = p + 1;
        }
        let ghost before = sorted@;
        sorted.insert(p, x);
        proof {
            assert(reported@.take(i + 1) =~= reported@.take(i as int).push(x));
            vstd::seq_lib::to_multiset_insert(before, p as int, x);
            vstd::seq_lib::to_multiset_build(reported@.take(i as int), x);
            assert forall|a: int, b: int| 0 <= a < b < sorted@.len() implies #[trigger] (
            earlier_or_same())(sorted@[a], sorted@[b]) by {
                if b < p {
                    assert((earlier_or_same())(before[a], before[b]));
                } else if b == p {
                    assert(before[a] <= x);
                } else if a < p {
                    assert(p < before.len());
                    assert(before[p as int] > x);
                    assert((earlier_or_same())(before[a], before[b - 1]));
                } else if a == p {
                    assert(before[p as int] > x);
                    if b - 1 > p {
                        assert((earlier_or_same())(before[p as int], before[b - 1]));
                    }
                } else {
                    assert((earlier_or_same())(before[a - 1], before[b - 1]));
                }
            }
        }
        i = i + 1;
    }
    proof {
        assert(reported@.take(reported@.len() as int) =~= reported@);
        lemma_time_order_total();
        reported@.lemma_sort_by_ensures(earlier_or_same());
        vstd::seq_lib::lemma_sorted_unique(sorted@, in_time_order(reported@), earlier_or_same());
    }
    sorted
}

/// The timestamps that a claim of one-time tips names: the `count` oldest reports, oldest
/// first.
pub fn oldest_timestamps(reported: &Vec<u64>, count: u32) -> (claimed: Vec<u64>)
    ensures
        claimed@ == oldest(reported@, count as nat),
{
    let sorted = sort_timestamps(reported);
    let mut claimed: Vec<u64> = Vec::new();
    let mut i: usize = 0;
    while i < sorted.len() && i < count as usize
        invariant
            i <= sorted.len(),
            i <= count,
            claimed@ == sorted@.take(i as int),
        decreases sorted.len() - i,
    {
        claimed.push(sorted[i]);
        proof {
            assert(sorted@.take(i + 1) =~= sorted@.take(i as int).push(sorted@[i as int]));
        }
        i = i + 1;
    }
    claimed
}

/// The timestamps that a claim of a feed's tips names: the `count` newest reports, newest
/// first.
pub fn newest_timestamps(reported: &Vec<u64>, count: u32) -> (claimed: Vec<u64>)
    ensures
        claimed@ == newest(reported@, count as nat),
{
    let sorted = sort_timestamps(reported);
    let n = sorted.len();
    let mut claimed: Vec<u64> = Vec::new();
    let mut i: usize = 0;
    while i < n && i < count as usize
        invariant
            n == sorted@.len(),
            i <= n,
            i <= count,
            claimed@ == sorted@.reverse().take(i as int),
        decreases n - i,
    {
        claimed.push(sorted[n - 1 - i]);
        proof {
            assert(sorted@.reverse().take(i + 1) =~= sorted@.reverse().take(i as int).push(
                sorted@[n - 1 - i],
            ));
        }
        i = i + 1;
    }
    claimed
}

/// Law: a claim names only reported timestamps, the oldest in ascending and the newest in
/// descending time order.
pub proof fn lemma_claimed_timestamps(reported: Seq<u64>, count: nat)
    ensures
        forall|i: int|
            0 <= i < oldest(reported, count).len() ==> reported.contains(
                #[trigger] oldest(reported, count)[i],
            ),
        forall|i: int|
            0 <= i < newest(reported, count).len() ==> reported.contains(
                #[trigger] newest(reported, count)[i],
            ),
        forall|i: int, j: int|
            0 <= i < j < oldest(reported, count).len() ==> oldest(reported, count)[i] <= oldest(
                reported,
                count,
            )[j],
        forall|i: int, j: int|
            0 <= i < j < newest(reported, count).len() ==> newest(reported, count)[i] >= newest(
                reported,
                count,
            )[j],
{
    broadcast use vstd::seq_lib::group_to_multiset_ensures;

    let sorted = in_time_order(reported);
    lemma_time_order_total();
    reported.lemma_sort_by_ensures(earlier_or_same());
    assert forall|i: int| 0 <= i < sorted.len() implies reported.contains(#[trigger] sorted[i]) by {
        assert(sorted.contains(sorted[i]));
        assert(sorted.to_multiset().count(sorted[i]) > 0);
    }
    assert forall|i: int, j: int| 0 <= i < j < sorted.len() implies sorted[i] <= sorted[j] by {
        assert((earlier_or_same())(sorted[i], sorted[j]));
    }
    let o = oldest(reported, count);
    let w = newest(reported, count);
    let rev = sorted.reverse();
    assert forall|i: int| 0 <= i < o.len() implies reported.contains(#[trigger] o[i]) by {
        assert(o[i] == sorted[i]);
    }
    assert forall|i: int| 0 <= i < w.len() implies reported.contains(#[trigger] w[i]) by {
        assert(w[i] == rev[i]);
        assert(rev[i] == sorted[sorted.len() - 1 - i]);
    }
    assert forall|i: int, j: int| 0 <= i < j < o.len() implies o[i] <= o[j] by {
        assert(o[i] == sorted[i] && o[j] == sorted[j]);
    }
    assert forall|i: int, j: int| 0 <= i < j < w.len() implies w[i] >= w[j] by {
        assert(w[i] == sorted[sorted.len() - 1 - i]);
        assert(w[j] == sorted[sorted.len() - 1 - j]);
    }
}

} // verus!
