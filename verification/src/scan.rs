//! Picking entries of a list.

use crate::ieee::Float64;
use vstd::prelude::*;

verus! {

pub open spec fn all_numbers(s: Seq<Float64>) -> bool {
    forall|i: int| 0 <= i < s.len() ==> !(#[trigger] s[i]).nan()
}

/// The entry that a walk through `s` ends on when it starts at the first and moves wherever an
/// entry is less than the one it stands on.
pub open spec fn least_of(s: Seq<Float64>) -> int
    decreases s.len(),
{
    if s.len() <= 1 {
        0
    } else {
        let before = least_of(s.drop_last());
        if s.last().less(s[before]) {
            s.len() - 1
        } else {
            before
        }
    }
}

/// The entry that a walk through `s` ends on when it starts at the first and moves wherever an
/// entry is greater than the one it stands on.
pub open spec fn greatest_of(s: Seq<Float64>) -> int
    decreases s.len(),
{
    if s.len() <= 1 {
        0
    } else {
        let before = greatest_of(s.drop_last());
        if s[before].less(s.last()) {
            s.len() - 1
        } else {
            before
        }
    }
}

pub fn least_index(s: &[Float64]) -> (r: usize)
    requires
        s.len() > 0,
    ensures
        r < s.len(),
        r == least_of(s@),
{
    let mut best: usize = 0;
    let mut i: usize = 1;
    while i < s.len()
        invariant
            1 <= i <= s.len(),
            best < i,
            best == least_of(s@.take(i as int)),
        decreases s.len() - i,
    {
        proof {
            assert(s@.take(i + 1).drop_last() =~= s@.take(i as int));
        }
        if s[i].lt(s[best]) {
            best = i;
        }
        i += 1;
    }
    assert(s@.take(i as int) =~= s@);
    best
}

pub fn greatest_index(s: &[Float64]) -> (r: usize)
    requires
        s.len() > 0,
    ensures
        r < s.len(),
        r == greatest_of(s@),
{
    let mut best: usize = 0;
    let mut i: usize = 1;
    while i < s.len()
        invariant
            1 <= i <= s.len(),
            best < i,
            best == greatest_of(s@.take(i as int)),
        decreases s.len() - i,
    {
        proof {
            assert(s@.take(i + 1).drop_last() =~= s@.take(i as int));
        }
        if s[best].lt(s[i]) {
            best = i;
        }
        i += 1;
    }
    assert(s@.take(i as int) =~= s@);
    best
}

/// Among numbers, the walk ends on the first of the least.
pub proof fn lemma_least_of(s: Seq<Float64>)
    requires
        s.len() > 0,
        all_numbers(s),
    ensures
        0 <= least_of(s) < s.len(),
        forall|i: int| 0 <= i < s.len() ==> s[least_of(s)].rank() <= (#[trigger] s[i]).rank(),
        forall|i: int| 0 <= i < least_of(s) ==> s[least_of(s)].rank() < (#[trigger] s[i]).rank(),
    decreases s.len(),
{
    if s.len() > 1 {
        let t = s.drop_last();
        assert forall|i: int| 0 <= i < t.len() implies !(#[trigger] t[i]).nan() by {
            assert(t[i] == s[i]);
        }
        lemma_least_of(t);
        assert forall|i: int| 0 <= i < s.len() implies s[least_of(s)].rank() <= (
        #[trigger] s[i]).rank() by {
            if i < s.len() - 1 {
                assert(t[i] == s[i]);
            }
        }
        assert forall|i: int| 0 <= i < least_of(s) implies s[least_of(s)].rank() < (
        #[trigger] s[i]).rank() by {
            assert(t[i] == s[i]);
        }
    }
}

/// Among numbers, the walk ends on the first of the greatest.
pub proof fn lemma_greatest_of(s: Seq<Float64>)
    requires
        s.len() > 0,
        all_numbers(s),
    ensures
        0 <= greatest_of(s) < s.len(),
        forall|i: int| 0 <= i < s.len() ==> (#[trigger] s[i]).rank() <= s[greatest_of(s)].rank(),
        forall|i: int| 0 <= i < greatest_of(s) ==> (#[trigger] s[i]).rank() < s[greatest_of(s)].rank(),
    decreases s.len(),
{
    if s.len() > 1 {
        let t = s.drop_last();
        assert forall|i: int| 0 <= i < t.len() implies !(#[trigger] t[i]).nan() by {
            assert(t[i] == s[i]);
        }
        lemma_greatest_of(t);
        assert forall|i: int| 0 <= i < s.len() implies (#[trigger] s[i]).rank() <= s[greatest_of(
            s,
        )].rank() by {
            if i < s.len() - 1 {
                assert(t[i] == s[i]);
            }
        }
        assert forall|i: int| 0 <= i < greatest_of(s) implies (#[trigger] s[i]).rank()
            < s[greatest_of(s)].rank() by {
            assert(t[i] == s[i]);
        }
    }
}

/// `picked` lists the places of a list that are hit: exactly those, each once, and in order.
pub open spec fn picks(picked: Seq<usize>, hits: Seq<bool>) -> bool {
    &&& forall|i: int|
        0 <= i < hits.len() ==> (#[trigger] hits[i] <==> picked.contains(i as usize))
    &&& forall|k: int| 0 <= k < picked.len() ==> (#[trigger] picked[k]) < hits.len()
    &&& forall|j: int, k: int|
        0 <= j < k < picked.len() ==> (#[trigger] picked[j]) < (#[trigger] picked[k])
}

/// A list of places stays right where the list grows by an entry and its place is added if it is
/// hit.
pub proof fn lemma_picks_next(picked: Seq<usize>, hits: Seq<bool>, hit: bool)
    requires
        picks(picked, hits),
        hits.len() < usize::MAX,
    ensures
        picks(
            if hit {
                picked.push(hits.len() as usize)
            } else {
                picked
            },
            hits.push(hit),
        ),
{
    let after = if hit {
        picked.push(hits.len() as usize)
    } else {
        picked
    };
    let all = hits.push(hit);
    assert forall|i: int| 0 <= i < all.len() implies (#[trigger] all[i] <==> after.contains(
        i as usize,
    )) by {
        if i < hits.len() {
            assert(all[i] == hits[i]);
            if picked.contains(i as usize) {
                let k = choose|k: int| 0 <= k < picked.len() && picked[k] == i as usize;
                assert(after[k] == i as usize);
            }
            if after.contains(i as usize) {
                let k = choose|k: int| 0 <= k < after.len() && after[k] == i as usize;
                assert(picked[k] == i as usize);
            }
        } else if hit {
            assert(after[after.len() - 1] == i as usize);
        } else if after.contains(i as usize) {
            let k = choose|k: int| 0 <= k < after.len() && after[k] == i as usize;
            assert(picked[k] < hits.len());
        }
    }
}

} // verus!
