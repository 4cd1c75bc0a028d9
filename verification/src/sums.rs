//! Sums of natural numbers, and the numbers that vectors hold.

use vstd::prelude::*;

verus! {

/// The sum of the numbers.
pub open spec fn sum(s: Seq<nat>) -> nat
    decreases s.len(),
{
    if s.len() == 0 {
        0
    } else {
        sum(s.drop_last()) + s.last()
    }
}

/// The numbers that a vector holds.
pub open spec fn nats(v: Seq<usize>) -> Seq<nat> {
    Seq::new(v.len(), |i: int| v[i] as nat)
}

/// The rows of numbers that a vector of vectors holds.
pub open spec fn nat_rows(v: Seq<Vec<usize>>) -> Seq<Seq<nat>> {
    Seq::new(v.len(), |r: int| nats(v[r]@))
}

/// The sum of the numbers, or `None` where it is more than `usize::MAX`.
pub fn checked_sum(v: &Vec<usize>) -> (total: Option<usize>)
    ensures
        match total {
            Some(t) => t == sum(nats(v@)),
            None => sum(nats(v@)) > usize::MAX,
        },
{
    let mut acc: usize = 0;
    let mut i: usize = 0;
    while i < v.len()
        invariant
            i <= v.len(),
            acc == sum(nats(v@).take(i as int)),
        decreases v.len() - i,
    {
        assert(nats(v@).take(i + 1).drop_last() =~= nats(v@).take(i as int));
        match acc.checked_add(v[i]) {
            Some(next) => {
                acc = next;
            },
            None => {
                proof {
                    lemma_sum_take_grows(nats(v@), i + 1, v.len() as int);
                    assert(nats(v@).take(v.len() as int) =~= nats(v@));
                }
                return None;
            },
        }
        i = i + 1;
    }
    assert(nats(v@).take(v.len() as int) =~= nats(v@));
    Some(acc)
}

/// The sum of the numbers.
pub fn sum_of(v: &Vec<usize>) -> (total: usize)
    requires
        sum(nats(v@)) <= usize::MAX,
    ensures
        total == sum(nats(v@)),
{
    match checked_sum(v) {
        Some(t) => t,
        None => 0,
    }
}

/// The sum of the first `i` numbers is at most that of the first `j`.
pub proof fn lemma_sum_take_grows(s: Seq<nat>, i: int, j: int)
    requires
        0 <= i <= j <= s.len(),
    ensures
        sum(s.take(i)) <= sum(s.take(j)),
    decreases j - i,
{
    if i < j {
        lemma_sum_take_grows(s, i, j - 1);
        assert(s.take(j).drop_last() =~= s.take(j - 1));
    }
}

/// No number is more than the sum of all.
pub proof fn lemma_sum_bounds_each(s: Seq<nat>, k: int)
    requires
        0 <= k < s.len(),
    ensures
        s[k] <= sum(s),
    decreases s.len(),
{
    if k < s.len() - 1 {
        lemma_sum_bounds_each(s.drop_last(), k);
    }
}

} // verus!
