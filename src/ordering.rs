use crate::trains::TrainJourney;
use vstd::prelude::*;

verus! {

/// The order in which a result list is presented.
#[derive(Clone, Copy, Debug, PartialEq, Eq, Structural)]
pub enum SortBy {
    Price,
    Date,
}

/// Whether `a` comes strictly after `b` in the chosen order: by total price,
/// or by outbound departure (date, then time of day).
pub open spec fn goes_after(a: TrainJourney, b: TrainJourney, by: SortBy) -> bool {
    match by {
        SortBy::Price => a.price > b.price,
        SortBy::Date => a.outbound.date.day() > b.outbound.date.day() || (a.outbound.date.day()
            == b.outbound.date.day() && a.outbound.time.secs > b.outbound.time.secs),
    }
}

/// Whether no journey of `s` comes strictly after a later one.
pub open spec fn in_order(s: Seq<TrainJourney>, by: SortBy) -> bool {
    forall|i: int, j: int| 0 <= i < j < s.len() ==> !goes_after(#[trigger] s[i], #[trigger] s[j], by)
}

/// Index of the first journey of `s` that comes strictly after `x`, or the
/// length of `s` when there is none.
pub open spec fn first_after(s: Seq<TrainJourney>, x: TrainJourney, by: SortBy) -> int
    decreases s.len(),
{
    if s.len() == 0 {
        0
    } else if goes_after(s[0], x, by) {
        0
    } else {
        1 + first_after(s.drop_first(), x, by)
    }
}

/// The stable sort of `s`: each journey in turn is placed after every
/// journey already placed that it does not come strictly before.
pub open spec fn stable_sorted(s: Seq<TrainJourney>, by: SortBy) -> Seq<TrainJourney>
    decreases s.len(),
{
    if s.len() == 0 {
        s
    } else {
        let r = stable_sorted(s.drop_last(), by);
        r.insert(first_after(r, s.last(), by), s.last())
    }
}

proof fn lemma_first_after(s: Seq<TrainJourney>, x: TrainJourney, by: SortBy)
    ensures
        0 <= first_after(s, x, by) <= s.len(),
        forall|k: int| 0 <= k < first_after(s, x, by) ==> !goes_after(#[trigger] s[k], x, by),
        first_after(s, x, by) < s.len() ==> goes_after(s[first_after(s, x, by)], x, by),
    decreases s.len(),
{
    if s.len() > 0 && !goes_after(s[0], x, by) {
        lemma_first_after(s.drop_first(), x, by);
        assert forall|k: int| 0 <= k < first_after(s, x, by) implies !goes_after(
            #[trigger] s[k],
            x,
            by,
        ) by {
            if k > 0 {
                assert(s[k] == s.drop_first()[k - 1]);
            }
        }
    }
}

/// A stable sort is in order and holds the same journeys.
pub proof fn lemma_stable_sorted(s: Seq<TrainJourney>, by: SortBy)
    ensures
        in_order(stable_sorted(s, by), by),
        stable_sorted(s, by).to_multiset() == s.to_multiset(),
    decreases s.len(),
{
    broadcast use vstd::seq_lib::to_multiset_insert, vstd::seq_lib::to_multiset_build;

    if s.len() > 0 {
        let prev = s.drop_last();
        let x = s.last();
        lemma_stable_sorted(prev, by);
        let r = stable_sorted(prev, by);
        let p = first_after(r, x, by);
        lemma_first_after(r, x, by);
        let t = r.insert(p, x);
        assert(s == prev.push(x));
        assert forall|i: int, j: int| 0 <= i < j < t.len() implies !goes_after(
            #[trigger] t[i],
            #[trigger] t[j],
            by,
        ) by {
            if j < p {
                assert(t[i] == r[i] && t[j] == r[j]);
            } else if j == p {
                assert(t[i] == r[i]);
            } else if i < p {
                assert(t[i] == r[i] && t[j] == r[j - 1]);
            } else if i == p {
                assert(t[j] == r[j - 1]);
                if j - 1 > p {
                    assert(!goes_after(r[p], r[j - 1], by));
                }
            } else {
                assert(t[i] == r[i - 1] && t[j] == r[j - 1]);
            }
        }
    }
}

fn goes_after_exec(a: &TrainJourney, b: &TrainJourney, by: SortBy) -> (r: bool)
    ensures
        r == goes_after(*a, *b, by),
{
    match by {
        SortBy::Price => a.price > b.price,
        SortBy::Date => a.outbound.date.days_from_ce > b.outbound.date.days_from_ce || (
        a.outbound.date.days_from_ce == b.outbound.date.days_from_ce && a.outbound.time.secs
            > b.outbound.time.secs),
    }
}

/// Orders journeys for presentation, cheapest or earliest first; journeys
/// that tie keep their relative order.
pub fn sort_journeys(journeys: &mut Vec<TrainJourney>, by: SortBy)
    ensures
        final(journeys)@ == stable_sorted(old(journeys)@, by),
        in_order(final(journeys)@, by),
        final(journeys)@.to_multiset() == old(journeys)@.to_multiset(),
{
    let mut sorted: Vec<TrainJourney> = Vec::new();
    let mut i: usize = 0;
    while i < journeys.len()
        invariant
            journeys@ == old(journeys)@,
            i <= journeys.len(),
            sorted@ == stable_sorted(journeys@.take(i as int), by),
        decreases journeys.len() - i,
    {
        let x = journeys[i];
        assert(journeys@.take(i + 1).drop_last() == journeys@.take(i as int));
        let mut j: usize = 0;
        assert(sorted@.subrange(0, sorted@.len() as int) == sorted@);
        while j < sorted.len() && !goes_after_exec(&sorted[j], &x, by)
            invariant
                j <= sorted.len(),
                first_after(sorted@, x, by) == j + first_after(
                    sorted@.subrange(j as int, sorted@.len() as int),
                    x,
                    by,
                ),
            decreases sorted.len() - j,
        {
            let ghost rest = sorted@.subrange(j as int, sorted@.len() as int);
            assert(rest.drop_first() == sorted@.subrange(j + 1, sorted@.len() as int));
            j = j + 1;
        }
        proof {
            let rest = sorted@.subrange(j as int, sorted@.len() as int);
            if j < sorted.len() {
                assert(rest[0] == sorted@[j as int]);
            }
        }
        sorted.insert(j, x);
        i = i + 1;
    }
    assert(journeys@.take(journeys.len() as int) == journeys@);
    proof {
        lemma_stable_sorted(journeys@, by);
    }
    *journeys = sorted;
}

} // verus!
