use crate::date::{Date, TimeOfDay};
use vstd::prelude::*;

verus! {

#[verifier::external_type_specification]
#[verifier::external_body]
pub struct ExReqwestError(reqwest::Error);

/// A departure instant: a calendar date and a time of day.
#[derive(Clone, Copy, Debug, PartialEq, Eq, Structural)]
pub struct DateTime {
    pub date: Date,
    pub time: TimeOfDay,
}

/// One directional departure with a published adult fare.
#[derive(Clone, Copy, Debug, PartialEq, Eq, Structural)]
pub struct Train {
    pub departure: DateTime,
    /// Travel time in seconds.
    pub duration: i64,
    /// Adult fare in hundredths of the currency unit.
    pub price: u32,
}

/// A priced round trip made of one outbound and one inbound train.
#[derive(Clone, Copy, Debug, PartialEq, Eq, Structural)]
pub struct TrainJourney {
    pub outbound: DateTime,
    pub inbound: DateTime,
    /// Sum of the two fares, in hundredths of the currency unit.
    pub price: u64,
    /// Outbound travel time in seconds.
    pub out_duration: i64,
    /// Inbound travel time in seconds.
    pub in_duration: i64,
}

/// The traveller's constraints on a journey. The price ceiling is inclusive;
/// the departure-time bounds are exclusive.
#[derive(Clone, Copy, Debug, PartialEq, Eq, Structural)]
pub struct Filter {
    /// Ceiling on the total price, in hundredths of the currency unit.
    pub max_price: Option<u64>,
    pub out_departure_after: Option<TimeOfDay>,
    pub out_departure_before: Option<TimeOfDay>,
    pub in_departure_after: Option<TimeOfDay>,
    pub in_departure_before: Option<TimeOfDay>,
}

/// One leg as the journey-search service lists it.
#[derive(Debug, PartialEq, Eq)]
pub struct Leg {
    pub departure_time: TimeOfDay,
    /// Travel time in seconds.
    pub duration: i64,
    /// The adult price of each fare class, in order, where one is published.
    pub fares: Vec<Option<u32>>,
}

/// A decoded search response; a side the service left out is `None`.
#[derive(Debug, PartialEq, Eq)]
pub struct TrainsResponse {
    pub outbound: Option<Vec<Leg>>,
    pub inbound: Option<Vec<Leg>>,
}

/// Why a query to the journey-search service failed.
#[derive(Debug)]
pub enum QueryError {
    ReqwestError(reqwest::Error),
    JsonParseError(String),
    ServerError(String),
    InternalError(String),
}

/// The adult price of a leg's first fare class, if published.
pub open spec fn first_fare(leg: Leg) -> Option<u32> {
    if leg.fares@.len() > 0 {
        leg.fares@[0]
    } else {
        None
    }
}

pub open spec fn leg_train(leg: Leg, date: Date, price: u32) -> Train {
    Train {
        departure: DateTime { date, time: leg.departure_time },
        duration: leg.duration,
        price,
    }
}

/// The trains of a list of legs departing on `date`, in order; legs without
/// a first-class adult price are left out.
pub open spec fn trains_of(legs: Seq<Leg>, date: Date) -> Seq<Train>
    decreases legs.len(),
{
    if legs.len() == 0 {
        seq![]
    } else {
        let prev = trains_of(legs.drop_last(), date);
        match first_fare(legs.last()) {
            Some(p) => prev.push(leg_train(legs.last(), date, p)),
            None => prev,
        }
    }
}

/// The trains of one side of a response; a missing side has none.
pub open spec fn side_trains(side: Option<Vec<Leg>>, date: Date) -> Seq<Train> {
    match side {
        Some(legs) => trains_of(legs@, date),
        None => seq![],
    }
}

/// Turns one side of a response into trains departing on `date`.
pub fn trains_from_legs(side: &Option<Vec<Leg>>, date: Date) -> (r: Vec<Train>)
    ensures
        r@ == side_trains(*side, date),
{
    let mut results: Vec<Train> = Vec::new();
    match side {
        None => results,
        Some(legs) => {
            let mut i: usize = 0;
            while i < legs.len()
                invariant
                    i <= legs.len(),
                    results@ == trains_of(legs@.take(i as int), date),
                decreases legs.len() - i,
            {
                let leg = &legs[i];
                assert(legs@.take(i + 1).drop_last() == legs@.take(i as int));
                if leg.fares.len() > 0 {
                    match leg.fares[0] {
                        Some(price) => {
                            results.push(
                                Train {
                                    departure: DateTime { date, time: leg.departure_time },
                                    duration: leg.duration,
                                    price,
                                },
                            );
                        },
                        None => {},
                    }
                }
                i = i + 1;
            }
            assert(legs@.take(legs.len() as int) == legs@);
            results
        },
    }
}

/// Turns a decoded response into the outbound trains (on `out_date`) and the
/// inbound trains (on `in_date`).
pub fn trains_from_response(response: &TrainsResponse, out_date: Date, in_date: Date) -> (r: (
    Vec<Train>,
    Vec<Train>,
))
    ensures
        r.0@ == side_trains(response.outbound, out_date),
        r.1@ == side_trains(response.inbound, in_date),
{
    (trains_from_legs(&response.outbound, out_date), trains_from_legs(&response.inbound, in_date))
}


/// A bound that a departure must lie strictly after, when set.
pub open spec fn after_ok(bound: Option<TimeOfDay>, t: TimeOfDay) -> bool {
    bound matches Some(b) ==> t.secs > b.secs
}

/// A bound that a departure must lie strictly before, when set.
pub open spec fn before_ok(bound: Option<TimeOfDay>, t: TimeOfDay) -> bool {
    bound matches Some(b) ==> t.secs < b.secs
}

/// Whether the filter keeps the round trip of `out` and `inb`.
pub open spec fn keeps(f: Filter, out: Train, inb: Train) -> bool {
    &&& (f.max_price matches Some(m) ==> out.price + inb.price <= m)
    &&& after_ok(f.out_departure_after, out.departure.time)
    &&& before_ok(f.out_departure_before, out.departure.time)
    &&& after_ok(f.in_departure_after, inb.departure.time)
    &&& before_ok(f.in_departure_before, inb.departure.time)
}

pub open spec fn journey_of(out: Train, inb: Train) -> TrainJourney {
    TrainJourney {
        outbound: out.departure,
        inbound: inb.departure,
        price: (out.price + inb.price) as u64,
        out_duration: out.duration,
        in_duration: inb.duration,
    }
}

/// The kept journeys that start with `out`, in the order of `ins`.
pub open spec fn row_of(out: Train, ins: Seq<Train>, f: Filter) -> Seq<TrainJourney>
    decreases ins.len(),
{
    if ins.len() == 0 {
        seq![]
    } else {
        let prev = row_of(out, ins.drop_last(), f);
        if keeps(f, out, ins.last()) {
            prev.push(journey_of(out, ins.last()))
        } else {
            prev
        }
    }
}

/// The kept journeys of the cross product, outbound trains in the outer
/// position and inbound trains in the inner one.
pub open spec fn journeys_of(outs: Seq<Train>, ins: Seq<Train>, f: Filter) -> Seq<TrainJourney>
    decreases outs.len(),
{
    if outs.len() == 0 {
        seq![]
    } else {
        journeys_of(outs.drop_last(), ins, f) + row_of(outs.last(), ins, f)
    }
}

fn after_bound_ok(bound: Option<TimeOfDay>, t: TimeOfDay) -> (r: bool)
    ensures
        r == after_ok(bound, t),
{
    match bound {
        Some(b) => t.secs > b.secs,
        None => true,
    }
}

fn before_bound_ok(bound: Option<TimeOfDay>, t: TimeOfDay) -> (r: bool)
    ensures
        r == before_ok(bound, t),
{
    match bound {
        Some(b) => t.secs < b.secs,
        None => true,
    }
}

impl Filter {
    /// Whether the round trip of `out` and `inb` meets every constraint.
    pub fn accepts(&self, out: &Train, inb: &Train) -> (r: bool)
        ensures
            r == keeps(*self, *out, *inb),
    {
        let total: u64 = out.price as u64 + inb.price as u64;
        let price_ok = match self.max_price {
            Some(m) => total <= m,
            None => true,
        };
        price_ok && after_bound_ok(self.out_departure_after, out.departure.time) && before_bound_ok(
            self.out_departure_before,
            out.departure.time,
        ) && after_bound_ok(self.in_departure_after, inb.departure.time) && before_bound_ok(
            self.in_departure_before,
            inb.departure.time,
        )
    }
}

/// Forms every outbound-by-inbound round trip of one date pair and keeps
/// those that the filter accepts, outbound trains in the outer loop.
pub fn filter_journeys(trains: &(Vec<Train>, Vec<Train>), filter: &Filter) -> (r: Vec<TrainJourney>)
    ensures
        r@ == journeys_of(trains.0@, trains.1@, *filter),
{
    let outs = &trains.0;
    let ins = &trains.1;
    let mut res: Vec<TrainJourney> = Vec::new();
    let mut i: usize = 0;
    while i < outs.len()
        invariant
            i <= outs.len(),
            res@ == journeys_of(outs@.take(i as int), ins@, *filter),
        decreases outs.len() - i,
    {
        let out_t = &outs[i];
        let ghost before = res@;
        let mut j: usize = 0;
        while j < ins.len()
            invariant
                i < outs.len(),
                j <= ins.len(),
                *out_t == outs@[i as int],
                res@ == before + row_of(*out_t, ins@.take(j as int), *filter),
            decreases ins.len() - j,
        {
            let in_t = &ins[j];
            assert(ins@.take(j + 1).drop_last() == ins@.take(j as int));
            if filter.accepts(out_t, in_t) {
                res.push(
                    TrainJourney {
                        outbound: out_t.departure,
                        inbound: in_t.departure,
                        price: out_t.price as u64 + in_t.price as u64,
                        out_duration: out_t.duration,
                        in_duration: in_t.duration,
                    },
                );
            }
            j = j + 1;
        }
        assert(ins@.take(ins.len() as int) == ins@);
        assert(outs@.take(i + 1).drop_last() == outs@.take(i as int));
        i = i + 1;
    }
    assert(outs@.take(outs.len() as int) == outs@);
    res
}


/// What one remote query gave for a date pair: its outbound and inbound
/// trains, or the error it failed with.
pub type DayResult = Result<(Vec<Train>, Vec<Train>), QueryError>;

/// The journeys of a batch of per-pair results taken in pair order: the
/// first error in that order, or else every pair's kept journeys, one pair
/// after another.
pub open spec fn assembled(rs: Seq<DayResult>, f: Filter) -> Result<Seq<TrainJourney>, QueryError>
    decreases rs.len(),
{
    if rs.len() == 0 {
        Ok(seq![])
    } else {
        match assembled(rs.drop_last(), f) {
            Err(e) => Err(e),
            Ok(js) => match rs.last() {
                Err(e) => Err(e),
                Ok(p) => Ok(js + journeys_of(p.0@, p.1@, f)),
            },
        }
    }
}

/// Once a prefix of the batch has failed, later results change nothing.
pub proof fn lemma_failed_prefix(rs: Seq<DayResult>, k: int, f: Filter)
    requires
        0 <= k <= rs.len(),
        assembled(rs.take(k), f) is Err,
    ensures
        assembled(rs, f) == assembled(rs.take(k), f),
    decreases rs.len() - k,
{
    if k < rs.len() {
        assert(rs.take(k + 1).drop_last() == rs.take(k));
        lemma_failed_prefix(rs, k + 1, f);
    } else {
        assert(rs.take(k) == rs);
    }
}

/// Runs a batch of per-pair results, given in the order the date pairs were
/// submitted, through the filter: the first error in that order fails the
/// whole batch; otherwise the pairs' journeys are concatenated in order.
pub fn assemble_journeys(results: Vec<DayResult>, filter: &Filter) -> (r: Result<
    Vec<TrainJourney>,
    QueryError,
>)
    ensures
        match r {
            Ok(v) => assembled(results@, *filter) == Ok::<Seq<TrainJourney>, QueryError>(v@),
            Err(e) => assembled(results@, *filter) == Err::<Seq<TrainJourney>, QueryError>(e),
        },
{
    let mut pending = results;
    drain_results(&mut pending, filter)
}

/// The work of `assemble_journeys`; an error is moved out of `pending`.
fn drain_results(pending: &mut Vec<DayResult>, filter: &Filter) -> (r: Result<
    Vec<TrainJourney>,
    QueryError,
>)
    ensures
        match r {
            Ok(v) => assembled(old(pending)@, *filter) == Ok::<Seq<TrainJourney>, QueryError>(v@),
            Err(e) => assembled(old(pending)@, *filter) == Err::<Seq<TrainJourney>, QueryError>(e),
        },
{
    let ghost all = pending@;
    let mut journeys: Vec<TrainJourney> = Vec::new();
    let mut i: usize = 0;
    while i < pending.len()
        invariant
            pending@ == all,
            all == old(pending)@,
            i <= pending.len(),
            assembled(all.take(i as int), *filter) == Ok::<Seq<TrainJourney>, QueryError>(
                journeys@,
            ),
        decreases pending.len() - i,
    {
        assert(all.take(i + 1).drop_last() == all.take(i as int));
        if pending[i].is_err() {
            let failed = pending.swap_remove(i);
            match failed {
                Err(e) => {
                    proof {
                        assert(all.take(i + 1).last() == all[i as int]);
                        lemma_failed_prefix(all, i + 1, *filter);
                    }
                    return Err(e);
                },
                Ok(_) => {
                    assert(false);
                    return Ok(journeys);
                },
            }
        }
        match &pending[i] {
            Ok(pair) => {
                let mut kept = filter_journeys(pair, filter);
                journeys.append(&mut kept);
            },
            Err(_) => {},
        }
        i = i + 1;
    }
    assert(all.take(all.len() as int) == all);
    Ok(journeys)
}


/// The text that reqwest's `StatusCode` displays for a status code
/// (`500 Internal Server Error`).
pub uninterp spec fn status_text(code: int) -> Seq<char>;

/// Relies on reqwest's `StatusCode::from_u16`, which accepts every code from
/// 100 to 999, and on its `Display`.
#[verifier::external_body]
fn status_display(code: u16) -> (r: String)
    requires
        100 <= code <= 999,
    ensures
        r@ == status_text(code as int),
{
    match reqwest::StatusCode::from_u16(code) {
        Ok(status) => status.to_string(),
        Err(_) => String::new(),
    }
}

/// The message of a failed response: its status and its body.
pub open spec fn failure_text(code: int, body: Seq<char>) -> Seq<char> {
    "Got "@ + status_text(code) + " response: "@ + body
}

/// Sorts a response by its status code: a 4xx is the caller's error, a 5xx
/// the server's, and anything else lets the body be decoded.
pub fn check_status(code: u16, body: &str) -> (r: Result<(), QueryError>)
    requires
        100 <= code <= 999,
    ensures
        match r {
            Ok(()) => code < 400 || code >= 600,
            Err(QueryError::InternalError(m)) => 400 <= code < 500 && m@ == failure_text(
                code as int,
                body@,
            ),
            Err(QueryError::ServerError(m)) => 500 <= code < 600 && m@ == failure_text(
                code as int,
                body@,
            ),
            Err(_) => false,
        },
{
    if code < 400 || code >= 600 {
        return Ok(());
    }
    let mut msg = String::from_str("Got ");
    let status = status_display(code);
    msg.append(status.as_str());
    msg.append(" response: ");
    msg.append(body);
    if code < 500 {
        Err(QueryError::InternalError(msg))
    } else {
        Err(QueryError::ServerError(msg))
    }
}


/// Results of two batches taken one after the other: the first batch's
/// error, else the second batch's error, else both journey lists in order.
pub open spec fn then_assembled(
    first: Result<Seq<TrainJourney>, QueryError>,
    second: Result<Seq<TrainJourney>, QueryError>,
) -> Result<Seq<TrainJourney>, QueryError> {
    match first {
        Err(e) => Err(e),
        Ok(a) => match second {
            Err(e) => Err(e),
            Ok(b) => Ok(a + b),
        },
    }
}

/// Order across date pairs: the journeys of a batch are those of its first
/// part followed by those of its second part, and an error in the first part
/// wins over anything in the second.
pub proof fn lemma_assembled_in_submission_order(
    first: Seq<DayResult>,
    second: Seq<DayResult>,
    f: Filter,
)
    ensures
        assembled(first + second, f) == then_assembled(assembled(first, f), assembled(second, f)),
    decreases second.len(),
{
    if second.len() == 0 {
        assert(first + second == first);
        match assembled(first, f) {
            Ok(a) => assert(a + seq![] == a),
            Err(_) => {},
        }
    } else {
        lemma_assembled_in_submission_order(first, second.drop_last(), f);
        assert((first + second).drop_last() == first + second.drop_last());
        assert((first + second).last() == second.last());
        match assembled(first, f) {
            Ok(a) => match assembled(second.drop_last(), f) {
                Ok(b) => match second.last() {
                    Ok(p) => {
                        let c = journeys_of(p.0@, p.1@, f);
                        assert(a + b + c == a + (b + c));
                    },
                    Err(_) => {},
                },
                Err(_) => {},
            },
            Err(_) => {},
        }
    }
}

/// A single failed date pair fails the whole batch, whatever the other
/// pairs gave.
pub proof fn lemma_one_failure_fails_batch(rs: Seq<DayResult>, k: int, f: Filter)
    requires
        0 <= k < rs.len(),
        rs[k] is Err,
    ensures
        assembled(rs, f) is Err,
{
    assert(rs.take(k + 1).drop_last() == rs.take(k));
    assert(rs.take(k + 1).last() == rs[k]);
    lemma_failed_prefix(rs, k + 1, f);
}

/// When every pair passes the filter, a row holds one journey per inbound
/// train, in order.
proof fn lemma_full_row(out: Train, ins: Seq<Train>, f: Filter)
    requires
        forall|b: int| 0 <= b < ins.len() ==> keeps(f, out, #[trigger] ins[b]),
    ensures
        row_of(out, ins, f).len() == ins.len(),
        forall|b: int|
            0 <= b < ins.len() ==> #[trigger] row_of(out, ins, f)[b] == journey_of(out, ins[b]),
    decreases ins.len(),
{
    if ins.len() > 0 {
        let prev = ins.drop_last();
        assert forall|b: int| 0 <= b < prev.len() implies keeps(f, out, #[trigger] prev[b]) by {
            assert(prev[b] == ins[b]);
        }
        lemma_full_row(out, prev, f);
        assert(keeps(f, out, ins[ins.len() - 1]));
    }
}

/// Order within a date pair: when the filter accepts every pair, the
/// journeys are the whole cross product, outbound trains in the outer
/// position, so journey `a * |ins| + b` pairs outbound `a` with inbound `b`.
pub proof fn lemma_cross_product_order(outs: Seq<Train>, ins: Seq<Train>, f: Filter)
    requires
        forall|a: int, b: int|
            0 <= a < outs.len() && 0 <= b < ins.len() ==> keeps(f, #[trigger] outs[a], #[trigger] ins[b]),
    ensures
        journeys_of(outs, ins, f).len() == outs.len() * ins.len(),
        forall|a: int, b: int|
            0 <= a < outs.len() && 0 <= b < ins.len() ==> #[trigger] journeys_of(outs, ins, f)[a
                * ins.len() + b] == journey_of(outs[a], ins[b]),
    decreases outs.len(),
{
    let n = ins.len();
    if outs.len() == 0 {
    } else {
        let m = outs.len();
        let prev = outs.drop_last();
        assert forall|a: int, b: int| 0 <= a < prev.len() && 0 <= b < ins.len() implies keeps(
            f,
            #[trigger] prev[a],
            #[trigger] ins[b],
        ) by {
            assert(prev[a] == outs[a]);
        }
        lemma_cross_product_order(prev, ins, f);
        let last = outs[m - 1];
        assert forall|b: int| 0 <= b < ins.len() implies keeps(f, last, #[trigger] ins[b]) by {}
        lemma_full_row(last, ins, f);
        let head = journeys_of(prev, ins, f);
        let row = row_of(last, ins, f);
        assert(head.len() == (m - 1) * n);
        assert(m * n == (m - 1) * n + n) by (nonlinear_arith);
        assert forall|a: int, b: int| 0 <= a < m && 0 <= b < n implies #[trigger] journeys_of(
            outs,
            ins,
            f,
        )[a * n + b] == journey_of(outs[a], ins[b]) by {
            if a < m - 1 {
                assert(a * n + b < (m - 1) * n) by (nonlinear_arith)
                    requires
                        a < m - 1,
                        0 <= b < n,
                ;
                assert(0 <= a * n) by (nonlinear_arith)
                    requires
                        0 <= a,
                        0 <= n,
                ;
                assert(prev[a] == outs[a]);
            } else {
                assert(a * n + b == (m - 1) * n + b);
            }
        }
    }
}

/// Membership in a row: exactly the kept pairings of `out` with a train of `ins`.
proof fn lemma_row_members(out: Train, ins: Seq<Train>, f: Filter, j: TrainJourney)
    ensures
        row_of(out, ins, f).contains(j) <==> exists|inb: Train|
            ins.contains(inb) && keeps(f, out, inb) && j == journey_of(out, inb),
    decreases ins.len(),
{
    if ins.len() > 0 {
        let prev = ins.drop_last();
        let last = ins.last();
        lemma_row_members(out, prev, f, j);
        let row = row_of(out, ins, f);
        let prow = row_of(out, prev, f);
        if row.contains(j) {
            let k = choose|k: int| 0 <= k < row.len() && row[k] == j;
            if k < prow.len() {
                assert(prow[k] == j);
                let inb = choose|inb: Train|
                    prev.contains(inb) && keeps(f, out, inb) && j == journey_of(out, inb);
                let t = choose|t: int| 0 <= t < prev.len() && prev[t] == inb;
                assert(ins[t] == inb);
            } else {
                assert(ins[ins.len() - 1] == last);
            }
        }
        if exists|inb: Train| ins.contains(inb) && keeps(f, out, inb) && j == journey_of(out, inb) {
            let inb = choose|inb: Train|
                ins.contains(inb) && keeps(f, out, inb) && j == journey_of(out, inb);
            let t = choose|t: int| 0 <= t < ins.len() && ins[t] == inb;
            if t < ins.len() - 1 {
                assert(prev[t] == inb);
                assert(prow.contains(j));
                let k = choose|k: int| 0 <= k < prow.len() && prow[k] == j;
                assert(row[k] == j);
            } else {
                assert(row[row.len() - 1] == j);
            }
        }
    }
}

/// Which journeys come out of a date pair depends only on which trains are
/// listed and on the filter, not on the order they are listed in: a journey
/// is kept exactly when it pairs a listed outbound train with a listed
/// inbound train that the filter accepts together.
pub proof fn lemma_journey_members(outs: Seq<Train>, ins: Seq<Train>, f: Filter, j: TrainJourney)
    ensures
        journeys_of(outs, ins, f).contains(j) <==> exists|out: Train, inb: Train|
            outs.contains(out) && ins.contains(inb) && keeps(f, out, inb) && j == journey_of(
                out,
                inb,
            ),
    decreases outs.len(),
{
    if outs.len() > 0 {
        let prev = outs.drop_last();
        let last = outs.last();
        lemma_journey_members(prev, ins, f, j);
        lemma_row_members(last, ins, f, j);
        let all = journeys_of(outs, ins, f);
        let head = journeys_of(prev, ins, f);
        let row = row_of(last, ins, f);
        if all.contains(j) {
            let k = choose|k: int| 0 <= k < all.len() && all[k] == j;
            if k < head.len() {
                assert(head[k] == j);
                let (out, inb) = choose|out: Train, inb: Train|
                    prev.contains(out) && ins.contains(inb) && keeps(f, out, inb) && j
                        == journey_of(out, inb);
                let t = choose|t: int| 0 <= t < prev.len() && prev[t] == out;
                assert(outs[t] == out);
            } else {
                assert(row[k - head.len()] == j);
                assert(outs[outs.len() - 1] == last);
            }
        }
        if exists|out: Train, inb: Train|
            outs.contains(out) && ins.contains(inb) && keeps(f, out, inb) && j == journey_of(out, inb) {
            let (out, inb) = choose|out: Train, inb: Train|
                outs.contains(out) && ins.contains(inb) && keeps(f, out, inb) && j == journey_of(
                    out,
                    inb,
                );
            let t = choose|t: int| 0 <= t < outs.len() && outs[t] == out;
            if t < outs.len() - 1 {
                assert(prev[t] == out);
                assert(head.contains(j));
                let k = choose|k: int| 0 <= k < head.len() && head[k] == j;
                assert(all[k] == j);
            } else {
                assert(row.contains(j));
                let k = choose|k: int| 0 <= k < row.len() && row[k] == j;
                assert(all[head.len() + k] == j);
            }
        }
    }
}

/// The price ceiling is inclusive and the departure-time bounds exclusive: a
/// pair priced exactly at the ceiling is kept when no time bound is set, and
/// a departure exactly at any time bound is rejected.
pub proof fn lemma_filter_boundaries(f: Filter, out: Train, inb: Train)
    ensures
        f.max_price == Some((out.price + inb.price) as u64) && f.out_departure_after is None
            && f.out_departure_before is None && f.in_departure_after is None
            && f.in_departure_before is None ==> keeps(f, out, inb),
        f.out_departure_after == Some(out.departure.time) ==> !keeps(f, out, inb),
        f.out_departure_before == Some(out.departure.time) ==> !keeps(f, out, inb),
        f.in_departure_after == Some(inb.departure.time) ==> !keeps(f, out, inb),
        f.in_departure_before == Some(inb.departure.time) ==> !keeps(f, out, inb),
{
}


} // verus!
