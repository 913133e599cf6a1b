use chrono::{Datelike, NaiveDate};
use eurostarchecker::date::{Date, TimeOfDay};
use eurostarchecker::trains::{
    assemble_journeys, check_status, filter_journeys, trains_from_response, DateTime, DayResult,
    Filter, Leg, QueryError, Train, TrainJourney, TrainsResponse,
};
use eurostarchecker::ordering::{sort_journeys, SortBy};

fn ymd(year: i32, month: u32, day: u32) -> Date {
    Date { days_from_ce: NaiveDate::from_ymd_opt(year, month, day).unwrap().num_days_from_ce() }
}

fn hm(hour: u32, minute: u32) -> TimeOfDay {
    TimeOfDay { secs: hour * 3600 + minute * 60 }
}

fn minutes(n: i64) -> i64 {
    n * 60
}

fn no_filter() -> Filter {
    Filter {
        max_price: None,
        out_departure_after: None,
        out_departure_before: None,
        in_departure_after: None,
        in_departure_before: None,
    }
}

fn leg(time: TimeOfDay, duration: i64, fares: Vec<Option<u32>>) -> Leg {
    Leg { departure_time: time, duration, fares }
}

/// The search response used by the journey tests: three outbound and three
/// inbound legs with fares, and two legs without an adult fare.
fn response() -> TrainsResponse {
    TrainsResponse {
        outbound: Some(vec![
            leg(hm(5, 40), minutes(157), vec![Some(4000), Some(9000)]),
            leg(hm(6, 10), minutes(140), vec![]),
            leg(hm(6, 40), minutes(133), vec![Some(7000)]),
            leg(hm(7, 40), minutes(133), vec![Some(9000)]),
        ]),
        inbound: Some(vec![
            leg(hm(6, 33), minutes(149), vec![Some(3850)]),
            leg(hm(7, 3), minutes(149), vec![None, Some(1000)]),
            leg(hm(8, 33), minutes(149), vec![Some(8850)]),
            leg(hm(8, 53), minutes(149), vec![Some(8850)]),
        ]),
    }
}

fn dates() -> (Date, Date) {
    (ymd(2020, 4, 5), ymd(2020, 4, 7))
}

fn journey(
    out: (u32, u32),
    inb: (u32, u32),
    price: u64,
    out_duration: i64,
    in_duration: i64,
) -> TrainJourney {
    let (out_date, in_date) = dates();
    TrainJourney {
        outbound: DateTime { date: out_date, time: hm(out.0, out.1) },
        inbound: DateTime { date: in_date, time: hm(inb.0, inb.1) },
        price,
        out_duration: minutes(out_duration),
        in_duration: minutes(in_duration),
    }
}

fn journeys_for(filter: &Filter) -> Vec<TrainJourney> {
    let (out_date, in_date) = dates();
    let trains = trains_from_response(&response(), out_date, in_date);
    assemble_journeys(vec![Ok(trains)], filter).unwrap()
}

#[test]
fn test_get_journeys_filtered_by_max_price() {
    let mut filter = no_filter();
    filter.max_price = Some(10000);
    assert_eq!(journeys_for(&filter), vec![journey((5, 40), (6, 33), 7850, 157, 149)]);
}

#[test]
fn test_get_journeys_no_filters() {
    assert_eq!(
        journeys_for(&no_filter()),
        vec![
            journey((5, 40), (6, 33), 7850, 157, 149),
            journey((5, 40), (8, 33), 12850, 157, 149),
            journey((5, 40), (8, 53), 12850, 157, 149),
            journey((6, 40), (6, 33), 10850, 133, 149),
            journey((6, 40), (8, 33), 15850, 133, 149),
            journey((6, 40), (8, 53), 15850, 133, 149),
            journey((7, 40), (6, 33), 12850, 133, 149),
            journey((7, 40), (8, 33), 17850, 133, 149),
            journey((7, 40), (8, 53), 17850, 133, 149),
        ]
    );
}

#[test]
fn test_get_journeys_filtered_by_time() {
    let mut filter = no_filter();
    filter.out_departure_after = Some(hm(6, 0));
    filter.out_departure_before = Some(hm(7, 0));
    filter.in_departure_after = Some(hm(8, 0));
    filter.in_departure_before = Some(hm(8, 52));
    assert_eq!(journeys_for(&filter), vec![journey((6, 40), (8, 33), 15850, 133, 149)]);
}

#[test]
fn test_get_journeys_all_filters() {
    let filter = Filter {
        max_price: Some(10000),
        out_departure_after: Some(hm(5, 0)),
        out_departure_before: Some(hm(7, 0)),
        in_departure_after: Some(hm(6, 0)),
        in_departure_before: Some(hm(8, 30)),
    };
    assert_eq!(journeys_for(&filter), vec![journey((5, 40), (6, 33), 7850, 157, 149)]);
}

#[test]
fn test_empty_response() {
    let (out_date, in_date) = dates();
    let empty = TrainsResponse { outbound: None, inbound: None };
    let trains = trains_from_response(&empty, out_date, in_date);
    assert!(trains.0.is_empty() && trains.1.is_empty());
    assert_eq!(assemble_journeys(vec![Ok(trains)], &no_filter()).unwrap(), vec![]);
}

#[test]
fn one_missing_side_gives_no_journeys() {
    let (out_date, in_date) = dates();
    let half = TrainsResponse { outbound: response().outbound, inbound: None };
    let trains = trains_from_response(&half, out_date, in_date);
    assert_eq!(trains.0.len(), 3);
    assert!(trains.1.is_empty());
    assert_eq!(filter_journeys(&trains, &no_filter()), vec![]);
}

#[test]
fn fareless_legs_never_take_part() {
    let (out_date, in_date) = dates();
    let trains = trains_from_response(&response(), out_date, in_date);
    assert_eq!(
        trains.0,
        vec![
            Train {
                departure: DateTime { date: out_date, time: hm(5, 40) },
                duration: minutes(157),
                price: 4000,
            },
            Train {
                departure: DateTime { date: out_date, time: hm(6, 40) },
                duration: minutes(133),
                price: 7000,
            },
            Train {
                departure: DateTime { date: out_date, time: hm(7, 40) },
                duration: minutes(133),
                price: 9000,
            },
        ]
    );
    assert_eq!(trains.1.len(), 3);
    assert!(trains.1.iter().all(|t| t.departure.date == in_date && t.departure.time != hm(7, 3)));
    assert_eq!(filter_journeys(&trains, &no_filter()).len(), 9);
}

#[test]
fn two_of_six_legs_without_fares_leave_two_by_three() {
    let (out_date, in_date) = dates();
    let response = TrainsResponse {
        outbound: Some(vec![
            leg(hm(5, 40), minutes(157), vec![Some(4000)]),
            leg(hm(6, 40), minutes(133), vec![None]),
            leg(hm(7, 40), minutes(133), vec![Some(9000)]),
        ]),
        inbound: Some(vec![
            leg(hm(6, 33), minutes(149), vec![Some(3850)]),
            leg(hm(8, 33), minutes(149), vec![]),
            leg(hm(8, 53), minutes(149), vec![Some(8850)]),
        ]),
    };
    let trains = trains_from_response(&response, out_date, in_date);
    let journeys = filter_journeys(&trains, &no_filter());
    assert_eq!(
        journeys,
        vec![
            journey((5, 40), (6, 33), 7850, 157, 149),
            journey((5, 40), (8, 53), 12850, 157, 149),
            journey((7, 40), (6, 33), 12850, 133, 149),
            journey((7, 40), (8, 53), 17850, 133, 149),
        ]
    );
}

#[test]
fn price_ceiling_is_inclusive_and_time_bounds_exclusive() {
    let mut at_ceiling = no_filter();
    at_ceiling.max_price = Some(7850);
    assert_eq!(journeys_for(&at_ceiling), vec![journey((5, 40), (6, 33), 7850, 157, 149)]);

    let mut below_ceiling = no_filter();
    below_ceiling.max_price = Some(7849);
    assert_eq!(journeys_for(&below_ceiling), vec![]);

    let mut out_after = no_filter();
    out_after.out_departure_after = Some(hm(5, 40));
    assert!(journeys_for(&out_after).iter().all(|j| j.outbound.time != hm(5, 40)));
    assert_eq!(journeys_for(&out_after).len(), 6);

    let mut out_before = no_filter();
    out_before.out_departure_before = Some(hm(7, 40));
    assert_eq!(journeys_for(&out_before).len(), 6);

    let mut in_after = no_filter();
    in_after.in_departure_after = Some(hm(6, 33));
    assert_eq!(journeys_for(&in_after).len(), 6);

    let mut in_before = no_filter();
    in_before.in_departure_before = Some(hm(8, 53));
    assert_eq!(journeys_for(&in_before).len(), 6);
}

#[test]
fn filter_accepts_matches_its_bounds() {
    let (out_date, in_date) = dates();
    let out = Train { departure: DateTime { date: out_date, time: hm(9, 0) }, duration: 1, price: 50 };
    let inb = Train { departure: DateTime { date: in_date, time: hm(18, 0) }, duration: 1, price: 25 };
    let mut f = no_filter();
    assert!(f.accepts(&out, &inb));
    f.max_price = Some(75);
    assert!(f.accepts(&out, &inb));
    f.max_price = Some(74);
    assert!(!f.accepts(&out, &inb));
    f.max_price = None;
    f.in_departure_before = Some(hm(18, 0));
    assert!(!f.accepts(&out, &inb));
    f.in_departure_before = Some(hm(18, 1));
    assert!(f.accepts(&out, &inb));
}

fn server_error() -> DayResult {
    check_status(500, "server crashed").map(|_| (vec![], vec![]))
}

#[test]
fn test_get_journeys_500_response() {
    match check_status(500, "server crashed") {
        Err(QueryError::ServerError(err)) => {
            assert_eq!(err, "Got 500 Internal Server Error response: server crashed")
        }
        default => panic!(
            "get_journeys return {:?}, it should return QueryError::ServerError!",
            default
        ),
    }
}

#[test]
fn test_get_journeys_400_response() {
    match check_status(404, "never existed") {
        Err(QueryError::InternalError(err)) => {
            assert_eq!(err, "Got 404 Not Found response: never existed")
        }
        default => panic!(
            "get_journeys return {:?}, it should return QueryError::InternalError!",
            default
        ),
    }
}

#[test]
fn success_and_redirect_statuses_pass() {
    assert!(check_status(200, "").is_ok());
    assert!(check_status(204, "").is_ok());
    assert!(check_status(302, "moved").is_ok());
    assert!(check_status(101, "").is_ok());
    assert!(check_status(600, "").is_ok());
    assert!(matches!(check_status(400, ""), Err(QueryError::InternalError(_))));
    assert!(matches!(check_status(499, ""), Err(QueryError::InternalError(_))));
    assert!(matches!(check_status(599, ""), Err(QueryError::ServerError(_))));
}

#[test]
fn one_server_error_fails_the_whole_batch() {
    let (out_date, in_date) = dates();
    let ok = || Ok(trains_from_response(&response(), out_date, in_date));
    let results: Vec<DayResult> = vec![ok(), server_error(), ok()];
    match assemble_journeys(results, &no_filter()) {
        Err(QueryError::ServerError(err)) => {
            assert_eq!(err, "Got 500 Internal Server Error response: server crashed")
        }
        other => panic!("expected a server error, got {:?}", other),
    }
}

#[test]
fn first_error_in_pair_order_wins() {
    let client_error: DayResult = check_status(404, "gone").map(|_| (vec![], vec![]));
    let results: Vec<DayResult> = vec![Ok((vec![], vec![])), client_error, server_error()];
    assert!(matches!(
        assemble_journeys(results, &no_filter()),
        Err(QueryError::InternalError(_))
    ));
}

#[test]
fn pairs_are_concatenated_in_submission_order() {
    let first = (ymd(2020, 4, 5), ymd(2020, 4, 7));
    let second = (ymd(2020, 4, 6), ymd(2020, 4, 8));
    let mut filter = no_filter();
    filter.max_price = Some(10000);
    let results: Vec<DayResult> = vec![
        Ok(trains_from_response(&response(), second.0, second.1)),
        Ok(trains_from_response(&response(), first.0, first.1)),
    ];
    let journeys = assemble_journeys(results, &filter).unwrap();
    assert_eq!(journeys.len(), 2);
    assert_eq!(journeys[0].outbound.date, second.0);
    assert_eq!(journeys[0].inbound.date, second.1);
    assert_eq!(journeys[1].outbound.date, first.0);
    assert_eq!(journeys[1].inbound.date, first.1);
}

#[test]
fn sorting_by_price_keeps_ties_in_order() {
    let mut journeys = journeys_for(&no_filter());
    sort_journeys(&mut journeys, SortBy::Price);
    assert_eq!(
        journeys,
        vec![
            journey((5, 40), (6, 33), 7850, 157, 149),
            journey((6, 40), (6, 33), 10850, 133, 149),
            journey((5, 40), (8, 33), 12850, 157, 149),
            journey((5, 40), (8, 53), 12850, 157, 149),
            journey((7, 40), (6, 33), 12850, 133, 149),
            journey((6, 40), (8, 33), 15850, 133, 149),
            journey((6, 40), (8, 53), 15850, 133, 149),
            journey((7, 40), (8, 33), 17850, 133, 149),
            journey((7, 40), (8, 53), 17850, 133, 149),
        ]
    );
}

#[test]
fn sorting_by_date_orders_outbound_departures() {
    let later = (ymd(2020, 4, 6), ymd(2020, 4, 8));
    let (out_date, in_date) = dates();
    let mut filter = no_filter();
    filter.max_price = Some(11000);
    let results: Vec<DayResult> = vec![
        Ok(trains_from_response(&response(), later.0, later.1)),
        Ok(trains_from_response(&response(), out_date, in_date)),
    ];
    let mut journeys = assemble_journeys(results, &filter).unwrap();
    sort_journeys(&mut journeys, SortBy::Date);
    let starts: Vec<(Date, TimeOfDay)> =
        journeys.iter().map(|j| (j.outbound.date, j.outbound.time)).collect();
    assert_eq!(
        starts,
        vec![
            (out_date, hm(5, 40)),
            (out_date, hm(6, 40)),
            (later.0, hm(5, 40)),
            (later.0, hm(6, 40)),
        ]
    );
}
