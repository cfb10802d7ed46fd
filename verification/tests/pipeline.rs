use mzprof::collect::{Batch, Collector, Data, FeedKind, Update};
use mzprof::subscribe::{Elapsed, Mode, Operator, Payload, Row, Size, Subscribe};
use mzprof::types::Error;

fn elapsed(id: u64, worker: u64, time: u64, diff: i64) -> Update {
    Update { data: Data::Elapsed(id, worker), time, diff }
}

fn batch(time: u64, updates: Vec<Update>) -> Batch {
    Batch { time, updates }
}

fn times_of(batches: &[Batch]) -> Vec<u64> {
    batches.iter().map(|b| b.time).collect()
}

#[test]
fn frontier_gates_release() {
    // Nothing is released before every open feed has passed an update's
    // time, whatever the interleaving.
    let mut c = Collector::new();
    c.open_feed(FeedKind::Operators);
    c.open_feed(FeedKind::Elapsed);

    // The elapsed feed reports watermark 10 with updates at times 1 and 5.
    // The operators feed still sits at watermark 0, so nothing may leave.
    let out = c.absorb_batch(
        FeedKind::Elapsed,
        batch(10, vec![elapsed(1, 0, 1, 50), elapsed(1, 0, 5, 20)]),
    );
    assert!(out.is_empty());

    // Once the operators feed reaches watermark 7, the buckets at times 1
    // and 5 lie below the frontier min(10, 7) = 7 and drain in order.
    let out = c.absorb_batch(FeedKind::Operators, batch(7, vec![]));
    assert_eq!(times_of(&out), vec![1, 5]);
    assert_eq!(out[0].updates.len(), 1);
    assert_eq!(out[1].updates.len(), 1);

    // An update at time 8 stays put until both watermarks pass it.
    let out = c.absorb_batch(FeedKind::Elapsed, batch(12, vec![elapsed(2, 0, 8, 1)]));
    assert!(out.is_empty());
    let out = c.absorb_batch(FeedKind::Operators, batch(9, vec![]));
    assert_eq!(times_of(&out), vec![8]);
}

#[test]
fn released_batches_are_time_sorted() {
    let mut c = Collector::new();
    c.open_feed(FeedKind::Elapsed);
    c.open_feed(FeedKind::Sizes);
    let out = c.absorb_batch(
        FeedKind::Elapsed,
        batch(20, vec![elapsed(1, 0, 9, 1), elapsed(1, 0, 3, 1), elapsed(1, 0, 6, 1)]),
    );
    assert!(out.is_empty());
    let out = c.absorb_batch(FeedKind::Sizes, batch(20, vec![]));
    assert_eq!(times_of(&out), vec![3, 6, 9]);
}

#[test]
fn closed_feed_stops_blocking() {
    // Once a feed closes, its absence no longer blocks release of
    // later-arriving updates from other feeds.
    let mut c = Collector::new();
    c.open_feed(FeedKind::Operators);
    c.open_feed(FeedKind::Elapsed);

    let out = c.absorb_batch(FeedKind::Elapsed, batch(10, vec![elapsed(1, 0, 4, 1)]));
    assert!(out.is_empty());

    // The operators feed closes while still at watermark 0; the stashed
    // update at time 4 now only waits for the elapsed feed, which has
    // already passed it.
    let out = c.close_feed(FeedKind::Operators);
    assert_eq!(times_of(&out), vec![4]);

    // Feeding the remaining feed past further updates keeps draining.
    let out = c.absorb_batch(FeedKind::Elapsed, batch(30, vec![elapsed(1, 0, 15, 1)]));
    assert_eq!(times_of(&out), vec![15]);

    // With a single remaining feed, an update below that feed's own
    // watermark releases at once, and closing it leaves nothing behind.
    let out = c.absorb_batch(FeedKind::Elapsed, batch(31, vec![elapsed(1, 0, 30, 1)]));
    assert_eq!(times_of(&out), vec![30]);
    let out = c.close_feed(FeedKind::Elapsed);
    assert!(out.is_empty());
}

#[test]
fn three_feed_interleaving_stays_gated_and_sorted() {
    // An arbitrary interleaving of three feeds: every released batch lies
    // strictly below all open watermarks, and the output is time-sorted.
    let mut c = Collector::new();
    c.open_feed(FeedKind::Operators);
    c.open_feed(FeedKind::Elapsed);
    c.open_feed(FeedKind::Sizes);

    let mut released: Vec<u64> = Vec::new();
    let feeds = [
        (FeedKind::Elapsed, 12u64, vec![7u64, 2]),
        (FeedKind::Sizes, 5, vec![1, 3]),
        (FeedKind::Operators, 9, vec![4]),
        (FeedKind::Sizes, 14, vec![6]),
        (FeedKind::Operators, 20, vec![11]),
        (FeedKind::Elapsed, 25, vec![18]),
        (FeedKind::Sizes, 30, vec![22]),
    ];
    let mut watermarks = std::collections::HashMap::new();
    watermarks.insert(format!("{:?}", FeedKind::Operators), 0u64);
    watermarks.insert(format!("{:?}", FeedKind::Elapsed), 0u64);
    watermarks.insert(format!("{:?}", FeedKind::Sizes), 0u64);
    for (kind, watermark, times) in feeds {
        let updates = times.iter().map(|&t| elapsed(1, 0, t, 1)).collect();
        watermarks.insert(format!("{kind:?}"), watermark);
        let out = c.absorb_batch(kind, batch(watermark, updates));
        let frontier = watermarks.values().copied().min().unwrap();
        for b in &out {
            assert!(b.time < frontier);
            released.push(b.time);
        }
    }
    let mut sorted = released.clone();
    sorted.sort();
    sorted.dedup();
    assert_eq!(released, sorted);
    // Closing every feed drains whatever is left, still in order.
    let mut all = released.clone();
    all.extend(times_of(&c.close_feed(FeedKind::Operators)));
    all.extend(times_of(&c.close_feed(FeedKind::Elapsed)));
    all.extend(times_of(&c.close_feed(FeedKind::Sizes)));
    let mut expected: Vec<u64> = vec![7, 2, 1, 3, 4, 6, 11, 18, 22];
    expected.sort();
    assert_eq!(all, expected);
}

#[test]
fn subscription_requires_leading_progress_marker() {
    let mut s = Subscribe::new(Mode::Snapshot);
    let r = s.absorb_row(Row::Data {
        time: 1,
        diff: 1,
        payload: Payload::Elapsed { id: 1, worker: 0 },
    });
    assert_eq!(r.unwrap_err(), Error::FirstRowNotProgress);
}

#[test]
fn snapshot_subscription_collects_up_to_horizon() {
    let mut s = Subscribe::new(Mode::Snapshot);
    // The first progress marker sets the horizon to 100.
    assert!(s.absorb_row(Row::Progress { time: 100 }).unwrap().is_none());
    // Data at or below the horizon is buffered; data past it is dropped.
    assert!(s
        .absorb_row(Row::Data { time: 50, diff: 2, payload: Payload::Elapsed { id: 1, worker: 0 } })
        .unwrap()
        .is_none());
    assert!(s
        .absorb_row(Row::Data {
            time: 150,
            diff: 9,
            payload: Payload::Elapsed { id: 2, worker: 0 },
        })
        .unwrap()
        .is_none());
    // The next progress marker emits the buffer as one batch; being past
    // the horizon, it also finishes the subscription.
    let b = s.absorb_row(Row::Progress { time: 101 }).unwrap().unwrap();
    assert_eq!(b.time, 101);
    assert_eq!(b.updates.len(), 1);
    assert_eq!(b.updates[0].time, 50);
    assert_eq!(b.updates[0].diff, 2);
    assert!(matches!(b.updates[0].data, Data::Elapsed(1, 0)));
    // A finished subscription produces nothing further.
    assert!(s.absorb_row(Row::Progress { time: 200 }).unwrap().is_none());
}

#[test]
fn continual_subscription_honours_duration() {
    let mut s = Subscribe::new(Mode::Continual { duration: Some(50) });
    assert!(s.absorb_row(Row::Progress { time: 100 }).unwrap().is_none());
    // The cutoff is 150: time 140 is kept, time 160 is dropped.
    assert!(s
        .absorb_row(Row::Data {
            time: 140,
            diff: 1,
            payload: Payload::Elapsed { id: 1, worker: 0 },
        })
        .unwrap()
        .is_none());
    assert!(s
        .absorb_row(Row::Data {
            time: 160,
            diff: 1,
            payload: Payload::Elapsed { id: 2, worker: 0 },
        })
        .unwrap()
        .is_none());
    // A progress marker inside the window emits and keeps streaming.
    let b = s.absorb_row(Row::Progress { time: 145 }).unwrap().unwrap();
    assert_eq!(b.updates.len(), 1);
    // One past the window emits the (empty) buffer and finishes.
    let b = s.absorb_row(Row::Progress { time: 151 }).unwrap().unwrap();
    assert_eq!(b.time, 151);
    assert!(b.updates.is_empty());
    assert!(s.absorb_row(Row::Progress { time: 160 }).unwrap().is_none());
}

#[test]
fn unbounded_continual_subscription_never_finishes() {
    let mut s = Subscribe::new(Mode::Continual { duration: None });
    assert!(s.absorb_row(Row::Progress { time: 100 }).unwrap().is_none());
    assert!(s
        .absorb_row(Row::Data {
            time: 100000,
            diff: 1,
            payload: Payload::Elapsed { id: 1, worker: 0 },
        })
        .unwrap()
        .is_none());
    let b = s.absorb_row(Row::Progress { time: 100001 }).unwrap().unwrap();
    assert_eq!(b.updates.len(), 1);
}

#[test]
fn subscription_reports_when_finished() {
    let mut s = Subscribe::new(Mode::Snapshot);
    assert!(!s.is_finished());
    s.absorb_row(Row::Progress { time: 100 }).unwrap();
    assert!(!s.is_finished());
    s.absorb_row(Row::Progress { time: 101 }).unwrap();
    assert!(s.is_finished());
}

#[test]
fn operator_row_parsing() {
    let d = Operator::parse(7, String::from("join"), "{0,3,12}").unwrap();
    match d {
        Data::Operator(id, info) => {
            assert_eq!(id, 7);
            assert_eq!(info.name, "join");
            assert_eq!(info.address.0, vec![0, 3, 12]);
        }
        _ => panic!("expected operator data"),
    }
}

#[test]
fn operator_row_parsing_accepts_plus_digits() {
    let d = Operator::parse(1, String::from("x"), "{+4}").unwrap();
    match d {
        Data::Operator(_, info) => assert_eq!(info.address.0, vec![4]),
        _ => panic!("expected operator data"),
    }
}

#[test]
fn operator_row_parsing_trims_all_braces() {
    let d = Operator::parse(1, String::from("x"), "{{5,6}}").unwrap();
    match d {
        Data::Operator(_, info) => assert_eq!(info.address.0, vec![5, 6]),
        _ => panic!("expected operator data"),
    }
}

#[test]
fn operator_row_parsing_rejects_bad_input() {
    assert_eq!(
        Operator::parse(-1, String::from("x"), "{0}").unwrap_err(),
        Error::InvalidId,
    );
    assert_eq!(
        Operator::parse(1, String::from("x"), "{}").unwrap_err(),
        Error::InvalidAddress,
    );
    assert_eq!(
        Operator::parse(1, String::from("x"), "{1,,2}").unwrap_err(),
        Error::InvalidAddress,
    );
    assert_eq!(
        Operator::parse(1, String::from("x"), "{1,a}").unwrap_err(),
        Error::InvalidAddress,
    );
    assert_eq!(
        Operator::parse(1, String::from("x"), "{99999999999999999999}").unwrap_err(),
        Error::InvalidAddress,
    );
}

#[test]
fn elapsed_row_parsing() {
    assert!(matches!(Elapsed::parse(3, 1).unwrap(), Data::Elapsed(3, 1)));
    assert_eq!(Elapsed::parse(-3, 1).unwrap_err(), Error::InvalidId);
    assert_eq!(Elapsed::parse(3, -1).unwrap_err(), Error::InvalidId);
}

#[test]
fn size_row_parsing() {
    assert!(matches!(Size::parse(3, Some(1)).unwrap(), Data::Size(3, Some(1))));
    assert!(matches!(Size::parse(3, None).unwrap(), Data::Size(3, None)));
    assert_eq!(Size::parse(-3, Some(1)).unwrap_err(), Error::InvalidId);
    assert_eq!(Size::parse(3, Some(-1)).unwrap_err(), Error::InvalidId);
}
