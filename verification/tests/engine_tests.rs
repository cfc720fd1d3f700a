use relay_scanner::codec::parse_or_addresses;
use relay_scanner::filter::filter_by_port;
use relay_scanner::relay::probe_outcome;
use relay_scanner::relay::Relay;
use relay_scanner::scheduler::prepare_pool;
use relay_scanner::scheduler::ScanScheduler;
use relay_scanner::relay::ProbeOutcome;
use relay_scanner::source::FetchEvent;
use relay_scanner::source::FetchPlan;
use relay_scanner::source::FetchStep;

fn relay(fingerprint: &str, addresses: &[&str]) -> Relay {
    Relay {
        fingerprint: fingerprint.to_string(),
        or_addresses: addresses.iter().map(|a| a.to_string()).collect(),
    }
}

fn fingerprints(relays: &[Relay]) -> Vec<String> {
    relays.iter().map(|r| r.fingerprint.clone()).collect()
}

#[test]
fn filter_projects_to_single_address_candidates() {
    let pool = vec![relay("BBB", &["[2001:db8::1]:9001", "10.0.0.2:9001"])];
    let narrowed = filter_by_port(&pool, &vec![9001]);
    assert_eq!(narrowed.len(), 2);
    assert_eq!(narrowed[0].fingerprint, "BBB");
    assert_eq!(narrowed[0].or_addresses, vec!["[2001:db8::1]:9001".to_string()]);
    assert_eq!(narrowed[1].fingerprint, "BBB");
    assert_eq!(narrowed[1].or_addresses, vec!["10.0.0.2:9001".to_string()]);
}

#[test]
fn filter_empty_ports_keeps_pool_unchanged() {
    let pool = vec![
        relay("AAA", &["10.0.0.1:443"]),
        relay("BBB", &["10.0.0.2:9001"]),
    ];
    let kept = filter_by_port(&pool, &vec![]);
    assert_eq!(kept.len(), 2);
    assert_eq!(kept[0].fingerprint, "AAA");
    assert_eq!(kept[0].or_addresses, vec!["10.0.0.1:443".to_string()]);
    assert_eq!(kept[1].fingerprint, "BBB");
    assert_eq!(kept[1].or_addresses, vec!["10.0.0.2:9001".to_string()]);
}

#[test]
fn filter_drops_candidates_without_matching_port() {
    let pool = vec![
        relay("AAA", &["10.0.0.1:443"]),
        relay("BBB", &["10.0.0.2:9001"]),
    ];
    let narrowed = filter_by_port(&pool, &vec![443]);
    assert_eq!(fingerprints(&narrowed), vec!["AAA".to_string()]);
}

#[test]
fn fetch_tries_sources_in_order_and_stops_at_first_success() {
    let extras = vec!["http://extra-one".to_string(), "http://extra-two".to_string()];
    let mut plan = FetchPlan::new(&extras);

    let step = plan.step(FetchEvent::Started);
    match step {
        FetchStep::Request(url) => assert!(url.starts_with("https://onionoo.torproject.org/")),
        _ => panic!("expected the primary source first"),
    }
    let step = plan.step(FetchEvent::Failed);
    match step {
        FetchStep::Request(url) => assert_eq!(url, "http://extra-one"),
        _ => panic!("expected the first extra source"),
    }
    let step = plan.step(FetchEvent::Failed);
    match step {
        FetchStep::Request(url) => assert_eq!(url, "http://extra-two"),
        _ => panic!("expected the second extra source"),
    }
    let step = plan.step(FetchEvent::Failed);
    match step {
        FetchStep::Request(url) => {
            assert!(url.starts_with("https://raw.githubusercontent.com/"))
        }
        _ => panic!("expected the first mirror"),
    }

    // The first mirror answers: the run ends with exactly its candidates.
    let fetched = vec![relay("AAA", &["10.0.0.1:443"])];
    let step = plan.step(FetchEvent::Received(fetched));
    match step {
        FetchStep::Done(relays) => {
            assert_eq!(relays.len(), 1);
            assert_eq!(relays[0].fingerprint, "AAA");
            let parsed = parse_or_addresses(&relays[0].or_addresses);
            assert_eq!(parsed, vec![("10.0.0.1".to_string(), 443)]);
        }
        _ => panic!("expected success with the mirror's candidates"),
    }
}

#[test]
fn fetch_fails_only_after_every_source() {
    let mut plan = FetchPlan::new(&vec![]);
    let mut requests = 0;
    let mut event = FetchEvent::Started;
    loop {
        match plan.step(event) {
            FetchStep::Request(_) => {
                requests += 1;
                event = FetchEvent::Failed;
            }
            FetchStep::Unavailable => break,
            FetchStep::Done(_) => panic!("nothing succeeded"),
        }
    }
    // Primary plus the two mirrors.
    assert_eq!(requests, 3);
}

#[test]
fn probe_outcome_keeps_answering_addresses_in_order() {
    let r = relay("CCC", &["10.0.0.1:443", "bogus", "[2001:db8::1]:9001"]);
    let addresses = parse_or_addresses(&r.or_addresses);
    assert_eq!(addresses.len(), 2);
    let outcome = probe_outcome(r, addresses, &vec![false, true]);
    assert_eq!(outcome.relay.fingerprint, "CCC");
    assert_eq!(outcome.reachable, vec![("2001:db8::1".to_string(), 9001)]);
}

#[test]
fn scheduler_batches_in_order_and_stops_once_goal_met() {
    let pool = vec![
        relay("AAA", &["10.0.0.1:443"]),
        relay("BBB", &["10.0.0.2:443"]),
        relay("CCC", &["10.0.0.3:443"]),
    ];
    let mut scheduler = ScanScheduler::new(pool, 1, 2);

    // Batch one: the first two candidates, both unreachable.
    let batch = scheduler.next_batch().expect("first batch");
    assert_eq!(fingerprints(&batch), vec!["AAA".to_string(), "BBB".to_string()]);
    let outcomes: Vec<ProbeOutcome> = batch
        .into_iter()
        .map(|r| {
            let addresses = parse_or_addresses(&r.or_addresses);
            let n = addresses.len();
            probe_outcome(r, addresses, &vec![false; n])
        })
        .collect();
    scheduler.record_outcomes(outcomes);
    assert_eq!(scheduler.found_count(), 0);
    assert!(!scheduler.goal_met());

    // Batch two: the third candidate alone, and it answers.
    let batch = scheduler.next_batch().expect("second batch");
    assert_eq!(fingerprints(&batch), vec!["CCC".to_string()]);
    let outcomes: Vec<ProbeOutcome> = batch
        .into_iter()
        .map(|r| {
            let addresses = parse_or_addresses(&r.or_addresses);
            let n = addresses.len();
            probe_outcome(r, addresses, &vec![true; n])
        })
        .collect();
    scheduler.record_outcomes(outcomes);
    assert_eq!(scheduler.found_count(), 1);
    assert!(scheduler.goal_met());

    // Goal met: no further batch is started.
    assert!(scheduler.next_batch().is_none());
}

#[test]
fn scheduler_goal_met_blocks_next_batch_with_candidates_left() {
    let pool = vec![
        relay("AAA", &["10.0.0.1:443"]),
        relay("BBB", &["10.0.0.2:443"]),
        relay("CCC", &["10.0.0.3:443"]),
    ];
    let mut scheduler = ScanScheduler::new(pool, 1, 1);
    let batch = scheduler.next_batch().expect("first batch");
    let outcomes: Vec<ProbeOutcome> = batch
        .into_iter()
        .map(|r| {
            let addresses = parse_or_addresses(&r.or_addresses);
            let n = addresses.len();
            probe_outcome(r, addresses, &vec![true; n])
        })
        .collect();
    scheduler.record_outcomes(outcomes);
    assert!(scheduler.goal_met());
    // Two candidates are still pending, but the goal is met.
    assert!(scheduler.next_batch().is_none());
}

#[test]
fn scheduler_records_every_outcome_of_a_finished_batch() {
    // Goal 1, but the completed batch found two reachable candidates:
    // both are recorded, because a batch always runs to completion.
    let pool = vec![
        relay("AAA", &["10.0.0.1:443"]),
        relay("BBB", &["10.0.0.2:443"]),
    ];
    let mut scheduler = ScanScheduler::new(pool, 1, 2);
    let batch = scheduler.next_batch().expect("one batch");
    let outcomes: Vec<ProbeOutcome> = batch
        .into_iter()
        .map(|r| {
            let addresses = parse_or_addresses(&r.or_addresses);
            let n = addresses.len();
            probe_outcome(r, addresses, &vec![true; n])
        })
        .collect();
    scheduler.record_outcomes(outcomes);
    assert_eq!(scheduler.found_count(), 2);
    let found = scheduler.into_outcomes();
    assert_eq!(found[0].relay.fingerprint, "AAA");
    assert_eq!(found[1].relay.fingerprint, "BBB");
}

#[test]
fn scheduler_exhausts_pool_without_goal() {
    let pool = vec![relay("AAA", &["10.0.0.1:443"])];
    let mut scheduler = ScanScheduler::new(pool, 5, 2);
    let batch = scheduler.next_batch().expect("one batch");
    let outcomes: Vec<ProbeOutcome> = batch
        .into_iter()
        .map(|r| {
            let addresses = parse_or_addresses(&r.or_addresses);
            let n = addresses.len();
            probe_outcome(r, addresses, &vec![false; n])
        })
        .collect();
    scheduler.record_outcomes(outcomes);
    // Pool exhausted below the goal: a normal end, with nothing found.
    assert!(scheduler.next_batch().is_none());
    assert_eq!(scheduler.found_count(), 0);
}

#[test]
fn prepare_pool_shuffles_without_losing_candidates() {
    let pool = vec![
        relay("AAA", &["10.0.0.1:443"]),
        relay("BBB", &["10.0.0.2:443"]),
        relay("CCC", &["10.0.0.3:443"]),
    ];
    let prepared = prepare_pool(pool, &vec![]);
    let mut names = fingerprints(&prepared);
    names.sort();
    assert_eq!(
        names,
        vec!["AAA".to_string(), "BBB".to_string(), "CCC".to_string()]
    );
}

#[test]
fn prepare_pool_narrows_by_port() {
    let pool = vec![
        relay("AAA", &["10.0.0.1:443", "10.0.0.1:9001"]),
        relay("BBB", &["10.0.0.2:9001"]),
        relay("CCC", &["10.0.0.3:80"]),
    ];
    let prepared = prepare_pool(pool, &vec![9001]);
    let mut names = fingerprints(&prepared);
    names.sort();
    assert_eq!(names, vec!["AAA".to_string(), "BBB".to_string()]);
    for r in &prepared {
        assert_eq!(r.or_addresses.len(), 1);
        assert!(r.or_addresses[0].ends_with(":9001"));
    }
}
