use netbase::cache::Cache;
use netbase::cache::FailureCollector;
use netbase::cache::LookupPlan;
use netbase::cache::PairCollector;
use netbase::cache::RequestVisitor;
use netbase::error::ErrorKind;
use netbase::ip::IpAddress;
use netbase::name::DnsName;
use netbase::net::Net;
use netbase::net::RetriedResponse;
use netbase::net::RetryTracker;
use netbase::question::Protocol;
use netbase::question::Question;
use netbase::question::QuestionV;
use vstd::prelude::Seq;

fn name(s: &str) -> DnsName {
    DnsName::from_ascii(&s.as_bytes().to_vec()).unwrap()
}

fn question_a(host: &str) -> Question {
    Question::new(name(host), 1, Protocol::Udp, true)
}

/// A minimal, decodable DNS packet: a zeroed twelve-byte header.
fn valid_packet() -> Vec<u8> {
    vec![0u8; 12]
}

#[test]
fn fresh_query_datagram_after_one_timeout() {
    // a stub resolver that times out once and then returns a packet
    let net = Net::new(IpAddress::v4(127, 0, 0, 1), 1000, 3, 200);
    let q = question_a("example.com");
    let server = IpAddress::v4(192, 0, 2, 1);

    let mut tracker = RetryTracker::new(net.retry);
    assert!(tracker.has_tries_left());
    tracker.record_failure(1_000, 1_000, ErrorKind::Timeout);
    let response = tracker.finish(2_200, 35, Ok(valid_packet()));

    let mut cache = Cache::new();
    assert!(cache.record_response(&q, server, response));

    let results = cache.lookup(&q, &vec![server]);
    assert_eq!(results.len(), 1);
    assert_eq!(results[0].0, server);
    let single = &results[0].1;
    assert!(single.started > 0);
    assert_eq!(single.started, 2_200);
    assert_eq!(single.duration, 35);
    match &single.outcome {
        Ok((message, size)) => {
            assert_eq!(*size, 12);
            // the packet really decoded: an empty header
            assert_eq!(message.header().query_count(), 0);
        },
        Err(_) => panic!("expected a decoded response"),
    }

    // one failure observable through the retry iteration
    let retries = cache.retries(&q, server);
    assert_eq!(retries.len(), 1);
    assert_eq!(retries[0].kind, ErrorKind::Timeout);
}

#[test]
fn cache_hit_skips_unresolved_servers() {
    let q = question_a("example.com");
    let s1 = IpAddress::v4(192, 0, 2, 1);
    let s2 = IpAddress::v4(192, 0, 2, 2);

    let mut cache = Cache::new();
    let response = RetriedResponse::from_parts(Vec::new(), 2_200, 35, Ok(valid_packet()));
    assert!(cache.record_response(&q, s1, response));

    // a pure lookup answers only the resolved server; the other is absent
    let results = cache.lookup(&q, &vec![s1, s2]);
    assert_eq!(results.len(), 1);
    assert_eq!(results[0].0, s1);
}

#[test]
fn retry_exhaustion_records_the_final_timeout() {
    // the stub always times out, with two tries configured
    let mut tracker = RetryTracker::new(2);
    assert!(tracker.has_tries_left());
    tracker.record_failure(1_000, 1_000, ErrorKind::Timeout);
    assert!(!tracker.has_tries_left());
    let response = tracker.finish(2_200, 1_000, Err(ErrorKind::Timeout));

    let q = question_a("example.com");
    let server = IpAddress::v4(192, 0, 2, 1);
    let mut cache = Cache::new();
    assert!(cache.record_response(&q, server, response));

    let results = cache.lookup(&q, &vec![server]);
    assert_eq!(results.len(), 1);
    assert!(matches!(results[0].1.outcome, Err(ErrorKind::Timeout)));
    assert_eq!(cache.retries(&q, server).len(), 1);
}

#[test]
fn parse_failure_is_reported_but_the_packet_is_kept() {
    let q = question_a("example.com");
    let server = IpAddress::v4(192, 0, 2, 1);
    let malformed = vec![0xde, 0xad, 0xbe];

    let mut cache = Cache::new();
    let response = RetriedResponse::from_parts(Vec::new(), 3_000, 12, Ok(malformed));
    assert!(cache.record_response(&q, server, response));

    let results = cache.lookup(&q, &vec![server]);
    assert_eq!(results.len(), 1);
    assert!(matches!(results[0].1.outcome, Err(ErrorKind::Protocol)));

    // after a round trip the entry is still present and still protocol
    let loaded = Cache::from_bytes(&cache.to_bytes()).unwrap();
    let results = loaded.lookup(&q, &vec![server]);
    assert_eq!(results.len(), 1);
    assert!(matches!(results[0].1.outcome, Err(ErrorKind::Protocol)));
    assert_eq!(loaded.to_bytes(), cache.to_bytes());
}

struct NestedLookup {
    q: Question,
    server: IpAddress,
    visits: usize,
    nested_was_locked: bool,
    record_was_refused: bool,
}

impl RequestVisitor for NestedLookup {
    // ghost member; never run
    fn observed(&self) -> Seq<(QuestionV, IpAddress)> {
        unreachable!()
    }

    fn visit(&mut self, cache: &mut Cache, _question: &Question, _server: IpAddress) {
        self.visits += 1;
        match cache.lookup_plan(&self.q, &vec![self.server]) {
            LookupPlan::Locked(v) => {
                assert_eq!(v.len(), 1);
                assert_eq!(v[0].0, self.server);
                assert_eq!(v[0].1.started, 0);
                assert_eq!(v[0].1.duration, 0);
                assert!(matches!(v[0].1.outcome, Err(ErrorKind::Lock)));
                self.nested_was_locked = true;
            },
            LookupPlan::Split(_, _) => {},
        }
        let response = RetriedResponse::from_parts(Vec::new(), 5, 5, Err(ErrorKind::Timeout));
        self.record_was_refused = !cache.record_response(&self.q, self.server, response);
        // a pure lookup is unaffected by the reading lock
        let served = cache.lookup(&self.q, &vec![self.server]);
        assert!(served.is_empty());
    }
}

#[test]
fn iteration_locks_nested_lookups() {
    let resolved = question_a("example.com");
    let server = IpAddress::v4(192, 0, 2, 1);
    let mut cache = Cache::new();
    let response = RetriedResponse::from_parts(Vec::new(), 2_200, 35, Ok(valid_packet()));
    assert!(cache.record_response(&resolved, server, response));

    let fresh = question_a("example.net");
    let fresh_server = IpAddress::v4(192, 0, 2, 9);
    let mut visitor = NestedLookup {
        q: fresh,
        server: fresh_server,
        visits: 0,
        nested_was_locked: false,
        record_was_refused: false,
    };
    cache.for_each_request(&mut visitor);
    assert_eq!(visitor.visits, 1);
    assert!(visitor.nested_was_locked);
    assert!(visitor.record_was_refused);

    // after the iteration returns, the same call resolves normally
    match cache.lookup_plan(&visitor.q, &vec![fresh_server]) {
        LookupPlan::Split(ready, pending) => {
            assert_eq!(ready.len(), 0);
            assert_eq!(pending, vec![fresh_server]);
        },
        LookupPlan::Locked(_) => panic!("the lock must be released on exit"),
    }
    let response = RetriedResponse::from_parts(Vec::new(), 9_000, 1, Err(ErrorKind::Io));
    assert!(cache.record_response(&visitor.q, fresh_server, response));
}

#[test]
fn retry_iteration_is_chronological_and_total() {
    let q = question_a("example.com");
    let server = IpAddress::v4(192, 0, 2, 1);
    let mut tracker = RetryTracker::new(4);
    tracker.record_failure(100, 10, ErrorKind::Io);
    tracker.record_failure(300, 30, ErrorKind::Timeout);
    tracker.record_failure(600, 60, ErrorKind::Internal);
    let response = tracker.finish(900, 5, Err(ErrorKind::Timeout));

    let mut cache = Cache::new();
    assert!(cache.record_response(&q, server, response));

    let mut visitor = FailureCollector::new();
    cache.for_each_retry(&q, server, &mut visitor);
    let seen: Vec<(u64, u32, ErrorKind)> = visitor
        .failures()
        .iter()
        .map(|f| (f.query_start, f.query_duration, f.kind))
        .collect();
    assert_eq!(
        seen,
        vec![
            (100, 10, ErrorKind::Io),
            (300, 30, ErrorKind::Timeout),
            (600, 60, ErrorKind::Internal),
        ]
    );

    // an absent pair yields no visits and reports success
    let mut none = FailureCollector::new();
    cache.for_each_retry(&q, IpAddress::v4(203, 0, 113, 1), &mut none);
    assert!(none.failures().is_empty());
}

#[test]
fn memoization_serves_the_stored_outcome() {
    let q = question_a("example.com");
    let server = IpAddress::v4(192, 0, 2, 1);
    let mut cache = Cache::new();
    let response = RetriedResponse::from_parts(Vec::new(), 2_200, 35, Ok(valid_packet()));
    assert!(cache.record_response(&q, server, response));

    // a lookup that could go to the network has nothing left to query
    match cache.lookup_plan(&q, &vec![server]) {
        LookupPlan::Split(ready, pending) => {
            assert_eq!(ready.len(), 1);
            assert_eq!(ready[0].1.started, 2_200);
            assert!(pending.is_empty());
        },
        LookupPlan::Locked(_) => panic!("not reading"),
    }

    // a pure lookup returns the very same outcome
    let r1 = cache.lookup(&q, &vec![server]);
    let r2 = cache.lookup(&q, &vec![server]);
    assert_eq!(r1.len(), 1);
    assert_eq!(r2.len(), 1);
    assert_eq!(r1[0].1.started, r2[0].1.started);
    assert_eq!(r1[0].1.duration, r2[0].1.duration);
}

#[test]
fn resolution_is_at_most_once() {
    let q = question_a("example.com");
    let server = IpAddress::v4(192, 0, 2, 1);
    let mut cache = Cache::new();
    let first = RetriedResponse::from_parts(Vec::new(), 1_000, 1, Err(ErrorKind::Timeout));
    assert!(cache.record_response(&q, server, first));

    // a second outcome for the same pair is refused; the first is kept
    let second = RetriedResponse::from_parts(Vec::new(), 9_999, 9, Ok(valid_packet()));
    assert!(!cache.record_response(&q, server, second));
    let results = cache.lookup(&q, &vec![server]);
    assert_eq!(results.len(), 1);
    assert_eq!(results[0].1.started, 1_000);
    assert!(matches!(results[0].1.outcome, Err(ErrorKind::Timeout)));
}

#[test]
fn batch_plan_covers_every_server_once() {
    let q = question_a("example.com");
    let s1 = IpAddress::v4(192, 0, 2, 1);
    let s2 = IpAddress::v4(192, 0, 2, 2);
    let s3 = IpAddress::v4(192, 0, 2, 3);
    let mut cache = Cache::new();
    let response = RetriedResponse::from_parts(Vec::new(), 50, 5, Err(ErrorKind::Io));
    assert!(cache.record_response(&q, s2, response));

    match cache.lookup_plan(&q, &vec![s1, s2, s3]) {
        LookupPlan::Split(ready, pending) => {
            assert_eq!(ready.len() + pending.len(), 3);
            assert_eq!(ready.len(), 1);
            assert_eq!(ready[0].0, s2);
            assert_eq!(pending, vec![s1, s3]);
        },
        LookupPlan::Locked(_) => panic!("not reading"),
    }
}

#[test]
fn request_pairs_lists_the_store() {
    let q1 = question_a("example.com");
    let q2 = Question::new(name("example.org."), 2, Protocol::Tcp, false);
    let s1 = IpAddress::v4(192, 0, 2, 1);
    let s2 = IpAddress::V6(1);
    let mut cache = Cache::new();
    let r = |started: u64| RetriedResponse::from_parts(Vec::new(), started, 1, Err(ErrorKind::Io));
    assert!(cache.record_response(&q1, s1, r(1)));
    assert!(cache.record_response(&q1, s2, r(2)));
    assert!(cache.record_response(&q2, s1, r(3)));

    let pairs = cache.request_pairs();
    assert_eq!(pairs.len(), 3);
    assert!(pairs[0].0.same_as(&q1));
    assert_eq!(pairs[0].1, s1);
    assert!(pairs[1].0.same_as(&q1));
    assert_eq!(pairs[1].1, s2);
    assert!(pairs[2].0.same_as(&q2));
    assert_eq!(pairs[2].1, s1);

    // the iteration shows exactly the same pairs, once each, in order
    let mut collector = PairCollector::new();
    cache.for_each_request(&mut collector);
    let seen = collector.pairs();
    assert_eq!(seen.len(), pairs.len());
    for (a, b) in seen.iter().zip(pairs.iter()) {
        assert!(a.0.same_as(&b.0));
        assert_eq!(a.1, b.1);
    }
}
