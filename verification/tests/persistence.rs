use netbase::cache::Cache;
use netbase::codec::parse_question;
use netbase::codec::write_question;
use netbase::error::ErrorKind;
use netbase::ip::IpAddress;
use netbase::name::DnsName;
use netbase::net::RetriedResponse;
use netbase::net::RetryTracker;
use netbase::question::Protocol;
use netbase::question::Question;

fn name(s: &str) -> DnsName {
    DnsName::from_ascii(&s.as_bytes().to_vec()).unwrap()
}

/// A minimal, decodable DNS packet: a zeroed twelve-byte header.
fn valid_packet() -> Vec<u8> {
    vec![0u8; 12]
}

fn fresh_response(outcome: Result<Vec<u8>, ErrorKind>) -> RetriedResponse {
    RetriedResponse::from_parts(Vec::new(), 1_000, 25, outcome)
}

#[test]
fn test_serde() {
    {
        let input = Question::new(name("example.com"), 6, Protocol::Udp, false);
        let mut buf = Vec::new();
        write_question(&mut buf, &input);
        let (output, end) = parse_question(&buf, 0).unwrap();
        assert_eq!(end, buf.len());
        assert!(input.same_as(&output));
    }
    {
        let input = Question::new(name("example.com."), 2, Protocol::Udp, false);
        let mut buf = Vec::new();
        write_question(&mut buf, &input);
        let (output, end) = parse_question(&buf, 0).unwrap();
        assert_eq!(end, buf.len());
        assert!(input.same_as(&output));
    }
}

#[test]
fn question_encoding_distinguishes_fqdn() {
    let rel = Question::new(name("example.com"), 1, Protocol::Udp, true);
    let abs = Question::new(name("example.com."), 1, Protocol::Udp, true);
    let mut b1 = Vec::new();
    write_question(&mut b1, &rel);
    let mut b2 = Vec::new();
    write_question(&mut b2, &abs);
    assert_ne!(b1, b2);
    let (back, _) = parse_question(&b2, 0).unwrap();
    assert!(back.qname.is_fqdn());
}

#[test]
fn cache_round_trip_preserves_entries() {
    let mut cache = Cache::new();

    // one EDNS question resolved over two address families
    let mut q1 = Question::new(name("example.com"), 1, Protocol::Udp, true);
    q1.set_edns(0, true, 512, 10, vec![0xab, 0xcd]);
    let v4 = IpAddress::v4(192, 0, 2, 1);
    let v6 = IpAddress::V6(0x2001_0db8_0000_0000_0000_0000_0000_0001);
    assert!(cache.record_response(&q1, v4, fresh_response(Ok(valid_packet()))));
    assert!(cache.record_response(&q1, v6, fresh_response(Err(ErrorKind::Timeout))));

    // a second question with retry history and an undecodable packet
    let q2 = Question::new(name("example.org."), 2, Protocol::Tcp, false);
    let mut tracker = RetryTracker::new(3);
    tracker.record_failure(500, 40, ErrorKind::Io);
    tracker.record_failure(700, 60, ErrorKind::Timeout);
    let resp = tracker.finish(900, 10, Ok(vec![1, 2, 3]));
    assert!(cache.record_response(&q2, v4, resp));

    let bytes = cache.to_bytes();
    let loaded = Cache::from_bytes(&bytes).unwrap();

    // structural equality of the entry graph: the re-encoding is identical
    assert_eq!(loaded.to_bytes(), bytes);

    // the entries answer as before
    let servers = vec![v4, v6];
    let before = cache.lookup(&q1, &servers);
    let after = loaded.lookup(&q1, &servers);
    assert_eq!(before.len(), 2);
    assert_eq!(after.len(), 2);
    for (b, a) in before.iter().zip(after.iter()) {
        assert_eq!(b.0, a.0);
        assert_eq!(b.1.started, a.1.started);
        assert_eq!(b.1.duration, a.1.duration);
        match (&b.1.outcome, &a.1.outcome) {
            (Ok((_, sb)), Ok((_, sa))) => assert_eq!(sb, sa),
            (Err(kb), Err(ka)) => assert_eq!(kb, ka),
            _ => panic!("outcomes diverged over the round trip"),
        }
    }

    // the retry history survives
    let retries = loaded.retries(&q2, v4);
    assert_eq!(retries.len(), 2);
    assert_eq!(retries[0].query_start, 500);
    assert_eq!(retries[0].kind, ErrorKind::Io);
    assert_eq!(retries[1].query_start, 700);
    assert_eq!(retries[1].kind, ErrorKind::Timeout);

    // the undecodable packet still reports a protocol error
    let r = loaded.lookup(&q2, &vec![v4]);
    assert_eq!(r.len(), 1);
    assert!(matches!(r[0].1.outcome, Err(ErrorKind::Protocol)));
}

#[test]
fn empty_cache_round_trips() {
    let cache = Cache::new();
    let bytes = cache.to_bytes();
    let loaded = Cache::from_bytes(&bytes).unwrap();
    assert_eq!(loaded.to_bytes(), bytes);
    assert_eq!(loaded.request_pairs().len(), 0);
}

#[test]
fn from_bytes_rejects_malformed_input() {
    // not a map at all, and the failure carries its description
    match Cache::from_bytes(&vec![]) {
        Err(err) => assert_eq!(
            err.message(),
            "the bytes are not a whole-store encoding of a cache"
        ),
        Ok(_) => panic!("empty bytes must not load"),
    }
    assert!(Cache::from_bytes(&vec![0x01, 0x02]).is_err());
    // a map header that promises an entry it does not hold
    assert!(Cache::from_bytes(&vec![0xdf, 0, 0, 0, 1]).is_err());
    // trailing garbage after a valid empty store
    let mut bytes = Cache::new().to_bytes();
    bytes.push(0);
    assert!(Cache::from_bytes(&bytes).is_err());
    // a flipped byte inside a valid encoding
    let mut cache = Cache::new();
    let q = Question::new(name("example.com"), 1, Protocol::Udp, true);
    assert!(cache.record_response(
        &q,
        IpAddress::v4(192, 0, 2, 1),
        fresh_response(Err(ErrorKind::Timeout)),
    ));
    let good = cache.to_bytes();
    assert!(Cache::from_bytes(&good).is_ok());
    let mut bad = good.clone();
    bad[0] = 0xde;
    assert!(Cache::from_bytes(&bad).is_err());
}
