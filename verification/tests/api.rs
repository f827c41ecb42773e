use netbase::error::ErrorKind;
use netbase::name::DnsName;
use netbase::question::name_eq;
use netbase::question::Protocol;
use netbase::question::Question;

fn name(s: &str) -> DnsName {
    DnsName::from_ascii(&s.as_bytes().to_vec()).unwrap()
}

#[test]
fn question_rust_lib_works() {
    let question = Question::new(name("example.com"), 1, Protocol::Udp, false);
    assert!(name_eq(&question.qname, &name("example.com")));
    assert_eq!(question.qtype, 1);
    assert_eq!(question.proto, Protocol::Udp);
}

#[test]
fn lib_rust_lib_works() {
    let question = Question::new(name("example.com"), 1, Protocol::Udp, false);
    assert!(name_eq(&question.qname, &name("example.com")));
    assert_eq!(question.qtype, 1);
    assert_eq!(question.proto, Protocol::Udp);
}

#[test]
fn name_c_lib_works() {
    let qname = DnsName::from_ascii(&b"example.com".to_vec());
    let qname = qname.unwrap();
    assert_eq!(qname.to_display_bytes(), b"example.com".to_vec());
}

#[test]
fn question_c_lib_works() {
    let qname = name("example.com");
    assert_eq!(qname.to_display_bytes(), b"example.com".to_vec());
    let rrtype_a = 1;
    let proto = Protocol::from_code(1).unwrap();
    let question = Question::new(qname, rrtype_a, proto, true);
    assert_eq!(
        question.to_display_string(),
        "example.com A +recurse +noedns +udp"
    );
}

#[test]
fn lib_c_lib_works() {
    let qname = name("example.com");
    let rrtype_a = 1;
    let question = Question::new(qname, rrtype_a, Protocol::from_code(1).unwrap(), true);
    assert_eq!(
        question.to_display_string(),
        "example.com A +recurse +noedns +udp"
    );
}

#[test]
fn error_kind_codes_are_the_stable_mapping() {
    assert_eq!(ErrorKind::Internal.code(), 1);
    assert_eq!(ErrorKind::Io.code(), 2);
    assert_eq!(ErrorKind::Protocol.code(), 3);
    assert_eq!(ErrorKind::Timeout.code(), 4);
    assert_eq!(ErrorKind::Lock.code(), 5);
    for code in 1..6u16 {
        assert_eq!(ErrorKind::from_code(code).unwrap().code(), code);
    }
    assert!(ErrorKind::from_code(0).is_none());
    assert!(ErrorKind::from_code(6).is_none());
}

#[test]
fn protocol_codes_are_the_stable_mapping() {
    assert_eq!(Protocol::Udp.code(), 1);
    assert_eq!(Protocol::Tcp.code(), 2);
    assert_eq!(Protocol::from_code(1), Some(Protocol::Udp));
    assert_eq!(Protocol::from_code(2), Some(Protocol::Tcp));
    assert_eq!(Protocol::from_code(0), None);
    assert_eq!(Protocol::from_code(3), None);
}

#[test]
fn name_parsing_accepts_and_rejects() {
    // relative and absolute forms are distinguished
    let rel = name("example.com");
    assert!(!rel.is_fqdn());
    assert_eq!(rel.label_count(), 2);
    let abs = DnsName::from_ascii(&b"example.com.".to_vec()).unwrap();
    assert!(abs.is_fqdn());
    assert_eq!(abs.label_count(), 2);
    assert_eq!(abs.to_display_bytes(), b"example.com.".to_vec());
    assert!(!name_eq(&rel, &abs));

    // the lone dot is the root
    let root = DnsName::from_ascii(&b".".to_vec()).unwrap();
    assert!(root.is_fqdn());
    assert_eq!(root.label_count(), 0);
    assert_eq!(root.to_display_bytes(), b".".to_vec());

    // the empty string is the empty relative name
    let empty = DnsName::from_ascii(&b"".to_vec()).unwrap();
    assert!(!empty.is_fqdn());
    assert_eq!(empty.label_count(), 0);
    assert_eq!(empty.to_display_bytes(), b"".to_vec());

    // accepted label shapes: underscores anywhere, dashes after the first byte
    assert!(DnsName::from_ascii(&b"_srv._tcp.example.com".to_vec()).is_some());
    assert!(DnsName::from_ascii(&b"foo-bar.example".to_vec()).is_some());
    assert!(DnsName::from_ascii(&b"a-.example".to_vec()).is_some());

    // rejected forms
    assert!(DnsName::from_ascii(&b"a..b".to_vec()).is_none());
    assert!(DnsName::from_ascii(&b".leading".to_vec()).is_none());
    assert!(DnsName::from_ascii(&b"bad name".to_vec()).is_none());
    assert!(DnsName::from_ascii(&b"exclaim!".to_vec()).is_none());
    assert!(DnsName::from_ascii(&b"a/b".to_vec()).is_none());
    assert!(DnsName::from_ascii(&b"-leading.example".to_vec()).is_none());
    assert!(DnsName::from_ascii(&b"dot.-dash".to_vec()).is_none());
    assert!(DnsName::from_ascii(&b"*.example.com".to_vec()).is_none());
    let long_label = vec![b'a'; 64];
    assert!(DnsName::from_ascii(&long_label).is_none());
    let ok_label = vec![b'a'; 63];
    assert!(DnsName::from_ascii(&ok_label).is_some());
    // over the total wire limit: four 63-byte labels
    let mut too_long = Vec::new();
    for i in 0..4 {
        if i > 0 {
            too_long.push(b'.');
        }
        too_long.extend_from_slice(&[b'a'; 63]);
    }
    assert!(DnsName::from_ascii(&too_long).is_none());
}

#[test]
fn edns_question_renders_every_field() {
    // the rendering of an EDNS question carries version, flags and the
    // custom option code
    let mut q = Question::new(name("example.com"), 1, Protocol::Udp, true);
    q.set_edns(0, true, 512, 0x000a, vec![0xab, 0xcd]);
    assert_eq!(
        q.to_display_string(),
        "example.com A +recurse +edns 0 +dnssec +ednsopt 10 +udp"
    );

    let mut q2 = Question::new(name("example.com"), 2, Protocol::Tcp, false);
    q2.set_edns(1, false, 4096, 0, Vec::new());
    assert_eq!(
        q2.to_display_string(),
        "example.com NS +norecurse +edns 1 +nodnssec +noednsopt +tcp"
    );
}

#[test]
fn unknown_record_types_render_as_unknown() {
    let q = Question::new(name("example.com"), 999, Protocol::Udp, true);
    assert_eq!(q.to_display_string(), "example.com Unknown +recurse +noedns +udp");
}
