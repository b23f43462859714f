//! Cache, resolver and handler tests, including library-level versions of
//! the end-to-end scenarios.

use dns::addrs::{format_ipv4, parse_ipv4, parse_ipv6};
use dns::cache::CachedRecord;
use dns::errors::DnsError;
use dns::handler::{
    build_lookup_query, cached_compose_response, compose_response, dispatch_request,
    take_question, Dispatch,
};
use dns::header::ResultCode;
use dns::packet::Packet;
use dns::records::{Ipv4Addr, Ipv6Addr, Question, QueryType, Record};
use dns::resolver::{consult_cache, handle_response, CacheOutcome, ResolverState, ResponseStep};

fn a_row(id: u32, domain: &str, addr: &str, expiration: i64) -> CachedRecord {
    CachedRecord {
        id,
        address: Some(addr.to_string()),
        host: None,
        priority: None,
        domain: domain.to_string(),
        expiration_date: expiration,
        ttl: 300,
        record_type: 1,
    }
}

fn query(id: u16, domain: &str, rd: bool) -> Packet {
    let mut request = Packet::new();
    request.header.id = id;
    request.header.recursion_desired = rd;
    request
        .questions
        .push(Question::new(domain.to_string(), QueryType::A));
    request
}

#[test]
fn ipv4_text_round_trip() {
    let addr = Ipv4Addr::new(95, 217, 163, 246);
    let text = format_ipv4(addr);
    assert_eq!(text, "95.217.163.246");
    assert_eq!(parse_ipv4(&text), Some(addr));
    assert_eq!(parse_ipv4("0.0.0.0"), Some(Ipv4Addr::new(0, 0, 0, 0)));
    assert_eq!(
        parse_ipv4("255.255.255.255"),
        Some(Ipv4Addr::new(255, 255, 255, 255))
    );
    assert_eq!(parse_ipv4("256.0.0.1"), None);
    assert_eq!(parse_ipv4("01.2.3.4"), None);
    assert_eq!(parse_ipv4("1.2.3"), None);
    assert_eq!(parse_ipv4("1.2.3.4.5"), None);
    assert_eq!(parse_ipv4(""), None);
}

#[test]
fn ipv6_text_parses_full_and_compressed_forms() {
    assert_eq!(
        parse_ipv6("2001:db8:0:0:0:8:800:200c"),
        Some(Ipv6Addr::new(0x2001, 0xdb8, 0, 0, 0, 8, 0x800, 0x200c))
    );
    assert_eq!(
        parse_ipv6("2001:db8::8:800:200c"),
        Some(Ipv6Addr::new(0x2001, 0xdb8, 0, 0, 0, 8, 0x800, 0x200c))
    );
    assert_eq!(parse_ipv6("::1"), Some(Ipv6Addr::new(0, 0, 0, 0, 0, 0, 0, 1)));
    assert_eq!(parse_ipv6("::"), Some(Ipv6Addr::new(0, 0, 0, 0, 0, 0, 0, 0)));
    assert_eq!(parse_ipv6("fe80::"), Some(Ipv6Addr::new(0xfe80, 0, 0, 0, 0, 0, 0, 0)));
    assert_eq!(parse_ipv6("1:2:3:4:5:6:7:8:9"), None);
    assert_eq!(parse_ipv6("1::2::3"), None);
    assert_eq!(parse_ipv6("12345::"), None);
    assert_eq!(parse_ipv6("hello"), None);
}

#[test]
fn ipv6_text_parses_embedded_ipv4_tails() {
    assert_eq!(
        parse_ipv6("::ffff:95.217.163.246"),
        Some(Ipv6Addr::new(0, 0, 0, 0, 0, 0xffff, 0x5fd9, 0xa3f6))
    );
    assert_eq!(
        parse_ipv6("64:ff9b::192.0.2.33"),
        Some(Ipv6Addr::new(0x64, 0xff9b, 0, 0, 0, 0, 0xc000, 0x221))
    );
    assert_eq!(
        parse_ipv6("1:2:3:4:5:6:7.8.9.10"),
        Some(Ipv6Addr::new(1, 2, 3, 4, 5, 6, 0x0708, 0x090a))
    );
    assert_eq!(
        parse_ipv6("::1.2.3.4"),
        Some(Ipv6Addr::new(0, 0, 0, 0, 0, 0, 0x0102, 0x0304))
    );
    // A bare dotted quad, a short tail and a double gap stay rejected.
    assert_eq!(parse_ipv6("1.2.3.4"), None);
    assert_eq!(parse_ipv6("::1.2.3"), None);
    assert_eq!(parse_ipv6("1::2::3.4.5.6"), None);
    assert_eq!(parse_ipv6("1:2:3:4:5:6:7:8.9.10.11"), None);
}

#[test]
fn cache_validity_follows_the_ttl_window() {
    let row = CachedRecord::new_a(
        &"wiki.archlinux.org".to_string(),
        Ipv4Addr::new(95, 217, 163, 246),
        300,
        1_000,
    );
    assert_eq!(row.expiration_date, 1_300);
    assert!(row.is_valid(1_000));
    assert!(row.is_valid(1_299));
    assert!(row.is_valid(1_300));
    assert!(!row.is_valid(1_301));
}

#[test]
fn fresh_a_row_reads_back_as_the_record() {
    let addr = Ipv4Addr::new(10, 1, 2, 3);
    let row = CachedRecord::new_a(&"example.org".to_string(), addr, 60, 0);
    let rec = row.record_from_cache().expect("read back");
    assert_eq!(
        rec,
        Record::A {
            domain: "example.org".to_string(),
            addr,
            ttl: 60
        }
    );
}

#[test]
fn inconsistent_rows_are_integrity_errors() {
    let mut row = a_row(1, "example.org", "10.0.0.1", 100);
    row.address = None;
    assert_eq!(row.record_from_cache(), Err(DnsError::CacheIntegrity));

    let mut row = a_row(2, "example.org", "not-an-address", 100);
    row.record_type = 1;
    assert_eq!(row.record_from_cache(), Err(DnsError::CacheIntegrity));

    // An MX row without a priority is as broken.
    let row = CachedRecord {
        id: 3,
        address: None,
        host: Some("mail.example.org".to_string()),
        priority: None,
        domain: "example.org".to_string(),
        expiration_date: 100,
        ttl: 60,
        record_type: 15,
    };
    assert_eq!(row.record_from_cache(), Err(DnsError::CacheIntegrity));

    // An NS-typed row without its host column is as broken.
    let row = CachedRecord {
        id: 4,
        address: None,
        host: None,
        priority: None,
        domain: "example.org".to_string(),
        expiration_date: 100,
        ttl: 60,
        record_type: 2,
    };
    assert_eq!(row.record_from_cache(), Err(DnsError::CacheIntegrity));

    // A row of a type the cache does not carry is never served.
    let row = CachedRecord {
        id: 5,
        address: None,
        host: None,
        priority: None,
        domain: "example.org".to_string(),
        expiration_date: 100,
        ttl: 60,
        record_type: 41,
    };
    assert_eq!(row.record_from_cache(), Err(DnsError::CacheIntegrity));
}

#[test]
fn ns_rows_reconstruct_per_the_column_set() {
    // NS rows use the host column, like CNAME rows.
    let row = CachedRecord {
        id: 4,
        address: None,
        host: Some("ns1.example.org".to_string()),
        priority: None,
        domain: "example.org".to_string(),
        expiration_date: 100,
        ttl: 60,
        record_type: 2,
    };
    assert_eq!(
        row.record_from_cache(),
        Ok(Record::NS {
            domain: "example.org".to_string(),
            host: "ns1.example.org".to_string(),
            ttl: 60
        })
    );
}

#[test]
fn aaaa_rows_read_back_through_the_text_form() {
    let row = CachedRecord {
        id: 12,
        address: Some("2001:db8::8:800:200c:417a".to_string()),
        host: None,
        priority: None,
        domain: "example.org".to_string(),
        expiration_date: 100,
        ttl: 60,
        record_type: 28,
    };
    let rec = row.record_from_cache().expect("read back");
    assert_eq!(
        rec,
        Record::AAAA {
            domain: "example.org".to_string(),
            addr: Ipv6Addr::new(0x2001, 0xdb8, 0, 0, 8, 0x800, 0x200c, 0x417a),
            ttl: 60
        }
    );
}

#[test]
fn dispatch_follows_the_header_bits() {
    let mut request = query(999, "wiki.archlinux.org", true);
    assert_eq!(dispatch_request(&request), Dispatch::Resolve);

    request.header.recursion_desired = false;
    assert_eq!(dispatch_request(&request), Dispatch::CacheOnly);

    // A request with the response bit set is dropped silently.
    request.header.response = true;
    assert_eq!(dispatch_request(&request), Dispatch::Drop);
}

#[test]
fn sending_a_non_properly_formatted_response_field() {
    // A datagram whose header claims to be a response is ignored: the
    // handler never produces a packet for it.
    let mut request = query(999, "wiki.archlinux.org", true);
    request.header.response = true;
    assert_eq!(dispatch_request(&request), Dispatch::Drop);
}

#[test]
fn recursion_desired_false_fails_if_no_cached_entry() {
    // Without recursion desired and with nothing cached, the handler
    // answers SERVFAIL with the request's id and no answers.
    let id = 999;
    let mut request = query(id, "wiki.archlinux.org", false);
    assert_eq!(dispatch_request(&request), Dispatch::CacheOnly);
    let _question = take_question(&mut request).expect("question");
    let rows: Vec<CachedRecord> = Vec::new();
    let (response, evict, corrupt) = cached_compose_response(id, &rows, 1_000);
    assert!(corrupt.is_empty());
    assert_eq!(id, response.header.id);
    assert!(response.header.response);
    assert_eq!(response.header.rescode, ResultCode::SERVFAIL);
    assert_eq!(response.header.answers, 0);
    assert!(evict.is_empty());
}

#[test]
fn recursion_desired_false_succeeds() {
    // After an answer has been learned, the same question without
    // recursion desired is served from the cache.
    let id = 999;
    let addr = Ipv4Addr::new(95, 217, 163, 246);
    let row = CachedRecord::new_a(&"wiki.archlinux.org".to_string(), addr, 300, 1_000);
    let rows = vec![row];
    let (response, evict, corrupt) = cached_compose_response(id, &rows, 1_100);
    assert!(corrupt.is_empty());
    assert_eq!(id, response.header.id);
    assert!(response.header.response);
    assert_eq!(response.header.rescode, ResultCode::NOERROR);
    assert!(response.header.answers > 0);
    match &response.answers[0] {
        Record::A {
            domain,
            addr: cached,
            ttl: _,
        } => {
            assert_eq!(domain, "wiki.archlinux.org");
            assert_eq!(*cached, addr);
        }
        other => panic!("not an A record: {:?}", other),
    }
    assert!(evict.is_empty());
}

#[test]
fn expired_rows_are_evicted_on_lookup() {
    // A lookup that meets expired rows hands their ids back for deletion
    // before the result is returned.
    let now = 2_000;
    let rows = vec![
        a_row(7, "wiki.archlinux.org", "10.0.0.1", 1_500),
        a_row(9, "wiki.archlinux.org", "10.0.0.2", 1_000),
        a_row(11, "wiki.archlinux.org", "95.217.163.246", 9_000),
    ];
    let (response, evict, corrupt) = cached_compose_response(999, &rows, now);
    assert_eq!(evict, vec![7, 9]);
    assert!(corrupt.is_empty());
    assert_eq!(response.header.rescode, ResultCode::NOERROR);
    match &response.answers[0] {
        Record::A { addr, .. } => assert_eq!(*addr, Ipv4Addr::new(95, 217, 163, 246)),
        other => panic!("not an A record: {:?}", other),
    }

    // With every row expired the result is a miss, and every id comes
    // back for deletion.
    let rows = vec![
        a_row(7, "wiki.archlinux.org", "10.0.0.1", 1_500),
        a_row(9, "wiki.archlinux.org", "10.0.0.2", 1_000),
    ];
    let (response, evict, corrupt) = cached_compose_response(999, &rows, now);
    assert_eq!(evict, vec![7, 9]);
    assert!(corrupt.is_empty());
    assert_eq!(response.header.rescode, ResultCode::SERVFAIL);
    assert_eq!(response.header.answers, 0);
}

#[test]
fn malformed_rows_are_skipped_but_not_evicted() {
    let now = 1_000;
    let mut broken = a_row(3, "wiki.archlinux.org", "10.0.0.1", 9_000);
    broken.address = None;
    let rows = vec![broken, a_row(4, "wiki.archlinux.org", "10.0.0.2", 9_000)];
    let (response, evict, corrupt) = cached_compose_response(999, &rows, now);
    assert!(evict.is_empty());
    // The unreadable row is reported, not deleted.
    assert_eq!(corrupt, vec![3]);
    assert_eq!(response.header.rescode, ResultCode::NOERROR);
    match &response.answers[0] {
        Record::A { addr, .. } => assert_eq!(*addr, Ipv4Addr::new(10, 0, 0, 2)),
        other => panic!("not an A record: {:?}", other),
    }
}

#[test]
fn send_unsctructured_too_short_packet() {
    // A one-byte datagram arrives as a zero-filled buffer: it parses to a
    // query without questions, and the handler answers FORMERR.
    let mut buffer = dns::buffer::BytePacketBuffer::new();
    let mut request = Packet::from_buffer(&mut buffer).expect("parse");
    assert_eq!(dispatch_request(&request), Dispatch::CacheOnly);
    assert!(take_question(&mut request).is_none());
    let mut response = Packet::new();
    response.add_info(request.header.id, false, true, true, ResultCode::FORMERR);
    assert_eq!(response.header.rescode, ResultCode::FORMERR);
}

#[test]
fn send_unsctructured_too_long_packet() {
    // An oversized datagram is truncated to the 512-byte buffer; 600 zero
    // bytes look exactly like the undersized case and get FORMERR too.
    let mut buffer = dns::buffer::BytePacketBuffer::new();
    let mut request = Packet::from_buffer(&mut buffer).expect("parse");
    assert!(take_question(&mut request).is_none());
    let mut response = Packet::new();
    response.add_info(request.header.id, false, true, true, ResultCode::FORMERR);
    assert_eq!(response.header.rescode, ResultCode::FORMERR);
}

fn upstream_answer(id: u16, domain: &str, addr: Ipv4Addr) -> Packet {
    let mut response = Packet::new();
    response.header.id = id;
    response.header.response = true;
    response.header.rescode = ResultCode::NOERROR;
    response.answers.push(Record::A {
        domain: domain.to_string(),
        addr,
        ttl: 300,
    });
    response
}

#[test]
fn sending_a_properly_formatted_query() {
    // The recursion-desired path, with the upstream exchange replaced by
    // a canned answer: the response mirrors the id, sets the response and
    // recursion bits, and carries the answer for the queried name.
    let id = 999;
    let query_domain = "wiki.archlinux.org";
    let addr = Ipv4Addr::new(95, 217, 163, 246);

    let mut request = query(id, query_domain, true);
    assert_eq!(dispatch_request(&request), Dispatch::Resolve);
    let question = take_question(&mut request).expect("question");

    let mut state = ResolverState::new(
        &question.qname,
        question.qtype,
        Ipv4Addr::new(198, 41, 0, 4),
    );
    assert_eq!(consult_cache(&mut state, None, 1_000), CacheOutcome::Query);

    let upstream = upstream_answer(999, query_domain, addr);
    let (step, learned) = handle_response(&mut state, upstream);
    let result = match step {
        ResponseStep::Finished(p) => p,
        ResponseStep::Continue => panic!("expected a final answer"),
    };
    assert!(learned.is_some());

    let response = compose_response(id, &question, Some(result));
    assert_eq!(id, response.header.id);
    assert!(response.header.response);
    assert!(response.header.recursion_available);
    assert_eq!(response.header.rescode, ResultCode::NOERROR);
    assert!(response.answers.len() > 0);
    match response.answers[0].clone() {
        Record::A {
            domain,
            addr: got,
            ttl: _,
        } => {
            assert_eq!(domain, query_domain.to_owned());
            assert_eq!(got, addr);
        }
        _ => {
            panic!();
        }
    }
}

#[test]
fn resolver_follows_glue_and_delegations() {
    let root = Ipv4Addr::new(198, 41, 0, 4);
    let qname = "wiki.archlinux.org".to_string();
    let mut state = ResolverState::new(&qname, QueryType::A, root);

    // A delegation with glue: switch to the delegated server.
    let mut delegation = Packet::new();
    delegation.header.response = true;
    delegation.authorities.push(Record::NS {
        domain: "org".to_string(),
        host: "b0.org.afilias-nst.org".to_string(),
        ttl: 3600,
    });
    let glue_addr = Ipv4Addr::new(199, 19, 54, 1);
    delegation.resources.push(Record::A {
        domain: "b0.org.afilias-nst.org".to_string(),
        addr: glue_addr,
        ttl: 3600,
    });
    let (step, learned) = handle_response(&mut state, delegation);
    assert!(matches!(step, ResponseStep::Continue));
    assert!(learned.is_some());
    assert_eq!(state.current_ns, glue_addr);
    assert_eq!(state.currently_querying, qname);
    assert!(state.search_for_qname);

    // A delegation without glue: resolve the nameserver from the root.
    let mut bare = Packet::new();
    bare.header.response = true;
    bare.authorities.push(Record::NS {
        domain: "archlinux.org".to_string(),
        host: "ns1.archlinux.org".to_string(),
        ttl: 3600,
    });
    let (step, learned) = handle_response(&mut state, bare);
    assert!(matches!(step, ResponseStep::Continue));
    assert!(learned.is_none());
    assert!(!state.search_for_qname);
    assert_eq!(state.currently_querying, "ns1.archlinux.org");
    assert_eq!(state.current_type, QueryType::A);
    assert_eq!(state.current_ns, root);

    // The nameserver's address arrives: resume the original question.
    let ns_addr = Ipv4Addr::new(192, 0, 2, 53);
    let answer = upstream_answer(999, "ns1.archlinux.org", ns_addr);
    let (step, learned) = handle_response(&mut state, answer);
    assert!(matches!(step, ResponseStep::Continue));
    assert!(learned.is_some());
    assert_eq!(state.current_ns, ns_addr);
    assert_eq!(state.currently_querying, qname);
    assert!(state.search_for_qname);

    // An NXDOMAIN ends the search with the verbatim response.
    let mut missing = Packet::new();
    missing.header.response = true;
    missing.header.rescode = ResultCode::NXDOMAIN;
    let (step, learned) = handle_response(&mut state, missing);
    match step {
        ResponseStep::Finished(p) => assert_eq!(p.header.rescode, ResultCode::NXDOMAIN),
        ResponseStep::Continue => panic!("expected the verbatim response"),
    }
    assert!(learned.is_none());
}

#[test]
fn cache_hits_feed_the_resolver() {
    let root = Ipv4Addr::new(198, 41, 0, 4);
    let qname = "wiki.archlinux.org".to_string();
    let mut state = ResolverState::new(&qname, QueryType::A, root);

    // An expired row is evicted and the search goes upstream.
    let stale = a_row(5, "wiki.archlinux.org", "10.0.0.9", 500);
    assert_eq!(
        consult_cache(&mut state, Some(&stale), 1_000),
        CacheOutcome::EvictAndQuery(5)
    );

    // A valid row answers the query outright.
    let fresh = a_row(6, "wiki.archlinux.org", "95.217.163.246", 2_000);
    match consult_cache(&mut state, Some(&fresh), 1_000) {
        CacheOutcome::Answer(p) => {
            assert_eq!(p.header.answers, 1);
            match &p.answers[0] {
                Record::A { addr, .. } => {
                    assert_eq!(*addr, Ipv4Addr::new(95, 217, 163, 246))
                }
                other => panic!("not an A record: {:?}", other),
            }
        }
        other => panic!("expected an answer: {:?}", outcome_name(&other)),
    }

    // While resolving a nameserver, a valid row redirects the search.
    state.search_for_qname = false;
    state.currently_querying = "ns1.archlinux.org".to_string();
    state.current_type = QueryType::A;
    let ns_row = a_row(8, "ns1.archlinux.org", "192.0.2.53", 2_000);
    assert_eq!(
        consult_cache(&mut state, Some(&ns_row), 1_000),
        CacheOutcome::Redirect
    );
    assert_eq!(state.current_ns, Ipv4Addr::new(192, 0, 2, 53));
    assert_eq!(state.currently_querying, qname);
    assert!(state.search_for_qname);
}

#[test]
fn unreadable_rows_are_reported_by_the_resolver() {
    let root = Ipv4Addr::new(198, 41, 0, 4);
    let qname = "wiki.archlinux.org".to_string();
    let mut state = ResolverState::new(&qname, QueryType::A, root);

    // A valid row that violates its column set is a reported miss.
    let mut broken = a_row(13, "wiki.archlinux.org", "10.0.0.1", 9_000);
    broken.address = None;
    assert_eq!(
        consult_cache(&mut state, Some(&broken), 1_000),
        CacheOutcome::QueryBadRow(13)
    );
}

fn outcome_name(o: &CacheOutcome) -> &'static str {
    match o {
        CacheOutcome::Answer(_) => "Answer",
        CacheOutcome::Redirect => "Redirect",
        CacheOutcome::EvictAndQuery(_) => "EvictAndQuery",
        CacheOutcome::QueryBadRow(_) => "QueryBadRow",
        CacheOutcome::Query => "Query",
    }
}

#[test]
fn lookup_query_has_the_fixed_id_and_one_question() {
    let buffer = build_lookup_query("wiki.archlinux.org", QueryType::A).expect("query buffer");
    let mut reread = buffer;
    reread.seek(0).unwrap();
    let parsed = Packet::from_buffer(&mut reread).expect("parse");
    assert_eq!(parsed.header.id, 999);
    assert!(parsed.header.recursion_desired);
    assert_eq!(parsed.header.questions, 1);
    assert_eq!(parsed.questions[0].qname, "wiki.archlinux.org");
    assert_eq!(parsed.questions[0].qtype, QueryType::A);
}

#[test]
fn compose_response_mirrors_the_id_and_reports_failures() {
    let question = Question::new("wiki.archlinux.org".to_string(), QueryType::A);
    let response = compose_response(999, &question, None);
    assert_eq!(response.header.id, 999);
    assert!(response.header.response);
    assert_eq!(response.header.rescode, ResultCode::SERVFAIL);
    assert_eq!(response.answers.len(), 0);
}
