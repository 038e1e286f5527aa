use dns_server_example::{
    build_response, next_step, query_packet, Action, BytePacketBuffer, DnsError, Packet,
    QueryType, Question, Record, Resolution, ResponseCode, Step, MAX_DEPTH, QUERY_ID, ROOT_SERVER,
};

fn a(domain: &str, address: [u8; 4]) -> Record {
    Record::A { domain: domain.to_string(), address, ttl: 300 }
}

fn ns(domain: &str, host: &str) -> Record {
    Record::NS { domain: domain.to_string(), host: host.to_string(), ttl: 300 }
}

fn reply(rcode: ResponseCode, answers: Vec<Record>, authorities: Vec<Record>, additions: Vec<Record>) -> Packet {
    let mut p = Packet::new();
    p.header.response = true;
    p.header.rcode = rcode;
    p.answers = answers;
    p.authorities = authorities;
    p.additions = additions;
    p
}

fn expect_query(action: &Action) -> (String, QueryType, [u8; 4]) {
    match action {
        Action::Query { qname, qtype, server } => (qname.clone(), *qtype, *server),
        other => panic!("expected a query, got {:?}", other),
    }
}

#[test]
fn resolution_starts_at_the_root() {
    let (_, first) = Resolution::new("example.com".to_string(), QueryType::A);
    assert_eq!(expect_query(&first), ("example.com".to_string(), QueryType::A, ROOT_SERVER));
    assert_eq!(ROOT_SERVER, [198, 41, 0, 4]);
}

#[test]
fn answer_without_error_ends_at_once() {
    let (mut res, _) = Resolution::new("www.example.com".to_string(), QueryType::A);
    let r = reply(ResponseCode::NOERROR, vec![a("www.example.com", [93, 184, 216, 34])], vec![], vec![]);
    match res.on_reply(r) {
        Action::Done(p) => {
            assert_eq!(p.answers, vec![a("www.example.com", [93, 184, 216, 34])]);
            assert_eq!(p.header.rcode, ResponseCode::NOERROR);
        }
        other => panic!("expected done, got {:?}", other),
    }
    assert!(res.is_done());
}

#[test]
fn name_error_ends_at_once_whatever_the_authority_says() {
    let (mut res, _) = Resolution::new("nope.example.com".to_string(), QueryType::A);
    let r = reply(
        ResponseCode::NXDOMAIN,
        vec![],
        vec![ns("example.com", "ns1.example.com")],
        vec![a("ns1.example.com", [1, 2, 3, 4])],
    );
    match res.on_reply(r) {
        Action::Done(p) => assert_eq!(p.header.rcode, ResponseCode::NXDOMAIN),
        other => panic!("expected done, got {:?}", other),
    }
    assert!(res.is_done());
}

#[test]
fn delegation_with_glue_moves_to_the_glue_address() {
    let (mut res, _) = Resolution::new("www.example.com".to_string(), QueryType::A);
    let r = reply(
        ResponseCode::NOERROR,
        vec![],
        vec![ns("example.com", "ns1.example.com")],
        vec![a("ns1.example.com", [192, 0, 2, 53])],
    );
    let next = res.on_reply(r);
    assert_eq!(expect_query(&next), ("www.example.com".to_string(), QueryType::A, [192, 0, 2, 53]));
}

#[test]
fn delegation_without_glue_resolves_the_name_server_first() {
    let (mut res, _) = Resolution::new("www.example.com".to_string(), QueryType::A);
    let r = reply(ResponseCode::NOERROR, vec![], vec![ns("example.com", "ns1.example.com")], vec![]);
    let nested = res.on_reply(r);
    assert_eq!(expect_query(&nested), ("ns1.example.com".to_string(), QueryType::A, ROOT_SERVER));
    let found = reply(ResponseCode::NOERROR, vec![a("ns1.example.com", [203, 0, 113, 7])], vec![], vec![]);
    let next = res.on_reply(found);
    assert_eq!(expect_query(&next), ("www.example.com".to_string(), QueryType::A, [203, 0, 113, 7]));
}

#[test]
fn name_server_without_address_ends_with_the_referral() {
    let (mut res, _) = Resolution::new("www.example.com".to_string(), QueryType::A);
    let referral = reply(ResponseCode::NOERROR, vec![], vec![ns("example.com", "ns1.example.com")], vec![]);
    res.on_reply(referral);
    let nothing = reply(ResponseCode::NXDOMAIN, vec![], vec![], vec![]);
    match res.on_reply(nothing) {
        Action::Done(p) => {
            assert_eq!(p.header.rcode, ResponseCode::NOERROR);
            assert_eq!(p.authorities, vec![ns("example.com", "ns1.example.com")]);
        }
        other => panic!("expected done, got {:?}", other),
    }
}

#[test]
fn reply_with_nothing_usable_is_returned_as_it_is() {
    let (mut res, _) = Resolution::new("www.example.com".to_string(), QueryType::A);
    let r = reply(ResponseCode::SERVFAIL, vec![], vec![ns("other.org", "ns.other.org")], vec![]);
    match res.on_reply(r) {
        Action::Done(p) => assert_eq!(p.header.rcode, ResponseCode::SERVFAIL),
        other => panic!("expected done, got {:?}", other),
    }
}

#[test]
fn nested_lookups_past_the_limit_fail() {
    let (mut res, _) = Resolution::new("www.example.com".to_string(), QueryType::A);
    let mut depth = 1;
    loop {
        let r = reply(ResponseCode::NOERROR, vec![], vec![ns("", &format!("ns{}.example", depth))], vec![]);
        match res.on_reply(r) {
            Action::Query { qtype, server, .. } => {
                assert_eq!(qtype, QueryType::A);
                assert_eq!(server, ROOT_SERVER);
                depth += 1;
            }
            Action::Fail(e) => {
                assert_eq!(e, DnsError::TooDeep);
                break;
            }
            other => panic!("unexpected {:?}", other),
        }
    }
    assert_eq!(depth, MAX_DEPTH);
    assert!(res.is_done());
}

#[test]
fn next_step_decisions() {
    let r = reply(ResponseCode::NOERROR, vec![], vec![ns("example.com", "ns1.example.com")], vec![]);
    match next_step(&r, "www.example.com") {
        Step::ResolveHost(h) => assert_eq!(h, "ns1.example.com"),
        other => panic!("unexpected {:?}", other),
    }
    match next_step(&r, "www.example.org") {
        Step::Answer => {}
        other => panic!("unexpected {:?}", other),
    }
}

#[test]
fn delegation_helpers() {
    let r = reply(
        ResponseCode::NOERROR,
        vec![Record::CNAME { domain: "x".to_string(), host: "y".to_string(), ttl: 1 }, a("x", [9, 9, 9, 9])],
        vec![ns("com", "a.gtld"), ns("example.com", "ns1.example.com"), ns("example.org", "ns.org")],
        vec![a("ns1.example.com", [1, 1, 1, 1]), a("other", [2, 2, 2, 2])],
    );
    assert_eq!(r.get_random_a(), Some([9, 9, 9, 9]));
    assert_eq!(
        r.get_ns("www.example.com"),
        vec![("com".to_string(), "a.gtld".to_string()), ("example.com".to_string(), "ns1.example.com".to_string())]
    );
    assert_eq!(r.get_resolved_ns("www.example.com"), Some([1, 1, 1, 1]));
    assert_eq!(r.get_unresolved_ns("www.example.com"), Some("a.gtld".to_string()));
    assert_eq!(r.get_resolved_ns("www.example.net"), None);
    assert_eq!(r.get_unresolved_ns("www.example.net"), None);
    assert_eq!(Packet::new().get_random_a(), None);
}

#[test]
fn query_packet_asks_one_question_with_recursion() {
    let q = query_packet("example.com", QueryType::MX);
    assert_eq!(q.header.id, QUERY_ID);
    assert!(q.header.rd);
    assert_eq!(q.header.qdcount, 1);
    assert_eq!(q.questions, vec![Question::new("example.com".to_string(), QueryType::MX)]);
    assert!(q.answers.is_empty());
}

#[test]
fn response_to_a_request_without_question_is_a_format_error() {
    let p = build_response(5, None, None);
    assert_eq!(p.header.id, 5);
    assert_eq!(p.header.rcode, ResponseCode::FORMERR);
    assert!(p.header.response && p.header.rd && p.header.ra);
    assert!(p.questions.is_empty());
}

#[test]
fn response_when_resolution_failed_is_a_server_failure() {
    let q = Question::new("example.com".to_string(), QueryType::A);
    let p = build_response(6, Some(q), None);
    assert_eq!(p.header.rcode, ResponseCode::SERVFAIL);
    assert!(p.questions.is_empty());
}

#[test]
fn response_carries_the_result() {
    let q = Question::new("example.com".to_string(), QueryType::A);
    let result = reply(ResponseCode::NOERROR, vec![a("example.com", [1, 2, 3, 4])], vec![ns("example.com", "ns")], vec![]);
    let p = build_response(7, Some(q.clone()), Some(result));
    assert_eq!(p.header.rcode, ResponseCode::NOERROR);
    assert_eq!(p.questions, vec![q]);
    assert_eq!(p.answers, vec![a("example.com", [1, 2, 3, 4])]);
    assert_eq!(p.authorities, vec![ns("example.com", "ns")]);
}

/// A fake network: each server answers queries from a fixed table, through
/// the wire format both ways.
fn fake_server(server: [u8; 4], query: &[u8]) -> Vec<u8> {
    let mut qb = BytePacketBuffer::new();
    qb.buffer[..query.len()].copy_from_slice(query);
    let q = Packet::from_buffer(&mut qb).unwrap();
    assert_eq!(q.header.id, QUERY_ID);
    assert!(q.header.rd);
    let question = &q.questions[0];
    let mut r = match (server, question.qname.as_str()) {
        ([198, 41, 0, 4], _) => reply(
            ResponseCode::NOERROR,
            vec![],
            vec![ns("com", "a.gtld-servers.net")],
            vec![a("a.gtld-servers.net", [192, 5, 6, 30])],
        ),
        ([192, 5, 6, 30], _) => reply(ResponseCode::NOERROR, vec![], vec![ns("google.com", "ns1.google.com")], vec![]),
        ([216, 239, 32, 10], "google.com") => reply(ResponseCode::NOERROR, vec![a("google.com", [142, 250, 80, 46])], vec![], vec![]),
        other => panic!("unexpected query {:?}", other),
    };
    // The glueless referral from the com servers: resolving ns1.google.com
    // goes through the root again and is answered by the com servers.
    if server == [192, 5, 6, 30] && question.qname == "ns1.google.com" {
        r = reply(ResponseCode::NOERROR, vec![a("ns1.google.com", [216, 239, 32, 10])], vec![], vec![]);
    }
    r.header.id = q.header.id;
    let mut out = BytePacketBuffer::new();
    r.write(&mut out).unwrap();
    out.buffer[..out.position].to_vec()
}

#[test]
fn resolves_google_from_the_root() {
    let (mut res, mut action) = Resolution::new("google.com".to_string(), QueryType::A);
    let mut hops = 0;
    let result = loop {
        match action {
            Action::Query { qname, qtype, server } => {
                hops += 1;
                assert!(hops < 20);
                let mut query = query_packet(&qname, qtype);
                let mut wire = BytePacketBuffer::new();
                query.write(&mut wire).unwrap();
                let answer = fake_server(server, &wire.buffer[..wire.position]);
                let mut rb = BytePacketBuffer::new();
                rb.buffer[..answer.len()].copy_from_slice(&answer);
                let reply = Packet::from_buffer(&mut rb).unwrap();
                action = res.on_reply(reply);
            }
            Action::Done(p) => break p,
            Action::Fail(e) => panic!("resolution failed: {:?}", e),
        }
    };
    assert_eq!(result.header.rcode, ResponseCode::NOERROR);
    assert!(result.answers.contains(&a("google.com", [142, 250, 80, 46])));
    assert_eq!(hops, 5);
}
