use pi_server::dns::{
    build_record, classify_queries, create_fake_response, edns_echo, opcode_response,
    restore_id, should_forward, DnsMessage, DnsQuery, EdnsInfo, RData, RCODE_NOTIMP, TYPE_A,
    TYPE_AAAA,
};
use pi_server::domain::Domain;
use pi_server::filters::{extract_filter, rule_display, Filters, Rule};
use pi_server::policy::{PolicyArtifact, PolicyStore};

fn rule(expr: &str, is_regex: bool, is_allow: bool) -> Rule {
    Rule {
        expr: expr.to_string(),
        is_regex,
        is_allow,
        enabled: true,
        created_at: 0,
    }
}

fn artifact(allow_rules: Vec<Rule>, block_rules: Vec<Rule>) -> PolicyArtifact {
    PolicyArtifact {
        allow: Filters::build(&allow_rules),
        block: Filters::build(&block_rules),
    }
}

fn request_of(name: &str, qtype: u16) -> DnsMessage {
    DnsMessage {
        id: 4242,
        is_response: false,
        recursion_available: false,
        authentic_data: false,
        response_code: 0,
        queries: vec![DnsQuery {
            name: Domain::parse(name).unwrap(),
            qtype,
            qclass: 1,
        }],
        answers: vec![],
    }
}

#[test]
fn block_exact_match() {
    let art = artifact(vec![], vec![rule("ads.example.com", false, false)]);
    let req = request_of("ads.example.com", TYPE_A);
    let verdict = classify_queries(&art, &req);
    let (reason, allowed) = verdict.clone().unwrap();
    assert!(!allowed);
    assert!(reason.contains("Domain Match"));
    assert!(!should_forward(&verdict));

    let resp = create_fake_response(&req);
    assert_eq!(resp.id, req.id);
    assert!(resp.is_response && resp.recursion_available && !resp.authentic_data);
    assert_eq!(resp.answers.len(), 1);
    assert_eq!(resp.answers[0].ttl, 0);
    assert!(matches!(resp.answers[0].rdata, Some(RData::Ipv4(0))));

    let rec = build_record(&req, verdict, true, "0.0.0.0".to_string(), 1, 5, "lan".to_string());
    assert_eq!(rec.filtered, Some(false));
    assert!(rec.responded);
    assert!(rec.reason.unwrap().contains("Domain Match"));
}

#[test]
fn block_subdomain_via_trie() {
    let art = artifact(vec![], vec![rule("doubleclick.net", false, false)]);
    let req = request_of("pagead.g.doubleclick.net", TYPE_A);
    let verdict = classify_queries(&art, &req);
    assert_eq!(verdict.as_ref().map(|p| p.1), Some(false));
    assert!(!should_forward(&verdict));
}

#[test]
fn allow_overrides_block() {
    let art = artifact(
        vec![rule("doubleclick.net", false, true)],
        vec![rule("googleads.g.doubleclick.net", false, false)],
    );
    let req = request_of("pagead.g.doubleclick.net", TYPE_A);
    let verdict = classify_queries(&art, &req);
    let (_, allowed) = verdict.clone().unwrap();
    assert!(allowed);
    assert!(should_forward(&verdict));
}

#[test]
fn regex_block() {
    let art = artifact(vec![], vec![rule(r".*\.telemetry\..*", true, false)]);
    let req = request_of("app.telemetry.vendor.com", TYPE_A);
    let verdict = classify_queries(&art, &req);
    let (reason, allowed) = verdict.unwrap();
    assert!(!allowed);
    assert!(reason.contains("Regex Match"));
}

#[test]
fn upstream_failure_row() {
    let art = artifact(vec![], vec![]);
    let req = request_of("example.org", TYPE_A);
    let verdict = classify_queries(&art, &req);
    assert!(verdict.is_none());
    assert!(should_forward(&verdict));
    // the forward produced nothing: no reply goes out, one row still lands
    let rec = build_record(&req, verdict, false, String::new(), 7, 1500, "lan".to_string());
    assert!(!rec.responded);
    assert_eq!(rec.filtered, None);
    assert_eq!(rec.response_text, "");
    assert_eq!(rec.resp_ms, 1500);
    assert_eq!(rec.q_name.as_deref(), Some("example.org"));
}

#[test]
fn sinkhole_shapes() {
    for (qtype, want_v4, want_v6) in [(TYPE_A, true, false), (TYPE_AAAA, false, true), (16, false, false)] {
        let req = request_of("blocked.example", qtype);
        let resp = create_fake_response(&req);
        assert_eq!(resp.answers.len(), 1);
        let a = &resp.answers[0];
        assert_eq!(a.ttl, 0);
        assert_eq!(a.rtype, qtype);
        match &a.rdata {
            Some(RData::Ipv4(v)) => assert!(want_v4 && *v == 0),
            Some(RData::Ipv6(v)) => assert!(want_v6 && *v == 0),
            None => assert!(!want_v4 && !want_v6),
        }
        assert_eq!(resp.response_code, 0);
    }
}

#[test]
fn opcode_and_edns() {
    assert_eq!(opcode_response(0), None);
    assert_eq!(opcode_response(5), Some(RCODE_NOTIMP));

    assert!(edns_echo(&None).is_none());
    let (opt, badvers) = edns_echo(&Some(EdnsInfo {
        dnssec_ok: true,
        max_payload: 4096,
        version: 0,
    }))
    .unwrap();
    assert!(opt.dnssec_ok && !badvers);
    assert_eq!(opt.max_payload, 4096);
    assert_eq!(opt.version, 0);
    let (opt, badvers) = edns_echo(&Some(EdnsInfo {
        dnssec_ok: false,
        max_payload: 100,
        version: 1,
    }))
    .unwrap();
    assert!(badvers);
    assert_eq!(opt.max_payload, 512);
}

#[test]
fn id_restored_on_reply() {
    let req = request_of("example.org", TYPE_A);
    let mut upstream_reply = request_of("example.org", TYPE_A);
    upstream_reply.id = 9; // the forwarder rewrote it
    restore_id(&mut upstream_reply, req.id);
    assert_eq!(upstream_reply.id, req.id);
}

#[test]
fn policy_swap_is_whole() {
    let old_art = artifact(vec![], vec![rule("ads.example.com", false, false)]);
    let new_art = artifact(vec![], vec![]);
    let mut store = PolicyStore::new(old_art);
    let d = Domain::parse("ads.example.com").unwrap();
    assert!(store.snapshot().block.check(&d).is_some());
    store.swap(new_art);
    assert!(store.snapshot().block.check(&d).is_none());
}

#[test]
fn config_test1() {
    let parsed = extract_filter("#*facebook.com", true, 0);
    println!("{:?}", &parsed);
    let r = parsed.unwrap();
    assert!(!r.enabled);
    assert!(r.is_regex);
    assert!(r.is_allow);
    assert_eq!(r.expr, "facebook.com");
    assert_eq!(rule_display(&r), "# * facebook.com");
}

#[test]
fn extract_filter_kinds() {
    let dom = extract_filter("Ads.Example.COM", false, 1).unwrap();
    assert!(dom.enabled && !dom.is_regex);
    assert_eq!(dom.expr, "ads.example.com");
    assert!(extract_filter("not a domain", false, 1).is_none());
    assert!(extract_filter(r"*[unclosed", false, 1).is_none());
    let rx = extract_filter(r"* .*\.ads\..*", false, 1).unwrap();
    assert!(rx.is_regex);
}
