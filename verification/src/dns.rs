use vstd::prelude::*;
use crate::domain::Domain;
use crate::filters::Filters;
use crate::policy::{classify_spec, PolicyArtifact};

verus! {

/// Record type codes for the two address families.
pub const TYPE_A: u16 = 1;

pub const TYPE_AAAA: u16 = 28;

/// The data carried by an answer record, as plain values: a four-byte
/// address, a sixteen-byte address, or none.
pub enum RData {
    Ipv4(u32),
    Ipv6(u128),
}

/// One entry of a message's query section.
pub struct DnsQuery {
    pub name: Domain,
    pub qtype: u16,
    pub qclass: u16,
}

/// One answer record.
pub struct DnsRecord {
    pub name: Domain,
    pub rtype: u16,
    pub rclass: u16,
    pub ttl: u32,
    pub rdata: Option<RData>,
}

/// The parts of a DNS message the pipeline reads and writes.
pub struct DnsMessage {
    pub id: u16,
    pub is_response: bool,
    pub recursion_available: bool,
    pub authentic_data: bool,
    pub response_code: u16,
    pub queries: Vec<DnsQuery>,
    pub answers: Vec<DnsRecord>,
}

/// The sinkhole data for a query type: the unspecified address of the
/// family, or nothing for other types.
pub open spec fn sinkhole_rdata(qtype: u16) -> Option<RData> {
    if qtype == TYPE_A {
        Some(RData::Ipv4(0))
    } else if qtype == TYPE_AAAA {
        Some(RData::Ipv6(0))
    } else {
        None
    }
}

/// Synthesize the sinkhole response for a blocked request: the
/// request's header with message-type response, recursion available,
/// authentic-data cleared; per query one answer with the same name,
/// type and class, TTL zero, and the unroutable address of its family.
pub fn create_fake_response(request: &DnsMessage) -> (r: DnsMessage)
    ensures
        r.id == request.id,
        r.is_response == true,
        r.recursion_available == true,
        r.authentic_data == false,
        r.response_code == request.response_code,
        r.queries@.len() == request.queries@.len(),
        forall|i: int| 0 <= i < r.queries@.len() ==> (#[trigger] r.queries@[i]).name@
            == request.queries@[i].name@ && r.queries@[i].qtype == request.queries@[i].qtype
            && r.queries@[i].qclass == request.queries@[i].qclass,
        r.answers@.len() == request.queries@.len(),
        forall|i: int| 0 <= i < r.answers@.len() ==> {
            let a = #[trigger] r.answers@[i];
            let q = request.queries@[i];
            a.name@ == q.name@ && a.rtype == q.qtype && a.rclass == q.qclass && a.ttl == 0
                && a.rdata == sinkhole_rdata(q.qtype)
        },
{
    let mut queries: Vec<DnsQuery> = Vec::new();
    let mut answers: Vec<DnsRecord> = Vec::new();
    let mut i: usize = 0;
    while i < request.queries.len()
        invariant
            i <= request.queries@.len(),
            queries@.len() == i,
            answers@.len() == i,
            forall|k: int| 0 <= k < i ==> (#[trigger] queries@[k]).name@
                == request.queries@[k].name@ && queries@[k].qtype == request.queries@[k].qtype
                && queries@[k].qclass == request.queries@[k].qclass,
            forall|k: int| 0 <= k < i ==> {
                let a = #[trigger] answers@[k];
                let q = request.queries@[k];
                a.name@ == q.name@ && a.rtype == q.qtype && a.rclass == q.qclass && a.ttl == 0
                    && a.rdata == sinkhole_rdata(q.qtype)
            },
        decreases request.queries@.len() - i,
    {
        let q = &request.queries[i];
        let rdata: Option<RData> = if q.qtype == TYPE_A {
            Some(RData::Ipv4(0))
        } else if q.qtype == TYPE_AAAA {
            Some(RData::Ipv6(0))
        } else {
            None
        };
        queries.push(DnsQuery { name: q.name.duplicate(), qtype: q.qtype, qclass: q.qclass });
        answers.push(
            DnsRecord {
                name: q.name.duplicate(),
                rtype: q.qtype,
                rclass: q.qclass,
                ttl: 0,
                rdata,
            },
        );
        i += 1;
    }
    DnsMessage {
        id: request.id,
        is_response: true,
        recursion_available: true,
        authentic_data: false,
        response_code: request.response_code,
        queries,
        answers,
    }
}

/// Restore the original transaction id on a reply before it is sent:
/// the forwarder may have rewritten it.
pub fn restore_id(response: &mut DnsMessage, id: u16)
    ensures
        final(response).id == id,
        final(response).is_response == old(response).is_response,
        final(response).recursion_available == old(response).recursion_available,
        final(response).authentic_data == old(response).authentic_data,
        final(response).response_code == old(response).response_code,
        final(response).queries == old(response).queries,
        final(response).answers == old(response).answers,
{
    response.id = id;
}

/// `classify_spec` over the names of a query section.
pub open spec fn query_names(qs: Seq<DnsQuery>) -> Seq<Domain> {
    qs.map_values(|q: DnsQuery| q.name)
}

/// Decide a request against the current policy: the matching group's
/// name and whether the request may go upstream. A request no allow
/// and no block group matches is forwarded without a verdict.
pub fn classify_queries(artifact: &PolicyArtifact, request: &DnsMessage) -> (r: Option<
    (String, bool),
>)
    requires
        artifact.wf(),
        forall|i: int| 0 <= i < request.queries@.len()
            ==> (#[trigger] request.queries@[i]).name.wf(),
    ensures
        match r {
            Some(p) => classify_spec(
                artifact.allow,
                artifact.block,
                query_names(request.queries@),
                None,
            ) == Some((p.0@, p.1)),
            None => classify_spec(
                artifact.allow,
                artifact.block,
                query_names(request.queries@),
                None,
            ) is None,
        },
{
    let ghost names = query_names(request.queries@);
    let mut pending: Option<String> = None;
    let mut i: usize = 0;
    proof {
        assert(names.skip(0) =~= names);
    }
    while i < request.queries.len()
        invariant
            i <= request.queries@.len(),
            artifact.wf(),
            names == query_names(request.queries@),
            forall|k: int| 0 <= k < request.queries@.len()
                ==> (#[trigger] request.queries@[k]).name.wf(),
            classify_spec(artifact.allow, artifact.block, names, None) == classify_spec(
                artifact.allow,
                artifact.block,
                names.skip(i as int),
                match pending {
                    Some(n) => Some(n@),
                    None => None,
                },
            ),
        decreases request.queries@.len() - i,
    {
        proof {
            assert(names.skip(i as int)[0] == names[i as int]);
            assert(names[i as int] == request.queries@[i as int].name);
            assert(names.skip(i as int).skip(1) =~= names.skip(i as int + 1));
        }
        match artifact.allow.check(&request.queries[i].name) {
            Some(name) => {
                return Some((name, true));
            },
            None => {},
        }
        match artifact.block.check(&request.queries[i].name) {
            Some(name) => {
                pending = Some(name);
            },
            None => {},
        }
        i += 1;
    }
    proof {
        assert(names.skip(names.len() as int).len() == 0);
    }
    match pending {
        Some(name) => Some((name, false)),
        None => None,
    }
}

/// Whether a classified request goes upstream: it does unless a block
/// verdict stood.
pub fn should_forward(verdict: &Option<(String, bool)>) -> (r: bool)
    ensures
        r == match verdict {
            Some(p) => p.1,
            None => true,
        },
{
    match verdict {
        Some(p) => p.1,
        None => true,
    }
}

/// The op-code of a plain query, the only kind served.
pub const OPCODE_QUERY: u16 = 0;

/// The response code that refuses any other op-code.
pub const RCODE_NOTIMP: u16 = 4;

/// Whether a request is served at all: only the query op-code is;
/// everything else is answered with not-implemented.
pub fn opcode_response(op_code: u16) -> (r: Option<u16>)
    ensures
        r == if op_code == OPCODE_QUERY {
            None::<u16>
        } else {
            Some(RCODE_NOTIMP)
        },
{
    if op_code == OPCODE_QUERY {
        None
    } else {
        Some(RCODE_NOTIMP)
    }
}

/// What a request's OPT pseudo-record carries, as plain values.
pub struct EdnsInfo {
    pub dnssec_ok: bool,
    pub max_payload: u16,
    pub version: u8,
}

/// The OPT record echoed on a reply: none without one on the request;
/// otherwise DNSSEC-OK mirrored, the payload limit at least 512,
/// version zero, and a bad-version flag for any higher version asked.
pub fn edns_echo(request_opt: &Option<EdnsInfo>) -> (r: Option<(EdnsInfo, bool)>)
    ensures
        request_opt is None ==> r is None,
        request_opt matches Some(e) ==> (r matches Some(p) && p.0.dnssec_ok == e.dnssec_ok
            && p.0.max_payload == (if e.max_payload > 512 {
            e.max_payload
        } else {
            512u16
        }) && p.0.version == 0 && p.1 == (e.version > 0)),
{
    match request_opt {
        None => None,
        Some(e) => Some(
            (
                EdnsInfo {
                    dnssec_ok: e.dnssec_ok,
                    max_payload: if e.max_payload > 512 {
                        e.max_payload
                    } else {
                        512
                    },
                    version: 0,
                },
                e.version > 0,
            ),
        ),
    }
}

/// One row of query telemetry, as the sink persists it.
pub struct QueryRecord {
    pub req_time_ms: i64,
    pub requester: String,
    pub q_type: Option<u16>,
    pub q_name: Option<String>,
    pub response_text: String,
    pub filtered: Option<bool>,
    pub reason: Option<String>,
    pub responded: bool,
    pub resp_ms: i64,
}

/// Build the one telemetry row a processed request produces. When no
/// reply went out the row says so, with no response text and no
/// filtered state; otherwise the verdict's side carries into
/// `filtered` and the group name into `reason`.
pub fn build_record(
    request: &DnsMessage,
    verdict: Option<(String, bool)>,
    responded: bool,
    response_text: String,
    req_time_ms: i64,
    resp_ms: i64,
    requester: String,
) -> (r: QueryRecord)
    requires
        forall|i: int| 0 <= i < request.queries@.len()
            ==> (#[trigger] request.queries@[i]).name.wf(),
    ensures
        r.responded == responded,
        r.req_time_ms == req_time_ms,
        r.resp_ms == resp_ms,
        r.requester == requester,
        !responded ==> r.response_text@.len() == 0 && r.filtered is None,
        responded ==> r.response_text == response_text && r.filtered == (match verdict {
            Some(p) => Some(p.1),
            None => None::<bool>,
        }),
        r.reason == (match verdict {
            Some(p) => Some(p.0),
            None => None::<String>,
        }),
        request.queries@.len() == 0 ==> r.q_type is None && r.q_name is None,
        request.queries@.len() > 0 ==> r.q_type == Some(request.queries@[0].qtype) && (r.q_name
            matches Some(n) && n@ == crate::filters::display_chars(request.queries@[0].name)),
{
    let (q_type, q_name): (Option<u16>, Option<String>) = if request.queries.len() > 0 {
        (Some(request.queries[0].qtype), Some(request.queries[0].name.name()))
    } else {
        (None, None)
    };
    let (filtered, reason): (Option<bool>, Option<String>) = match verdict {
        Some(p) => (Some(p.1), Some(p.0)),
        None => (None, None),
    };
    QueryRecord {
        req_time_ms,
        requester,
        q_type,
        q_name,
        response_text: if responded {
            response_text
        } else {
            String::new()
        },
        filtered: if responded {
            filtered
        } else {
            None
        },
        reason,
        responded,
        resp_ms,
    }
}

} // verus!
