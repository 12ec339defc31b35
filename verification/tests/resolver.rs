use pretty_dns::cache::Cache;
use pretty_dns::client::upstream_request;
use pretty_dns::compression::{CompressionData, CompressionType, DataType};
use pretty_dns::domain::Domain;
use pretty_dns::header::Header;
use pretty_dns::message::Message;
use pretty_dns::qtype::QType;
use pretty_dns::query::Query;
use pretty_dns::resource::Resource;
use pretty_dns::server::{get_domain_list, Resolution};

#[test]
fn test_get_domain_list() {
    let list = get_domain_list("www.google.com.");
    assert_eq!(list, vec!["www.google.com.", "google.com.", "com."]);
}

#[test]
fn server_test_get_domain_list() {
    let list = get_domain_list("www.google.com.");
    assert_eq!(list, vec!["www.google.com.", "google.com.", "com."]);
}

// A missing trailing dot is supplied; an empty name has no suffixes.
#[test]
fn get_domain_list_edges() {
    assert_eq!(
        get_domain_list("www.google.com"),
        vec!["www.google.com.", "google.com.", "com."]
    );
    assert_eq!(get_domain_list(""), Vec::<String>::new());
    assert_eq!(get_domain_list("com"), vec!["com."]);
}

fn plain_header(id: u16, qd: u16, an: u16, ns: u16, ar: u16) -> Header {
    Header {
        id,
        qr: 0,
        opcode: 0,
        aa: 0,
        tc: 0,
        rd: 1,
        ra: 0,
        z: 0,
        ad: 0,
        cd: 0,
        rcode: 0,
        qd_count: qd,
        an_count: an,
        ns_count: ns,
        ar_count: ar,
    }
}

fn raw_name(labels: &[&str]) -> CompressionData {
    CompressionData::new(
        labels
            .iter()
            .map(|l| DataType::Raw(l.as_bytes().to_vec()))
            .collect(),
        CompressionType::Domain,
    )
}

fn a_record(labels: &[&str], addr: [u8; 4]) -> Resource {
    Resource {
        name: raw_name(labels),
        _type: QType::A,
        class: 1,
        ttl: 300,
        rdlength: 4,
        rdata: addr.to_vec(),
    }
}

// The synthetic upstream request: fixed id 41693, recursion desired, one
// question and nothing else.
#[test]
fn upstream_request_bytes() {
    let q = Query {
        qname: Domain::from(b"com.".to_vec()),
        qtype: QType::NS,
        qclass: 1,
    };
    let bytes = upstream_request(q);
    assert_eq!(
        bytes,
        vec![162, 221, 1, 32, 0, 1, 0, 0, 0, 0, 0, 0, 3, 99, 111, 109, 0, 0, 2, 0, 1]
    );
}

// The end-to-end walk: a request for `A www.example.com.` arrives while
// `com.` is freshly cached; the resolver asks the seed server for
// `NS example.com.`, follows the referral's glue address for the next hop,
// finally asks that server for `A www.example.com.`, re-stamps the answer
// with the request's id, caches it under the original key and hands back
// the reply bytes.
#[test]
fn end_to_end_walk() {
    let mut cache = Cache::new();
    cache
        .store_at(
            "com.".to_owned(),
            QType::A,
            &vec![a_record(&["com"], [9, 9, 9, 9])],
            &vec![],
            &vec![],
            999,
        )
        .unwrap();

    let request = Message {
        header: plain_header(777, 1, 0, 0, 0),
        query: Some(Query {
            qname: Domain::from(b"www.example.com.".to_vec()),
            qtype: QType::A,
            qclass: 1,
        }),
        answer: vec![],
        authority: vec![],
        additional: vec![],
    }
    .to_vec();

    let mut st = Resolution::begin(&request, &mut cache, 1000).unwrap();

    // first hop: NS example.com. against the seed server
    assert_eq!(st.upstream_ns(), [202, 12, 27, 33]);
    let q1 = st.next_query().unwrap();
    assert_eq!(q1.qname, Domain::from(b"example.com.".to_vec()));
    assert_eq!(q1.qtype, QType::NS);
    let _wire1 = upstream_request(q1);

    // the referral carries a glue A record; its address becomes the next hop
    let referral = Message {
        header: plain_header(41693, 0, 0, 0, 1),
        query: None,
        answer: vec![],
        authority: vec![],
        additional: vec![a_record(&["ns1", "example", "com"], [1, 2, 3, 4])],
    }
    .to_vec();
    st.take_referral(&referral).unwrap();
    assert_eq!(st.upstream_ns(), [1, 2, 3, 4]);

    // second hop: NS www.example.com., no glue in the reply
    let q2 = st.next_query().unwrap();
    assert_eq!(q2.qname, Domain::from(b"www.example.com.".to_vec()));
    let empty_referral = Message {
        header: plain_header(41693, 0, 0, 0, 0),
        query: None,
        answer: vec![],
        authority: vec![],
        additional: vec![],
    }
    .to_vec();
    st.take_referral(&empty_referral).unwrap();
    assert_eq!(st.upstream_ns(), [1, 2, 3, 4]);
    assert!(st.next_query().is_none());

    // the final exchange: the original question against the last server
    let fq = st.final_query();
    assert_eq!(fq.qname, Domain::from(b"www.example.com.".to_vec()));
    assert_eq!(fq.qtype, QType::A);

    let answer = Message {
        header: plain_header(41693, 1, 1, 0, 0),
        query: Some(Query {
            qname: Domain::from(b"www.example.com.".to_vec()),
            qtype: QType::A,
            qclass: 1,
        }),
        answer: vec![a_record(&["www", "example", "com"], [5, 6, 7, 8])],
        authority: vec![],
        additional: vec![],
    }
    .to_vec();
    let out = st.finish(&answer, &mut cache, 1005).unwrap();

    // the reply carries the client's transaction id and the answer
    let (_, reply) = Message::from_bytes(&out).unwrap();
    assert_eq!(reply.header.id, 777);
    assert_eq!(reply.answer.len(), 1);
    assert_eq!(reply.answer[0].rdata, vec![5, 6, 7, 8]);

    // the answer is cached under the original (name, type) key
    let hit = cache
        .resolve_at(&"www.example.com.".to_owned(), QType::A, 1006)
        .unwrap();
    assert_eq!(hit.answer.len(), 1);
    assert_eq!(hit.answer[0].rdata, vec![5, 6, 7, 8]);
}

// A truncated datagram that declares one question but carries none is
// dropped without an answer, and the resolver stays usable.
#[test]
fn malformed_request_dropped() {
    let mut cache = Cache::new();
    let truncated = Header {
        id: 5,
        qr: 0,
        opcode: 0,
        aa: 0,
        tc: 0,
        rd: 1,
        ra: 0,
        z: 0,
        ad: 0,
        cd: 0,
        rcode: 0,
        qd_count: 1,
        an_count: 0,
        ns_count: 0,
        ar_count: 0,
    }
    .to_vec();
    assert!(Resolution::begin(&truncated, &mut cache, 1000).is_none());

    // a later, well-formed request still begins a resolution
    let request = Message {
        header: plain_header(6, 1, 0, 0, 0),
        query: Some(Query {
            qname: Domain::from(b"example.com.".to_vec()),
            qtype: QType::A,
            qclass: 1,
        }),
        answer: vec![],
        authority: vec![],
        additional: vec![],
    }
    .to_vec();
    assert!(Resolution::begin(&request, &mut cache, 1000).is_some());
}

// A request without a question is dropped too.
#[test]
fn question_free_request_dropped() {
    let mut cache = Cache::new();
    let no_question = Message {
        header: plain_header(5, 0, 0, 0, 0),
        query: None,
        answer: vec![],
        authority: vec![],
        additional: vec![],
    }
    .to_vec();
    assert!(Resolution::begin(&no_question, &mut cache, 1000).is_none());
}

// An upstream reply that does not parse aborts the walk with an error.
#[test]
fn referral_decode_failure() {
    let mut cache = Cache::new();
    let request = Message {
        header: plain_header(8, 1, 0, 0, 0),
        query: Some(Query {
            qname: Domain::from(b"example.com.".to_vec()),
            qtype: QType::A,
            qclass: 1,
        }),
        answer: vec![],
        authority: vec![],
        additional: vec![],
    }
    .to_vec();
    let mut st = Resolution::begin(&request, &mut cache, 1000).unwrap();
    assert!(st.next_query().is_some());
    assert!(st.take_referral(&[0, 1, 2]).is_err());
}
