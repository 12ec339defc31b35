use pretty_dns::compression::{decode_name, CompressionData, CompressionType, DataType};
use pretty_dns::domain::Domain;
use pretty_dns::header::Header;
use pretty_dns::message::Message;
use pretty_dns::qtype::QType;
use pretty_dns::query::Query;
use pretty_dns::resource::Resource;

#[test]
fn test_read_normal() {
    let data = vec![
        1, 97, 3, 117, 49, 48, 7, 116, 119, 116, 114, 100, 110, 115, 3, 110, 101, 116, 0,
    ];
    let (consumed, result) = CompressionData::from_domain(&data).unwrap();
    assert_eq!(consumed, data.len());
    assert_eq!(
        result,
        CompressionData::new(
            vec![
                DataType::Raw(vec![97]),
                DataType::Raw(vec![117, 49, 48]),
                DataType::Raw(vec![116, 119, 116, 114, 100, 110, 115]),
                DataType::Raw(vec![110, 101, 116]),
            ],
            CompressionType::Domain
        )
    );
}

#[test]
fn test_read_compression() {
    let data = vec![192, 12, 0, 1, 0, 1, 0, 0, 1, 43, 0, 4, 172, 217, 25, 238];
    let (consumed, result) = CompressionData::from_domain(&data).unwrap();
    // everything after the two pointer bytes is left unread
    assert_eq!(data.len() - consumed, 14);
    assert_eq!(
        result,
        CompressionData::new(
            vec![DataType::Compression { position: 12 }],
            CompressionType::Domain
        )
    );
}

#[test]
fn test_read_compression_mix() {
    let data = vec![1, 98, 192, 12];
    let (consumed, result) = CompressionData::from_domain(&data).unwrap();
    assert_eq!(consumed, data.len());
    assert_eq!(
        result,
        CompressionData::new(
            vec![
                DataType::Raw(vec![98]),
                DataType::Compression { position: 12 }
            ],
            CompressionType::Domain
        )
    );
}

#[test]
fn test_into() {
    let data: CompressionData = CompressionData::new(
        vec![
            DataType::Raw(vec![98]),
            DataType::Compression { position: 12 },
        ],
        CompressionType::Domain,
    );
    let result: Vec<u8> = data.into();
    assert_eq!(result, vec![1, 98, 192, 12]);
}

#[test]
fn test_into_only_raw() {
    let data: CompressionData = CompressionData::new(
        vec![
            DataType::Raw(vec![103, 111, 111, 103, 108, 101]),
            DataType::Raw(vec![99, 111, 109]),
        ],
        CompressionType::Domain,
    );
    let result: Vec<u8> = data.into();
    assert_eq!(
        result,
        vec![6, 103, 111, 111, 103, 108, 101, 3, 99, 111, 109, 0]
    );
}

#[test]
fn test_read() {
    let (_, domain) =
        Domain::read(&vec![6, 103, 111, 111, 103, 108, 101, 3, 99, 111, 109, 0]).unwrap();
    assert_eq!(
        domain,
        Domain::from(vec![103, 111, 111, 103, 108, 101, 46, 99, 111, 109, 46]),
    );
}

#[test]
fn test_compression_read() {
    let (_, domain) = Domain::read(&vec![192, 12]).unwrap();
    assert_eq!(domain, Domain::from(vec![192, 12]));
}

#[test]
fn test_split() {
    let domain = Domain::from(b"google.com.".to_vec());
    let result = domain.split('.');
    assert_eq!(
        result,
        [
            vec![103, 111, 111, 103, 108, 101],
            vec![99, 111, 109],
            vec![]
        ]
    );
}

#[test]
fn test_to_vec() {
    let domain = Domain::from(b"google.com.".to_vec());
    let result = domain.to_vec();
    assert_eq!(result, [6, 103, 111, 111, 103, 108, 101, 3, 99, 111, 109, 0]);
}

#[test]
fn test_compression_to_vec() {
    let domain = Domain::from(vec![192, 12]);
    let result = domain.to_vec();
    assert_eq!(result, [192, 12]);
}

#[test]
fn test_to_string() {
    let domain = Domain::from(b"google.com.".to_vec());
    assert_eq!(domain.to_string(), "google.com.".to_owned());
}

// The labels of `google.com` in raw wire form decode to the dot-joined text.
#[test]
fn test_decode_name_plain() {
    let data = vec![6, 103, 111, 111, 103, 108, 101, 3, 99, 111, 109, 0];
    let (consumed, name) = decode_name(&data, 0).unwrap();
    assert_eq!(consumed, 12);
    assert_eq!(name, Domain::from(b"google.com.".to_vec()));
}

// A pointer to offset 12 resolves against the bytes found there.
#[test]
fn test_decode_name_pointer() {
    let mut data = vec![192, 12];
    data.extend(vec![0; 10]);
    data.extend(vec![6, 103, 111, 111, 103, 108, 101, 3, 99, 111, 109, 0]);
    let (consumed, name) = decode_name(&data, 0).unwrap();
    assert_eq!(consumed, 2);
    assert_eq!(name, Domain::from(b"google.com.".to_vec()));
}

// A pointer that points at itself must fail rather than loop.
#[test]
fn test_decode_name_pointer_loop() {
    let data = vec![192, 0];
    assert!(decode_name(&data, 0).is_err());
}

#[test]
fn parse_header() {
    let data: Vec<u8> = vec![
        196, 171, 1, 32, 0, 1, 0, 0, 0, 0, 0, 0, 6, 103, 111, 111, 103, 108, 101, 3, 99, 111, 109,
        0, 0, 1, 0, 1,
    ];
    let (_, h) = Header::read(&data).unwrap();
    assert_eq!(
        h,
        Header {
            id: 50347,
            qr: 0,
            opcode: 0,
            aa: 0,
            tc: 0,
            rd: 1,
            ra: 0,
            z: 0,
            ad: 1,
            cd: 0,
            rcode: 0,
            qd_count: 1,
            an_count: 0,
            ns_count: 0,
            ar_count: 0,
        }
    );
}

#[test]
fn write_header() {
    let h = Header {
        id: 50347,
        qr: 0,
        opcode: 0,
        aa: 0,
        tc: 0,
        rd: 1,
        ra: 0,
        z: 0,
        ad: 1,
        cd: 0,
        rcode: 0,
        qd_count: 1,
        an_count: 0,
        ns_count: 0,
        ar_count: 0,
    };

    let result = h.to_vec();
    assert_eq!(result, vec![196, 171, 1, 32, 0, 1, 0, 0, 0, 0, 0, 0]);
}

#[test]
fn header_parse_header() {
    let data: Vec<u8> = vec![
        196, 171, 1, 32, 0, 1, 0, 0, 0, 0, 0, 0, 6, 103, 111, 111, 103, 108, 101, 3, 99, 111, 109,
        0, 0, 1, 0, 1,
    ];
    let (_, h) = Header::read(&data).unwrap();
    assert_eq!(h.id, 50347);
    assert_eq!(h.qr, 0);
    assert_eq!(h.opcode, 0);
    assert_eq!(h.aa, 0);
    assert_eq!(h.tc, 0);
    assert_eq!(h.rd, 1);
    assert_eq!(h.ra, 0);
    assert_eq!(h.z, 0);
    assert_eq!(h.ad, 1);
    assert_eq!(h.cd, 0);
    assert_eq!(h.rcode, 0);
    assert_eq!(h.qd_count, 1);
    assert_eq!(h.an_count, 0);
    assert_eq!(h.ns_count, 0);
    assert_eq!(h.ar_count, 0);
}

#[test]
fn header_write_header() {
    let h = Header {
        id: 50347,
        qr: 0,
        opcode: 0,
        aa: 0,
        tc: 0,
        rd: 1,
        ra: 0,
        z: 0,
        ad: 1,
        cd: 0,
        rcode: 0,
        qd_count: 1,
        an_count: 0,
        ns_count: 0,
        ar_count: 0,
    };

    let result = h.to_vec();
    assert_eq!(result, vec![196, 171, 1, 32, 0, 1, 0, 0, 0, 0, 0, 0]);
}

#[test]
fn parse_query() {
    let data: Vec<u8> = vec![
        6, 103, 111, 111, 103, 108, 101, 3, 99, 111, 109, 0, 0, 1, 0, 1,
    ];
    let (_, q) = Query::read(&data).unwrap();
    assert_eq!(
        q,
        Query {
            qname: Domain::from(b"google.com.".to_vec()),
            qclass: 1,
            qtype: QType::A,
        }
    );
}

#[test]
fn write_query() {
    let q = Query {
        qname: Domain::from(b"google.com.".to_vec()),
        qclass: 1,
        qtype: QType::A,
    };

    let result = q.to_vec();
    assert_eq!(
        result,
        vec![6, 103, 111, 111, 103, 108, 101, 3, 99, 111, 109, 0, 0, 1, 0, 1]
    );
}

#[test]
fn query_parse_query() {
    let data: Vec<u8> = vec![
        6, 103, 111, 111, 103, 108, 101, 3, 99, 111, 109, 0, 0, 1, 0, 1,
    ];
    let (_, q) = Query::read(&data).unwrap();
    assert_eq!(q.qname, Domain::from(b"google.com.".to_vec()));
    assert_eq!(q.qclass, 1);
    assert_eq!(q.qtype, QType::A);
}

#[test]
fn query_write_query() {
    let q = Query {
        qname: Domain::from(b"google.com.".to_vec()),
        qclass: 1,
        qtype: QType::A,
    };

    let result = q.to_vec();
    assert_eq!(
        result,
        vec![6, 103, 111, 111, 103, 108, 101, 3, 99, 111, 109, 0, 0, 1, 0, 1]
    );
}

#[test]
fn parse_resource() {
    let data: Vec<u8> = vec![192, 12, 0, 1, 0, 1, 0, 0, 1, 43, 0, 4, 172, 217, 25, 238];
    let (_, q) = Resource::read(&data).unwrap();

    assert_eq!(
        q,
        Resource {
            name: CompressionData::new(
                vec![DataType::Compression { position: 12 }],
                CompressionType::Domain
            ),
            _type: QType::A,
            class: 1,
            ttl: 299,
            rdlength: 4,
            rdata: vec![172, 217, 25, 238],
        }
    );
}

#[test]
fn write_resource() {
    let h = Resource {
        name: CompressionData::new(
            vec![
                DataType::Raw(vec![103, 111, 111, 103, 108, 101]),
                DataType::Raw(vec![99, 111, 109]),
            ],
            CompressionType::Domain,
        ),
        _type: QType::A,
        class: 1,
        ttl: 299,
        rdlength: 4,
        rdata: vec![172, 217, 25, 238],
    };

    let result = h.to_vec();
    assert_eq!(
        result,
        vec![
            6, 103, 111, 111, 103, 108, 101, 3, 99, 111, 109, 0, 0, 1, 0, 1, 0, 0, 1, 43, 0, 4,
            172, 217, 25, 238
        ]
    );
}

#[test]
fn resource_parse_resource() {
    let data: Vec<u8> = vec![192, 12, 0, 1, 0, 1, 0, 0, 1, 43, 0, 4, 172, 217, 25, 238];
    let (_, q) = Resource::read(&data).unwrap();
    assert_eq!(
        q.name,
        CompressionData::new(
            vec![DataType::Compression { position: 12 }],
            CompressionType::Domain
        )
    );
    assert_eq!(q._type, QType::A);
    assert_eq!(q.class, 1);
    assert_eq!(q.ttl, 299);
    assert_eq!(q.rdlength, 4);
    assert_eq!(q.rdata, vec![172, 217, 25, 238]);
}

// The dotted legacy form of the owner name encodes to the same bytes.
#[test]
fn resource_write_resource() {
    let h = Resource {
        name: CompressionData::new(
            vec![
                DataType::Raw(vec![103, 111, 111, 103, 108, 101]),
                DataType::Raw(vec![99, 111, 109]),
            ],
            CompressionType::Domain,
        ),
        _type: QType::A,
        class: 1,
        ttl: 299,
        rdlength: 4,
        rdata: vec![172, 217, 25, 238],
    };

    let result = h.to_vec();
    assert_eq!(
        result,
        vec![
            6, 103, 111, 111, 103, 108, 101, 3, 99, 111, 109, 0, 0, 1, 0, 1, 0, 0, 1, 43, 0, 4,
            172, 217, 25, 238
        ]
    );
}

#[test]
fn parse_message() {
    let data = vec![
        245, 212, 1, 32, 0, 1, 0, 0, 0, 0, 0, 0, 6, 103, 111, 111, 103, 108, 101, 3, 99, 111, 109,
        0, 0, 1, 0, 1,
    ];
    let (_, result) = Message::from_bytes(&data).unwrap();

    assert_eq!(
        result,
        Message {
            header: Header {
                id: 62932,
                qr: 0,
                opcode: 0,
                aa: 0,
                tc: 0,
                rd: 1,
                ra: 0,
                z: 0,
                ad: 1,
                cd: 0,
                rcode: 0,
                qd_count: 1,
                an_count: 0,
                ns_count: 0,
                ar_count: 0,
            },
            query: Some(Query {
                qname: Domain::from(b"google.com.".to_vec()),
                qclass: 1,
                qtype: QType::A,
            }),
            answer: vec![],
            authority: vec![],
            additional: vec![],
        }
    );
}

// An OPT record in the additional section is tolerated and kept verbatim.
#[test]
fn parse_message_edns() {
    let data = vec![
        226, 29, 1, 32, 0, 1, 0, 0, 0, 0, 0, 1, 6, 103, 111, 111, 103, 108, 101, 3, 99, 111, 109,
        0, 0, 1, 0, 1, 0, 0, 41, 16, 0, 0, 0, 0, 0, 0, 0,
    ];
    let (_, result) = Message::from_bytes(&data).unwrap();

    assert_eq!(result.header.id, 57885);
    assert_eq!(result.header.ar_count, 1);
    assert_eq!(
        result.query,
        Some(Query {
            qname: Domain::from(b"google.com.".to_vec()),
            qclass: 1,
            qtype: QType::A,
        })
    );
    assert_eq!(result.answer, vec![]);
    assert_eq!(result.authority, vec![]);
    assert_eq!(
        result.additional,
        vec![Resource {
            name: CompressionData::new(vec![], CompressionType::Domain),
            _type: QType::Unknown(41),
            class: 4096,
            ttl: 0,
            rdlength: 0,
            rdata: vec![]
        }]
    );
}

#[test]
fn message_parse_message() {
    let data = vec![
        245, 212, 1, 32, 0, 1, 0, 0, 0, 0, 0, 0, 6, 103, 111, 111, 103, 108, 101, 3, 99, 111, 109,
        0, 0, 1, 0, 1,
    ];
    let (_, result) = Message::from_bytes(&data).unwrap();
    assert_eq!(result.header.id, 62932);
    let q = result.query.unwrap();
    assert_eq!(q.qname.to_string(), "google.com.".to_owned());
    assert_eq!(q.qtype, QType::A);
    assert_eq!(q.qclass, 1);
}

// A whole message survives an encode/decode round trip.
#[test]
fn message_roundtrip() {
    let m = Message {
        header: Header {
            id: 7,
            qr: 1,
            opcode: 0,
            aa: 0,
            tc: 0,
            rd: 1,
            ra: 1,
            z: 0,
            ad: 0,
            cd: 0,
            rcode: 0,
            qd_count: 1,
            an_count: 1,
            ns_count: 0,
            ar_count: 0,
        },
        query: Some(Query {
            qname: Domain::from(b"example.com.".to_vec()),
            qtype: QType::A,
            qclass: 1,
        }),
        answer: vec![Resource {
            name: CompressionData::new(
                vec![
                    DataType::Raw(b"example".to_vec()),
                    DataType::Raw(b"com".to_vec()),
                ],
                CompressionType::Domain,
            ),
            _type: QType::A,
            class: 1,
            ttl: 60,
            rdlength: 4,
            rdata: vec![93, 184, 216, 34],
        }],
        authority: vec![],
        additional: vec![],
    };
    let bytes = m.to_vec();
    let (consumed, back) = Message::from_bytes(&bytes).unwrap();
    assert_eq!(consumed, bytes.len());
    assert_eq!(back, m);
}

// A record whose owner name was a two-byte pointer re-encodes to the very
// same two pointer bytes, never to an expanded label form.
#[test]
fn pointer_reencode() {
    let data: Vec<u8> = vec![192, 12, 0, 1, 0, 1, 0, 0, 1, 43, 0, 4, 172, 217, 25, 238];
    let (consumed, r) = Resource::read(&data).unwrap();
    assert_eq!(consumed, data.len());
    let bytes = r.to_vec();
    assert_eq!(bytes, data);
}

// Decode failures are reported, never panics: a buffer too short for its
// own header.
#[test]
fn truncated_header() {
    assert!(Message::from_bytes(&[1, 2, 3]).is_err());
}

#[test]
fn qtype_codes() {
    assert_eq!(QType::from(1), QType::A);
    assert_eq!(QType::from(2), QType::NS);
    assert_eq!(QType::from(28), QType::AAAA);
    assert_eq!(QType::from(65), QType::Unknown(65));
    let a: u16 = QType::A.into();
    let ns: u16 = QType::NS.into();
    let aaaa: u16 = QType::AAAA.into();
    let u: u16 = QType::Unknown(65).into();
    assert_eq!((a, ns, aaaa, u), (1, 2, 28, 65));
}
