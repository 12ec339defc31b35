//! The question section: one name, a type and a class.

use vstd::prelude::*;

use crate::domain::enc_dotted;
use crate::domain::name_read_at;
use crate::domain::Domain;
use crate::qtype::qtype_code;
use crate::qtype::qtype_of;
use crate::qtype::QType;
use crate::wire::be16;
use crate::wire::read_u16;
use crate::wire::u16_of;
use crate::wire::ParseError;

verus! {

#[derive(Debug, PartialEq)]
pub struct Query {
    pub qname: Domain,
    pub qtype: QType,
    pub qclass: u16,
}

/// A parsed question: the name in its stored byte form, type and class.
#[verifier::ext_equal]
pub ghost struct QueryView {
    pub qname: Seq<u8>,
    pub qtype: QType,
    pub qclass: u16,
}

impl View for Query {
    type V = QueryView;

    open spec fn view(&self) -> QueryView {
        QueryView { qname: self.qname@, qtype: self.qtype, qclass: self.qclass }
    }
}

impl Clone for Query {
    fn clone(&self) -> (res: Self)
        ensures
            res@ == self@,
    {
        Query { qname: self.qname.clone(), qtype: self.qtype, qclass: self.qclass }
    }
}

/// Parses a question at `pos`: a name, then two 16-bit values.
pub open spec fn parse_query(data: Seq<u8>, pos: int) -> Option<(QueryView, int)> {
    match name_read_at(data, pos) {
        None => None,
        Some((nm, p)) => {
            if p + 4 <= data.len() {
                Some(
                    (
                        QueryView {
                            qname: nm,
                            qtype: qtype_of(u16_of(data[p], data[p + 1])),
                            qclass: u16_of(data[p + 2], data[p + 3]),
                        },
                        p + 4,
                    ),
                )
            } else {
                None
            }
        },
    }
}

/// The wire bytes of a question.
pub open spec fn enc_query(q: QueryView) -> Seq<u8> {
    enc_dotted(q.qname) + be16(qtype_code(q.qtype)) + be16(q.qclass)
}

impl Query {
    /// Reads a question from the head of `data`.
    pub fn read(data: &[u8]) -> (r: Result<(usize, Query), ParseError>)
        ensures
            r is Ok <==> parse_query(data@, 0) is Some,
            r matches Ok((end, q)) ==> parse_query(data@, 0) == Some((q@, end as int)),
    {
        Self::read_at(data, 0)
    }

    /// Reads a question at `pos` of `data`.
    pub(crate) fn read_at(data: &[u8], pos: usize) -> (r: Result<(usize, Query), ParseError>)
        ensures
            r is Ok <==> parse_query(data@, pos as int) is Some,
            r matches Ok((end, q)) ==> parse_query(data@, pos as int) == Some((q@, end as int)),
    {
        let (p, qname) = match Domain::read_at(data, pos) {
            Ok(v) => v,
            Err(e) => {
                return Err(e);
            },
        };
        let (tcode, p) = match read_u16(data, p) {
            Ok(v) => v,
            Err(e) => {
                return Err(e);
            },
        };
        let (qclass, p) = match read_u16(data, p) {
            Ok(v) => v,
            Err(e) => {
                return Err(e);
            },
        };
        Ok((p, Query { qname, qtype: QType::from(tcode), qclass }))
    }

    /// The wire bytes of this question.
    pub fn to_vec(&self) -> (r: Vec<u8>)
        requires
            self.qname@.len() > 0,
        ensures
            r@ == enc_query(self@),
    {
        let mut v = self.qname.to_vec();
        let code = self.qtype.into();
        crate::wire::push_u16(&mut v, code);
        crate::wire::push_u16(&mut v, self.qclass);
        proof {
            assert(v@ =~= enc_query(self@));
        }
        v
    }
}

/// A question the codec reproduces exactly: a well-formed name and a type
/// tag that is the canonical reading of its own code (so an `Unknown` tag
/// never shadows a known code).
pub open spec fn query_wf(q: QueryView) -> bool {
    &&& crate::domain::name_wf(q.qname)
    &&& qtype_of(qtype_code(q.qtype)) == q.qtype
}

/// Parsing the encoded bytes of a well-formed question, embedded at `pos`,
/// gives the question back and stops at its end.
pub proof fn lemma_parse_query_prefix(data: Seq<u8>, pos: int, q: QueryView)
    requires
        query_wf(q),
        0 <= pos,
        pos + enc_query(q).len() <= data.len(),
        data.subrange(pos, pos + enc_query(q).len() as int) == enc_query(q),
    ensures
        parse_query(data, pos) == Some((q, pos + enc_query(q).len() as int)),
{
    let enc = enc_query(q);
    let nm = enc_dotted(q.qname);
    let nl = nm.len() as int;
    assert(enc.len() == nl + 4);
    crate::wire::lemma_embed_slice(data, pos, enc, 0, nl);
    assert(enc.subrange(0, nl) =~= nm);
    assert(data.subrange(pos, pos + nl) == nm);
    crate::domain::lemma_name_read_prefix(data, pos, q.qname);
    assert(name_read_at(data, pos) == Some((q.qname, pos + nl)));
    crate::wire::lemma_embed_byte(data, pos, enc, nl + 0);
    crate::wire::lemma_embed_byte(data, pos, enc, nl + 1);
    crate::wire::lemma_embed_byte(data, pos, enc, nl + 2);
    crate::wire::lemma_embed_byte(data, pos, enc, nl + 3);
    assert(enc[nl + 0] == be16(qtype_code(q.qtype))[0]);
    assert(enc[nl + 1] == be16(qtype_code(q.qtype))[1]);
    assert(enc[nl + 2] == be16(q.qclass)[0]);
    assert(enc[nl + 3] == be16(q.qclass)[1]);
    crate::wire::lemma_u16_of_be(qtype_code(q.qtype));
    crate::wire::lemma_u16_of_be(q.qclass);
    let p = pos + nl;
    assert(data[p + 0] == data[pos + (nl + 0)]);
    assert(data[p + 1] == data[pos + (nl + 1)]);
    assert(data[p + 2] == data[pos + (nl + 2)]);
    assert(data[p + 3] == data[pos + (nl + 3)]);
    assert(u16_of(data[p + 0], data[p + 1]) == qtype_code(q.qtype));
    assert(u16_of(data[p + 2], data[p + 3]) == q.qclass);
    assert(parse_query(data, pos) == Some(
        (
            QueryView {
                qname: q.qname,
                qtype: qtype_of(u16_of(data[p], data[p + 1])),
                qclass: u16_of(data[p + 2], data[p + 3]),
            },
            p + 4,
        ),
    ));
    assert(QueryView {
        qname: q.qname,
        qtype: qtype_of(u16_of(data[p], data[p + 1])),
        qclass: u16_of(data[p + 2], data[p + 3]),
    } =~= q);
}

} // verus!
