//! The whole DNS message: header, optional question, and the three
//! resource-record sections, in wire order.

use vstd::prelude::*;

use crate::header::enc_header;
use crate::header::parse_header;
use crate::header::Header;
use crate::query::enc_query;
use crate::query::parse_query;
use crate::query::Query;
use crate::query::QueryView;
use crate::resource::enc_resource;
use crate::resource::parse_resource;
use crate::resource::Resource;
use crate::resource::ResourceView;
use crate::wire::push_bytes;
use crate::wire::u16_of;
use crate::wire::ParseError;

verus! {

#[derive(Debug, PartialEq)]
pub struct Message {
    pub header: Header,
    pub query: Option<Query>,
    pub answer: Vec<Resource>,
    pub authority: Vec<Resource>,
    pub additional: Vec<Resource>,
}

/// A parsed message.
#[verifier::ext_equal]
pub ghost struct MessageView {
    pub header: Header,
    pub query: Option<QueryView>,
    pub answer: Seq<ResourceView>,
    pub authority: Seq<ResourceView>,
    pub additional: Seq<ResourceView>,
}

impl View for Message {
    type V = MessageView;

    open spec fn view(&self) -> MessageView {
        MessageView {
            header: self.header,
            query: match self.query {
                Some(q) => Some(q@),
                None => None,
            },
            answer: self.answer.deep_view(),
            authority: self.authority.deep_view(),
            additional: self.additional.deep_view(),
        }
    }
}

/// Parses `n` consecutive resource records starting at `pos`.
pub open spec fn parse_resources(data: Seq<u8>, pos: int, n: nat) -> Option<
    (Seq<ResourceView>, int),
>
    decreases n,
{
    if n == 0 {
        Some((Seq::empty(), pos))
    } else {
        match parse_resource(data, pos) {
            None => None,
            Some((r, p)) => match parse_resources(data, p, (n - 1) as nat) {
                None => None,
                Some((rest, end)) => Some((seq![r] + rest, end)),
            },
        }
    }
}

/// Parses a whole message from the start of `data`: the header, one
/// question if the question count is positive, then as many records per
/// section as the header counts declare. Trailing bytes are allowed and
/// reported through the end position.
pub open spec fn parse_message(data: Seq<u8>) -> Option<(MessageView, int)> {
    match parse_header(data, 0) {
        None => None,
        Some((h, p0)) => {
            let q_step: Option<(Option<QueryView>, int)> = if h.qd_count > 0 {
                match parse_query(data, p0) {
                    None => None,
                    Some((q, p)) => Some((Some(q), p)),
                }
            } else {
                Some((None, p0))
            };
            match q_step {
                None => None,
                Some((q, p1)) => match parse_resources(data, p1, h.an_count as nat) {
                    None => None,
                    Some((ans, p2)) => match parse_resources(data, p2, h.ns_count as nat) {
                        None => None,
                        Some((auth, p3)) => match parse_resources(data, p3, h.ar_count as nat) {
                            None => None,
                            Some((add, p4)) => Some(
                                (
                                    MessageView {
                                        header: h,
                                        query: q,
                                        answer: ans,
                                        authority: auth,
                                        additional: add,
                                    },
                                    p4,
                                ),
                            ),
                        },
                    },
                },
            }
        },
    }
}

/// The wire bytes of a record list.
pub open spec fn enc_resources(rs: Seq<ResourceView>) -> Seq<u8>
    decreases rs.len(),
{
    if rs.len() == 0 {
        Seq::empty()
    } else {
        enc_resource(rs[0]) + enc_resources(rs.skip(1))
    }
}

/// The wire bytes of a whole message.
pub open spec fn enc_message(m: MessageView) -> Seq<u8> {
    enc_header(m.header) + (match m.query {
        Some(q) => enc_query(q),
        None => Seq::empty(),
    }) + enc_resources(m.answer) + enc_resources(m.authority) + enc_resources(m.additional)
}

/// What encoding needs of a message's contents: a question name with at
/// least one byte, and rdata short enough for its 16-bit length field.
pub open spec fn encodable(m: MessageView) -> bool {
    &&& (m.query matches Some(q) ==> q.qname.len() > 0)
    &&& (forall|i: int| 0 <= i < m.answer.len() ==> m.answer[i].rdata.len() < 0x10000)
    &&& (forall|i: int| 0 <= i < m.authority.len() ==> m.authority[i].rdata.len() < 0x10000)
    &&& (forall|i: int| 0 <= i < m.additional.len() ==> m.additional[i].rdata.len() < 0x10000)
}

impl Message {
    /// Decodes a message from the head of `data`, trusting the header
    /// counts but never reading past the buffer.
    pub fn from_bytes(data: &[u8]) -> (r: Result<(usize, Message), ParseError>)
        ensures
            r is Ok <==> parse_message(data@) is Some,
            r matches Ok((end, m)) ==> parse_message(data@) == Some((m@, end as int)),
    {
        let (p, header) = match Header::read_at(data, 0) {
            Ok(v) => v,
            Err(e) => {
                return Err(e);
            },
        };
        let (p, query) = if header.qd_count > 0 {
            match Query::read_at(data, p) {
                Ok((p2, q)) => (p2, Some(q)),
                Err(e) => {
                    return Err(e);
                },
            }
        } else {
            (p, None)
        };
        let (p, answer) = match read_resources(data, p, header.an_count) {
            Ok(v) => v,
            Err(e) => {
                return Err(e);
            },
        };
        let (p, authority) = match read_resources(data, p, header.ns_count) {
            Ok(v) => v,
            Err(e) => {
                return Err(e);
            },
        };
        let (p, additional) = match read_resources(data, p, header.ar_count) {
            Ok(v) => v,
            Err(e) => {
                return Err(e);
            },
        };
        Ok((p, Message { header, query, answer, authority, additional }))
    }

    /// The wire bytes of this message, sections in their fixed order.
    pub fn to_vec(&self) -> (r: Vec<u8>)
        requires
            encodable(self@),
        ensures
            r@ == enc_message(self@),
    {
        let mut result: Vec<u8> = Vec::new();
        let h = self.header.to_vec();
        push_bytes(&mut result, &h);
        match &self.query {
            Some(v) => {
                let q = v.to_vec();
                push_bytes(&mut result, &q);
            },
            None => {},
        }
        proof {
            assert forall|i: int| 0 <= i < self.answer@.len() implies (#[trigger] self.answer@[i])@.rdata.len()
                < 0x10000 by {
                assert(self.answer.deep_view()[i] == self.answer@[i]@);
            }
            assert forall|i: int|
                0 <= i < self.authority@.len() implies (#[trigger] self.authority@[i])@.rdata.len()
                < 0x10000 by {
                assert(self.authority.deep_view()[i] == self.authority@[i]@);
            }
            assert forall|i: int|
                0 <= i
                    < self.additional@.len() implies (#[trigger] self.additional@[i])@.rdata.len()
                < 0x10000 by {
                assert(self.additional.deep_view()[i] == self.additional@[i]@);
            }
        }
        append_resources(&mut result, &self.answer);
        append_resources(&mut result, &self.authority);
        append_resources(&mut result, &self.additional);
        proof {
            assert(result@ =~= enc_message(self@));
        }
        result
    }
}

/// Reads `n` consecutive resource records at `pos`.
fn read_resources(data: &[u8], pos: usize, n: u16) -> (r: Result<(usize, Vec<Resource>), ParseError>)
    ensures
        r is Ok <==> parse_resources(data@, pos as int, n as nat) is Some,
        r matches Ok((end, v)) ==> parse_resources(data@, pos as int, n as nat) matches Some(
            (rs, e),
        ) && v.deep_view() == rs && end as int == e,
{
    let mut out: Vec<Resource> = Vec::new();
    let mut p: usize = pos;
    let mut i: u16 = 0;
    let ghost mut done: Seq<ResourceView> = Seq::empty();
    proof {
        if parse_resources(data@, pos as int, n as nat) is Some {
            let (rs, e) = parse_resources(data@, pos as int, n as nat).unwrap();
            assert(done + rs =~= rs);
        }
    }
    while i < n
        invariant
            i <= n,
            out@.len() == i,
            done.len() == i,
            forall|k: int| 0 <= k < i ==> out@[k]@ == done[k],
            parse_resources(data@, pos as int, n as nat) == match parse_resources(
                data@,
                p as int,
                (n - i) as nat,
            ) {
                Some((rs, e)) => Some::<(Seq<ResourceView>, int)>((done + rs, e)),
                None => None::<(Seq<ResourceView>, int)>,
            },
        decreases n - i,
    {
        let ghost done0 = done;
        let (p2, res) = match Resource::read_at(data, p) {
            Ok(v) => v,
            Err(e) => {
                proof {
                    assert(parse_resources(data@, p as int, (n - i) as nat) is None);
                }
                return Err(e);
            },
        };
        proof {
            let (rv, pm) = parse_resource(data@, p as int).unwrap();
            done = done0 + seq![rv];
            if parse_resources(data@, p2 as int, (n - (i + 1)) as nat) is Some {
                let (rest, e) = parse_resources(data@, p2 as int, (n - (i + 1)) as nat).unwrap();
                assert(parse_resources(data@, p as int, (n - i) as nat)
                    == Some::<(Seq<ResourceView>, int)>((seq![rv] + rest, e)));
                assert(done0 + (seq![rv] + rest) =~= done + rest);
            } else {
                assert(parse_resources(data@, p as int, (n - i) as nat) is None);
            }
        }
        out.push(res);
        p = p2;
        i = i + 1;
    }
    proof {
        assert(parse_resources(data@, p as int, 0) == Some::<(Seq<ResourceView>, int)>(
            (Seq::empty(), p as int),
        ));
        assert(done + Seq::<ResourceView>::empty() =~= done);
        assert forall|k: int| 0 <= k < out@.len() implies out.deep_view()[k] == done[k] by {
            assert(out.deep_view()[k] == out@[k]@);
        }
        assert(out.deep_view() =~= done);
    }
    Ok((p, out))
}

/// Appends the wire bytes of every record in `rs`.
fn append_resources(out: &mut Vec<u8>, rs: &Vec<Resource>)
    requires
        forall|i: int| 0 <= i < rs@.len() ==> (#[trigger] rs@[i])@.rdata.len() < 0x10000,
    ensures
        final(out)@ == old(out)@ + enc_resources(rs.deep_view()),
{
    let ghost dv = rs.deep_view();
    let mut i: usize = 0;
    proof {
        assert(dv.skip(0) =~= dv);
    }
    while i < rs.len()
        invariant
            i <= rs@.len(),
            dv == rs.deep_view(),
            forall|k: int| 0 <= k < rs@.len() ==> (#[trigger] rs@[k])@.rdata.len() < 0x10000,
            out@ + enc_resources(dv.skip(i as int)) == old(out)@ + enc_resources(dv),
        decreases rs@.len() - i,
    {
        proof {
            assert(rs.deep_view()[i as int] == rs@[i as int]@);
            assert(dv.skip(i as int)[0] == dv[i as int]);
            assert(dv.skip(i as int).skip(1) =~= dv.skip(i + 1));
            assert(enc_resources(dv.skip(i as int)) =~= enc_resource(dv[i as int]) + enc_resources(
                dv.skip(i + 1),
            ));
        }
        let b = rs[i].to_vec();
        push_bytes(out, &b);
        proof {
            assert(out@ + enc_resources(dv.skip(i + 1)) =~= old(out)@ + enc_resources(dv));
        }
        i = i + 1;
    }
    proof {
        assert(dv.skip(dv.len() as int) =~= Seq::<ResourceView>::empty());
        assert(final(out)@ =~= old(out)@ + enc_resources(dv));
    }
}

/// A message the codec reproduces exactly: a well-formed header whose
/// counts match the sections, a well-formed question exactly when the
/// question count says so, and well-formed records throughout.
pub open spec fn message_wf(m: MessageView) -> bool {
    &&& crate::header::header_wf(m.header)
    &&& m.header.qd_count == (match m.query {
        Some(_) => 1u16,
        None => 0u16,
    })
    &&& m.header.an_count as int == m.answer.len()
    &&& m.header.ns_count as int == m.authority.len()
    &&& m.header.ar_count as int == m.additional.len()
    &&& (m.query matches Some(q) ==> crate::query::query_wf(q))
    &&& (forall|i: int| 0 <= i < m.answer.len() ==> crate::resource::resource_wf(#[trigger] m.answer[i]))
    &&& (forall|i: int|
        0 <= i < m.authority.len() ==> crate::resource::resource_wf(#[trigger] m.authority[i]))
    &&& (forall|i: int|
        0 <= i < m.additional.len() ==> crate::resource::resource_wf(#[trigger] m.additional[i]))
}

/// Parsing the encoded bytes of a list of well-formed records, embedded at
/// `pos`, gives the records back and stops at their end.
pub proof fn lemma_parse_resources_prefix(data: Seq<u8>, pos: int, rs: Seq<ResourceView>)
    requires
        forall|i: int| 0 <= i < rs.len() ==> crate::resource::resource_wf(#[trigger] rs[i]),
        0 <= pos,
        pos + enc_resources(rs).len() <= data.len(),
        data.subrange(pos, pos + enc_resources(rs).len() as int) == enc_resources(rs),
    ensures
        parse_resources(data, pos, rs.len() as nat) == Some(
            (rs, pos + enc_resources(rs).len() as int),
        ),
    decreases rs.len(),
{
    let enc = enc_resources(rs);
    if rs.len() == 0 {
        assert(parse_resources(data, pos, 0) == Some((Seq::<ResourceView>::empty(), pos)));
        assert(Seq::<ResourceView>::empty() =~= rs);
    } else {
        let e0 = enc_resource(rs[0]);
        let rest = rs.skip(1);
        let er = enc_resources(rest);
        assert(enc == e0 + er);
        crate::wire::lemma_embed_slice(data, pos, enc, 0, e0.len() as int);
        assert(enc.subrange(0, e0.len() as int) =~= e0);
        assert(data.subrange(pos, pos + e0.len() as int) == e0);
        crate::resource::lemma_parse_resource_prefix(data, pos, rs[0]);
        let p = pos + e0.len() as int;
        crate::wire::lemma_embed_slice(data, pos, enc, e0.len() as int, enc.len() as int);
        assert(enc.subrange(e0.len() as int, enc.len() as int) =~= er);
        assert(data.subrange(pos + e0.len() as int, pos + enc.len() as int) == er);
        assert(data.subrange(p, p + er.len() as int) == er);
        assert forall|i: int| 0 <= i < rest.len() implies crate::resource::resource_wf(
            #[trigger] rest[i],
        ) by {
            assert(rest[i] == rs[i + 1]);
        }
        lemma_parse_resources_prefix(data, p, rest);
        assert(parse_resources(data, p, rest.len() as nat) == Some((rest, p + er.len() as int)));
        assert((rs.len() as nat - 1) as nat == rest.len() as nat);
        assert(parse_resources(data, pos, rs.len() as nat) == Some(
            (seq![rs[0]] + rest, p + er.len() as int),
        ));
        assert(seq![rs[0]] + rest =~= rs);
        assert(p + er.len() as int == pos + enc.len() as int);
    }
}

/// Decoding the encoding of a well-formed message gives the message back,
/// consuming exactly its bytes. In particular a message whose names carry
/// no compression pointers round-trips, as does one whose record names end
/// in a plain `192`-form pointer.
#[verifier::rlimit(100)]
pub proof fn lemma_message_roundtrip(m: MessageView)
    requires
        message_wf(m),
    ensures
        parse_message(enc_message(m)) == Some((m, enc_message(m).len() as int)),
{
    let data = enc_message(m);
    let eh = enc_header(m.header);
    let eq = match m.query {
        Some(q) => enc_query(q),
        None => Seq::<u8>::empty(),
    };
    let ea = enc_resources(m.answer);
    let eu = enc_resources(m.authority);
    let ed = enc_resources(m.additional);
    assert(eh.len() == 12);
    assert(data == eh + eq + ea + eu + ed);
    let p1 = 12 + eq.len() as int;
    let p2 = p1 + ea.len() as int;
    let p3 = p2 + eu.len() as int;
    let p4 = p3 + ed.len() as int;
    assert(data.len() == p4);
    assert(data.subrange(0, 12) =~= eh);
    crate::header::lemma_parse_header_prefix(data, 0, m.header);
    assert(parse_header(data, 0) == Some::<(Header, int)>((m.header, 12)));
    match m.query {
        Some(q) => {
            assert(data.subrange(12, p1) =~= eq);
            crate::query::lemma_parse_query_prefix(data, 12, q);
            assert(parse_query(data, 12) == Some::<(QueryView, int)>((q, p1)));
        },
        None => {
        },
    }
    assert(data.subrange(p1, p2) =~= ea);
    lemma_parse_resources_prefix(data, p1, m.answer);
    assert(data.subrange(p2, p3) =~= eu);
    lemma_parse_resources_prefix(data, p2, m.authority);
    assert(data.subrange(p3, p4) =~= ed);
    lemma_parse_resources_prefix(data, p3, m.additional);
    assert(m.header.an_count as nat == m.answer.len() as nat);
    assert(m.header.ns_count as nat == m.authority.len() as nat);
    assert(m.header.ar_count as nat == m.additional.len() as nat);
    assert(parse_message(data) == Some(
        (
            MessageView {
                header: m.header,
                query: m.query,
                answer: m.answer,
                authority: m.authority,
                additional: m.additional,
            },
            p4,
        ),
    ));
    assert(MessageView {
        header: m.header,
        query: m.query,
        answer: m.answer,
        authority: m.authority,
        additional: m.additional,
    } =~= m);
}

/// Every record a parse yields has rdata short enough to re-encode: its
/// length was read from a 16-bit field.
pub proof fn lemma_parse_resources_rdata(data: Seq<u8>, pos: int, n: nat)
    requires
        parse_resources(data, pos, n) is Some,
    ensures
        forall|i: int|
            0 <= i < parse_resources(data, pos, n).unwrap().0.len() ==> (
            #[trigger] parse_resources(data, pos, n).unwrap().0[i]).rdata.len() < 0x10000,
    decreases n,
{
    if n == 0 {
    } else {
        assert(parse_resource(data, pos) is Some);
        let (r, p) = parse_resource(data, pos).unwrap();
        assert(parse_resources(data, pos, n) == (match parse_resources(data, p, (n - 1) as nat) {
            Some((rest0, e)) => Some::<(Seq<ResourceView>, int)>((seq![r] + rest0, e)),
            None => None::<(Seq<ResourceView>, int)>,
        }));
        lemma_parse_resources_rdata(data, p, (n - 1) as nat);
        let rest = parse_resources(data, p, (n - 1) as nat).unwrap().0;
        assert(parse_resources(data, pos, n).unwrap().0 == seq![r] + rest);
        assert(r.rdata.len() < 0x10000) by {
            crate::compression::lemma_parse_name_bounds(data, pos);
            let (segs, pn) = crate::compression::parse_name(data, pos).unwrap();
            let rdl = u16_of(data[pn + 8], data[pn + 9]);
            assert(0 <= pn + 10 <= data.len());
            assert(pn + 10 + rdl <= data.len());
            assert(r.rdata == data.subrange(pn + 10, pn + 10 + rdl));
            assert(r.rdata.len() == rdl);
        }
        assert forall|i: int|
            0 <= i < parse_resources(data, pos, n).unwrap().0.len() implies (
        #[trigger] parse_resources(data, pos, n).unwrap().0[i]).rdata.len() < 0x10000 by {
            if i == 0 {
                assert(parse_resources(data, pos, n).unwrap().0[0] == r);
            } else {
                assert(parse_resources(data, pos, n).unwrap().0[i] == rest[i - 1]);
            }
        }
    }
}

/// A message that parsed can be re-encoded, provided its question name (if
/// any) is nonempty: all its rdata lengths came from 16-bit fields.
pub proof fn lemma_parse_message_encodable(data: Seq<u8>)
    requires
        parse_message(data) is Some,
        parse_message(data).unwrap().0.query matches Some(q) ==> q.qname.len() > 0,
    ensures
        encodable(parse_message(data).unwrap().0),
{
    let m = parse_message(data).unwrap().0;
    let (h, p0) = parse_header(data, 0).unwrap();
    let p1: int = if h.qd_count > 0 {
        parse_query(data, p0).unwrap().1
    } else {
        p0
    };
    let (ans, p2) = parse_resources(data, p1, h.an_count as nat).unwrap();
    let (auth, p3) = parse_resources(data, p2, h.ns_count as nat).unwrap();
    let (add, p4) = parse_resources(data, p3, h.ar_count as nat).unwrap();
    assert(m.answer == ans && m.authority == auth && m.additional == add);
    lemma_parse_resources_rdata(data, p1, h.an_count as nat);
    lemma_parse_resources_rdata(data, p2, h.ns_count as nat);
    lemma_parse_resources_rdata(data, p3, h.ar_count as nat);
}

} // verus!
