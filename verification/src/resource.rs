//! Resource records: an owner name (which may use compression), type,
//! class, TTL, and the opaque rdata bytes.

use vstd::prelude::*;

use crate::compression::enc_name;
use crate::compression::parse_name;
use crate::compression::CompressionData;
use crate::compression::CompressionType;
use crate::compression::NameView;
use crate::domain::clone_bytes;
use crate::qtype::qtype_code;
use crate::qtype::qtype_of;
use crate::qtype::QType;
use crate::wire::be16;
use crate::wire::be32;
use crate::wire::push_bytes;
use crate::wire::push_u16;
use crate::wire::push_u32;
use crate::wire::read_u16;
use crate::wire::read_u32;
use crate::wire::u16_of;
use crate::wire::u32_of;
use crate::wire::ParseError;

verus! {

#[derive(Debug, PartialEq)]
pub struct Resource {
    pub name: CompressionData,
    pub _type: QType,
    pub class: u16,
    pub ttl: u32,
    pub rdlength: u16,
    pub rdata: Vec<u8>,
}

/// A parsed resource record.
#[verifier::ext_equal]
pub ghost struct ResourceView {
    pub name: NameView,
    pub rtype: QType,
    pub class: u16,
    pub ttl: u32,
    pub rdlength: u16,
    pub rdata: Seq<u8>,
}

impl View for Resource {
    type V = ResourceView;

    open spec fn view(&self) -> ResourceView {
        ResourceView {
            name: self.name@,
            rtype: self._type,
            class: self.class,
            ttl: self.ttl,
            rdlength: self.rdlength,
            rdata: self.rdata@,
        }
    }
}

impl DeepView for Resource {
    type V = ResourceView;

    open spec fn deep_view(&self) -> ResourceView {
        self.view()
    }
}

impl Clone for Resource {
    fn clone(&self) -> (res: Self)
        ensures
            res@ == self@,
    {
        Resource {
            name: self.name.clone(),
            _type: self._type,
            class: self.class,
            ttl: self.ttl,
            rdlength: self.rdlength,
            rdata: clone_bytes(&self.rdata),
        }
    }
}

/// Parses a resource record at `pos`: a name, four fixed fields, then as
/// many rdata bytes as the length field declares.
pub open spec fn parse_resource(data: Seq<u8>, pos: int) -> Option<(ResourceView, int)> {
    match parse_name(data, pos) {
        None => None,
        Some((segs, p)) => {
            if p + 10 <= data.len() {
                let rdlength = u16_of(data[p + 8], data[p + 9]);
                if p + 10 + rdlength <= data.len() {
                    Some(
                        (
                            ResourceView {
                                name: NameView { inner: segs, kind: CompressionType::Domain },
                                rtype: qtype_of(u16_of(data[p], data[p + 1])),
                                class: u16_of(data[p + 2], data[p + 3]),
                                ttl: u32_of(data[p + 4], data[p + 5], data[p + 6], data[p + 7]),
                                rdlength,
                                rdata: data.subrange(p + 10, p + 10 + rdlength),
                            },
                            p + 10 + rdlength,
                        ),
                    )
                } else {
                    None
                }
            } else {
                None
            }
        },
    }
}

/// The wire bytes of a resource record. The length field is recomputed from
/// the rdata itself rather than trusting the stored field.
pub open spec fn enc_resource(r: ResourceView) -> Seq<u8> {
    enc_name(r.name) + be16(qtype_code(r.rtype)) + be16(r.class) + be32(r.ttl) + be16(
        (r.rdata.len() % 0x10000) as u16,
    ) + r.rdata
}

impl Resource {
    /// Reads a resource record from the head of `data`.
    pub fn read(data: &[u8]) -> (r: Result<(usize, Resource), ParseError>)
        ensures
            r is Ok <==> parse_resource(data@, 0) is Some,
            r matches Ok((end, res)) ==> parse_resource(data@, 0) == Some((res@, end as int)),
    {
        Self::read_at(data, 0)
    }

    /// Reads a resource record at `pos` of `data`.
    pub(crate) fn read_at(data: &[u8], pos: usize) -> (r: Result<(usize, Resource), ParseError>)
        ensures
            r is Ok <==> parse_resource(data@, pos as int) is Some,
            r matches Ok((end, res)) ==> parse_resource(data@, pos as int) == Some(
                (res@, end as int),
            ),
    {
        let (p, name) = match CompressionData::from_domain_at(data, pos) {
            Ok(v) => v,
            Err(e) => {
                return Err(e);
            },
        };
        let (tcode, p) = match read_u16(data, p) {
            Ok(v) => v,
            Err(e) => {
                return Err(e);
            },
        };
        let (class, p) = match read_u16(data, p) {
            Ok(v) => v,
            Err(e) => {
                return Err(e);
            },
        };
        let (ttl, p) = match read_u32(data, p) {
            Ok(v) => v,
            Err(e) => {
                return Err(e);
            },
        };
        let (rdlength, p) = match read_u16(data, p) {
            Ok(v) => v,
            Err(e) => {
                return Err(e);
            },
        };
        let n = rdlength as usize;
        let dlen = data.len();
        if n > dlen - p {
            return Err(ParseError);
        }
        let ghost rd = data@.subrange(p as int, p + n);
        let mut rdata: Vec<u8> = Vec::new();
        let mut j: usize = 0;
        while j < n
            invariant
                j <= n,
                p + n <= dlen,
                dlen == data@.len(),
                rd == data@.subrange(p as int, p + n),
                rdata@ == rd.subrange(0, j as int),
            decreases n - j,
        {
            rdata.push(data[p + j]);
            j = j + 1;
            proof {
                assert(rdata@ =~= rd.subrange(0, j as int));
            }
        }
        proof {
            assert(rdata@ =~= rd);
        }
        Ok((p + n, Resource { name, _type: QType::from(tcode), class, ttl, rdlength, rdata }))
    }

    /// The wire bytes of this record; the length field written is the
    /// actual rdata length, which therefore must fit its 16 bits.
    pub fn to_vec(&self) -> (r: Vec<u8>)
        requires
            self.rdata@.len() < 0x10000,
        ensures
            r@ == enc_resource(self@),
    {
        let name: Vec<u8> = self.name.clone().into();
        let mut v: Vec<u8> = Vec::new();
        push_bytes(&mut v, &name);
        let code = self._type.into();
        push_u16(&mut v, code);
        push_u16(&mut v, self.class);
        push_u32(&mut v, self.ttl);
        push_u16(&mut v, (self.rdata.len() % 0x10000) as u16);
        push_bytes(&mut v, &self.rdata);
        proof {
            assert(v@ =~= enc_resource(self@));
        }
        v
    }
}

/// A record the codec reproduces exactly: well-formed domain-form name
/// segments, a canonical type tag, and a stored length that matches the
/// rdata and fits its 16-bit field.
pub open spec fn resource_wf(r: ResourceView) -> bool {
    &&& crate::compression::segs_wf(r.name.inner)
    &&& r.name.kind == CompressionType::Domain
    &&& qtype_of(qtype_code(r.rtype)) == r.rtype
    &&& r.rdata.len() < 0x10000
    &&& r.rdlength == r.rdata.len()
}

/// Parsing the encoded bytes of a well-formed record, embedded at `pos`,
/// gives the record back and stops at its end.
pub proof fn lemma_parse_resource_prefix(data: Seq<u8>, pos: int, r: ResourceView)
    requires
        resource_wf(r),
        0 <= pos,
        pos + enc_resource(r).len() <= data.len(),
        data.subrange(pos, pos + enc_resource(r).len() as int) == enc_resource(r),
    ensures
        parse_resource(data, pos) == Some((r, pos + enc_resource(r).len() as int)),
{
    let enc = enc_resource(r);
    let ename = enc_name(r.name);
    let nl = ename.len() as int;
    let dl = r.rdata.len() as int;
    assert(enc.len() == nl + 10 + dl);
    crate::wire::lemma_embed_slice(data, pos, enc, 0, nl);
    assert(enc.subrange(0, nl) =~= ename);
    assert(data.subrange(pos, pos + nl) == ename);
    crate::compression::lemma_parse_name_prefix(data, pos, r.name.inner);
    assert(r.name =~= (NameView { inner: r.name.inner, kind: CompressionType::Domain }));
    assert(parse_name(data, pos) == Some((r.name.inner, pos + nl)));
    let p = pos + nl;
    crate::wire::lemma_embed_byte(data, pos, enc, nl + 0);
    crate::wire::lemma_embed_byte(data, pos, enc, nl + 1);
    crate::wire::lemma_embed_byte(data, pos, enc, nl + 2);
    crate::wire::lemma_embed_byte(data, pos, enc, nl + 3);
    crate::wire::lemma_embed_byte(data, pos, enc, nl + 4);
    crate::wire::lemma_embed_byte(data, pos, enc, nl + 5);
    crate::wire::lemma_embed_byte(data, pos, enc, nl + 6);
    crate::wire::lemma_embed_byte(data, pos, enc, nl + 7);
    crate::wire::lemma_embed_byte(data, pos, enc, nl + 8);
    crate::wire::lemma_embed_byte(data, pos, enc, nl + 9);
    let tb = be16(qtype_code(r.rtype));
    let cb = be16(r.class);
    let lb = be16((r.rdata.len() % 0x10000) as u16);
    let ttlb = be32(r.ttl);
    assert(enc[nl + 0] == tb[0] && enc[nl + 1] == tb[1]);
    assert(enc[nl + 2] == cb[0] && enc[nl + 3] == cb[1]);
    assert(enc[nl + 4] == ttlb[0] && enc[nl + 5] == ttlb[1] && enc[nl + 6] == ttlb[2] && enc[nl
        + 7] == ttlb[3]);
    assert(enc[nl + 8] == lb[0] && enc[nl + 9] == lb[1]);
    crate::wire::lemma_u16_of_be(qtype_code(r.rtype));
    crate::wire::lemma_u16_of_be(r.class);
    crate::wire::lemma_u16_of_be((r.rdata.len() % 0x10000) as u16);
    crate::wire::lemma_u32_of_be(r.ttl);
    assert(data[p + 0] == data[pos + (nl + 0)]);
    assert(data[p + 1] == data[pos + (nl + 1)]);
    assert(data[p + 2] == data[pos + (nl + 2)]);
    assert(data[p + 3] == data[pos + (nl + 3)]);
    assert(data[p + 4] == data[pos + (nl + 4)]);
    assert(data[p + 5] == data[pos + (nl + 5)]);
    assert(data[p + 6] == data[pos + (nl + 6)]);
    assert(data[p + 7] == data[pos + (nl + 7)]);
    assert(data[p + 8] == data[pos + (nl + 8)]);
    assert(data[p + 9] == data[pos + (nl + 9)]);
    assert(u16_of(data[p + 0], data[p + 1]) == qtype_code(r.rtype));
    assert(u16_of(data[p + 2], data[p + 3]) == r.class);
    assert(u32_of(data[p + 4], data[p + 5], data[p + 6], data[p + 7]) == r.ttl);
    assert(u16_of(data[p + 8], data[p + 9]) == (r.rdata.len() % 0x10000) as u16);
    assert((r.rdata.len() % 0x10000) as u16 == r.rdlength);
    crate::wire::lemma_embed_slice(data, pos, enc, nl + 10, enc.len() as int);
    assert(enc.subrange(nl + 10, enc.len() as int) =~= r.rdata);
    assert(data.subrange(pos + (nl + 10), pos + enc.len() as int) == r.rdata);
    assert(data.subrange(p + 10, p + 10 + dl) == r.rdata);
    assert(parse_resource(data, pos) == Some(
        (
            ResourceView {
                name: NameView { inner: r.name.inner, kind: CompressionType::Domain },
                rtype: qtype_of(u16_of(data[p], data[p + 1])),
                class: u16_of(data[p + 2], data[p + 3]),
                ttl: u32_of(data[p + 4], data[p + 5], data[p + 6], data[p + 7]),
                rdlength: u16_of(data[p + 8], data[p + 9]),
                rdata: data.subrange(p + 10, p + 10 + u16_of(data[p + 8], data[p + 9]) as int),
            },
            p + 10 + u16_of(data[p + 8], data[p + 9]) as int,
        ),
    ));
    assert(ResourceView {
        name: NameView { inner: r.name.inner, kind: CompressionType::Domain },
        rtype: qtype_of(u16_of(data[p], data[p + 1])),
        class: u16_of(data[p + 2], data[p + 3]),
        ttl: u32_of(data[p + 4], data[p + 5], data[p + 6], data[p + 7]),
        rdlength: u16_of(data[p + 8], data[p + 9]),
        rdata: data.subrange(p + 10, p + 10 + u16_of(data[p + 8], data[p + 9]) as int),
    } =~= r);
}

} // verus!
