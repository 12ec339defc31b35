//! The fixed 12-byte message header: transaction id, the packed 16-bit flag
//! word, and the four section counts.

use vstd::prelude::*;

use crate::wire::be16;
use crate::wire::read_u16;
use crate::wire::u16_of;
use crate::wire::ParseError;
use crate::wire::push_u16;

verus! {

#[derive(Debug, PartialEq, Eq, Structural, Clone, Copy)]
pub struct Header {
    pub id: u16,
    pub qr: u8,
    pub opcode: u8,
    pub aa: u8,
    pub tc: u8,
    pub rd: u8,
    pub ra: u8,
    pub z: u8,
    pub ad: u8,
    pub cd: u8,
    pub rcode: u8,
    pub qd_count: u16,
    pub an_count: u16,
    pub ns_count: u16,
    pub ar_count: u16,
}

/// The header fields read from a flag word and the five other 16-bit values.
pub open spec fn header_of(id: u16, flag: u16, qd: u16, an: u16, ns: u16, ar: u16) -> Header {
    Header {
        id,
        qr: if flag & 0x8000 != 0 {
            1
        } else {
            0
        },
        opcode: ((flag >> 11) & 0xF) as u8,
        aa: if flag & 0x0400 != 0 {
            1
        } else {
            0
        },
        tc: if flag & 0x0200 != 0 {
            1
        } else {
            0
        },
        rd: if flag & 0x0100 != 0 {
            1
        } else {
            0
        },
        ra: if flag & 0x0080 != 0 {
            1
        } else {
            0
        },
        z: if flag & 0x0040 != 0 {
            1
        } else {
            0
        },
        ad: if flag & 0x0020 != 0 {
            1
        } else {
            0
        },
        cd: if flag & 0x0010 != 0 {
            1
        } else {
            0
        },
        rcode: (flag & 0xF) as u8,
        qd_count: qd,
        an_count: an,
        ns_count: ns,
        ar_count: ar,
    }
}

/// The packed flag word of a header.
pub open spec fn flags_word(h: Header) -> u16 {
    ((h.qr as u16) << 15) | ((h.opcode as u16) << 11) | ((h.aa as u16) << 10) | ((h.tc as u16) << 9)
        | ((h.rd as u16) << 8) | ((h.ra as u16) << 7) | ((h.z as u16) << 6) | ((h.ad as u16) << 5)
        | ((h.cd as u16) << 4) | (h.rcode as u16)
}

/// The flag fields lie in the ranges their bit widths allow: each single-bit
/// flag is 0 or 1, the two four-bit codes are below 16.
pub open spec fn header_wf(h: Header) -> bool {
    h.qr <= 1 && h.opcode <= 15 && h.aa <= 1 && h.tc <= 1 && h.rd <= 1 && h.ra <= 1 && h.z <= 1
        && h.ad <= 1 && h.cd <= 1 && h.rcode <= 15
}

/// Parses the 12 header bytes at `pos`.
pub open spec fn parse_header(data: Seq<u8>, pos: int) -> Option<(Header, int)> {
    if pos < 0 || pos + 12 > data.len() {
        None
    } else {
        Some(
            (
                header_of(
                    u16_of(data[pos], data[pos + 1]),
                    u16_of(data[pos + 2], data[pos + 3]),
                    u16_of(data[pos + 4], data[pos + 5]),
                    u16_of(data[pos + 6], data[pos + 7]),
                    u16_of(data[pos + 8], data[pos + 9]),
                    u16_of(data[pos + 10], data[pos + 11]),
                ),
                pos + 12,
            ),
        )
    }
}

/// The 12 wire bytes of a header.
pub open spec fn enc_header(h: Header) -> Seq<u8> {
    be16(h.id) + be16(flags_word(h)) + be16(h.qd_count) + be16(h.an_count) + be16(h.ns_count)
        + be16(h.ar_count)
}

impl Header {
    /// Reads a header from the head of `data`.
    pub fn read(data: &[u8]) -> (r: Result<(usize, Header), ParseError>)
        ensures
            r is Ok <==> parse_header(data@, 0) is Some,
            r matches Ok((end, h)) ==> parse_header(data@, 0) == Some((h, end as int)),
    {
        Self::read_at(data, 0)
    }

    /// Reads a header at `pos` of `data`.
    pub(crate) fn read_at(data: &[u8], pos: usize) -> (r: Result<(usize, Header), ParseError>)
        ensures
            r is Ok <==> parse_header(data@, pos as int) is Some,
            r matches Ok((end, h)) ==> parse_header(data@, pos as int) == Some((h, end as int)),
    {
        let (id, p) = match read_u16(data, pos) {
            Ok(v) => v,
            Err(e) => {
                return Err(e);
            },
        };
        let (flag, p) = match read_u16(data, p) {
            Ok(v) => v,
            Err(e) => {
                return Err(e);
            },
        };
        let (qd_count, p) = match read_u16(data, p) {
            Ok(v) => v,
            Err(e) => {
                return Err(e);
            },
        };
        let (an_count, p) = match read_u16(data, p) {
            Ok(v) => v,
            Err(e) => {
                return Err(e);
            },
        };
        let (ns_count, p) = match read_u16(data, p) {
            Ok(v) => v,
            Err(e) => {
                return Err(e);
            },
        };
        let (ar_count, p) = match read_u16(data, p) {
            Ok(v) => v,
            Err(e) => {
                return Err(e);
            },
        };
        proof {
            assert(((flag >> 11) & 0xF) <= 15) by (bit_vector);
            assert((flag & 0xF) <= 15) by (bit_vector);
        }
        let qr: u8 = if flag & 0x8000 != 0 {
            1
        } else {
            0
        };
        let opcode: u8 = ((flag >> 11) & 0xF) as u8;
        let aa: u8 = if flag & 0x0400 != 0 {
            1
        } else {
            0
        };
        let tc: u8 = if flag & 0x0200 != 0 {
            1
        } else {
            0
        };
        let rd: u8 = if flag & 0x0100 != 0 {
            1
        } else {
            0
        };
        let ra: u8 = if flag & 0x0080 != 0 {
            1
        } else {
            0
        };
        let z: u8 = if flag & 0x0040 != 0 {
            1
        } else {
            0
        };
        let ad: u8 = if flag & 0x0020 != 0 {
            1
        } else {
            0
        };
        let cd: u8 = if flag & 0x0010 != 0 {
            1
        } else {
            0
        };
        let rcode: u8 = (flag & 0xF) as u8;
        Ok(
            (
                p,
                Header {
                    id,
                    qr,
                    opcode,
                    aa,
                    tc,
                    rd,
                    ra,
                    z,
                    ad,
                    cd,
                    rcode,
                    qd_count,
                    an_count,
                    ns_count,
                    ar_count,
                },
            ),
        )
    }

    /// The 12 wire bytes of this header: id, packed flags, counts.
    pub fn to_vec(&self) -> (r: Vec<u8>)
        ensures
            r@ == enc_header(*self),
    {
        let flag: u16 = ((self.qr as u16) << 15u16) | ((self.opcode as u16) << 11u16) | ((
        self.aa as u16) << 10u16) | ((self.tc as u16) << 9u16) | ((self.rd as u16) << 8u16) | ((
        self.ra as u16) << 7u16) | ((self.z as u16) << 6u16) | ((self.ad as u16) << 5u16) | ((
        self.cd as u16) << 4u16) | (self.rcode as u16);
        let mut v: Vec<u8> = Vec::new();
        push_u16(&mut v, self.id);
        push_u16(&mut v, flag);
        push_u16(&mut v, self.qd_count);
        push_u16(&mut v, self.an_count);
        push_u16(&mut v, self.ns_count);
        push_u16(&mut v, self.ar_count);
        proof {
            assert(v@ =~= enc_header(*self));
        }
        v
    }
}

/// Packing a well-formed header's flags and reading them back yields the
/// same fields.
pub proof fn lemma_flags_roundtrip(h: Header)
    requires
        header_wf(h),
    ensures
        header_of(h.id, flags_word(h), h.qd_count, h.an_count, h.ns_count, h.ar_count) == h,
{
    let w = flags_word(h);
    let qr = h.qr;
    let opcode = h.opcode;
    let aa = h.aa;
    let tc = h.tc;
    let rd = h.rd;
    let ra = h.ra;
    let z = h.z;
    let ad = h.ad;
    let cd = h.cd;
    let rcode = h.rcode;
    assert((if w & 0x8000 != 0 {
        1u8
    } else {
        0u8
    }) == qr && ((w >> 11) & 0xF) == opcode && (if w & 0x0400 != 0 {
        1u8
    } else {
        0u8
    }) == aa && (if w & 0x0200 != 0 {
        1u8
    } else {
        0u8
    }) == tc && (if w & 0x0100 != 0 {
        1u8
    } else {
        0u8
    }) == rd && (if w & 0x0080 != 0 {
        1u8
    } else {
        0u8
    }) == ra && (if w & 0x0040 != 0 {
        1u8
    } else {
        0u8
    }) == z && (if w & 0x0020 != 0 {
        1u8
    } else {
        0u8
    }) == ad && (if w & 0x0010 != 0 {
        1u8
    } else {
        0u8
    }) == cd && (w & 0xF) == rcode) by (bit_vector)
        requires
            w == ((qr as u16) << 15) | ((opcode as u16) << 11) | ((aa as u16) << 10) | ((
            tc as u16) << 9) | ((rd as u16) << 8) | ((ra as u16) << 7) | ((z as u16) << 6) | ((
            ad as u16) << 5) | ((cd as u16) << 4) | (rcode as u16),
            qr <= 1 && opcode <= 15 && aa <= 1 && tc <= 1 && rd <= 1 && ra <= 1 && z <= 1 && ad
                <= 1 && cd <= 1 && rcode <= 15,
    ;
}

/// The full header round trip: parsing the encoded bytes of a well-formed
/// header gives the header back and consumes exactly its 12 bytes.
pub proof fn lemma_header_roundtrip(h: Header)
    requires
        header_wf(h),
    ensures
        parse_header(enc_header(h), 0) == Some((h, 12int)),
{
    let data = enc_header(h);
    assert(data.len() == 12);
    crate::wire::lemma_u16_of_be(h.id);
    crate::wire::lemma_u16_of_be(flags_word(h));
    crate::wire::lemma_u16_of_be(h.qd_count);
    crate::wire::lemma_u16_of_be(h.an_count);
    crate::wire::lemma_u16_of_be(h.ns_count);
    crate::wire::lemma_u16_of_be(h.ar_count);
    assert(u16_of(data[0], data[1]) == h.id);
    assert(u16_of(data[2], data[3]) == flags_word(h));
    assert(u16_of(data[4], data[5]) == h.qd_count);
    assert(u16_of(data[6], data[7]) == h.an_count);
    assert(u16_of(data[8], data[9]) == h.ns_count);
    assert(u16_of(data[10], data[11]) == h.ar_count);
    lemma_flags_roundtrip(h);
}

/// Parsing the encoded bytes of a well-formed header, embedded at `pos`,
/// gives the header back and consumes its 12 bytes.
pub proof fn lemma_parse_header_prefix(data: Seq<u8>, pos: int, h: Header)
    requires
        header_wf(h),
        0 <= pos,
        pos + 12 <= data.len(),
        data.subrange(pos, pos + 12) == enc_header(h),
    ensures
        parse_header(data, pos) == Some((h, pos + 12)),
{
    let enc = enc_header(h);
    assert(enc.len() == 12);
    assert forall|k: int| 0 <= k < 12 implies data[pos + k] == enc[k] by {
        crate::wire::lemma_embed_byte(data, pos, enc, k);
    }
    assert(enc[0] == be16(h.id)[0] && enc[1] == be16(h.id)[1]);
    assert(enc[2] == be16(flags_word(h))[0] && enc[3] == be16(flags_word(h))[1]);
    assert(enc[4] == be16(h.qd_count)[0] && enc[5] == be16(h.qd_count)[1]);
    assert(enc[6] == be16(h.an_count)[0] && enc[7] == be16(h.an_count)[1]);
    assert(enc[8] == be16(h.ns_count)[0] && enc[9] == be16(h.ns_count)[1]);
    assert(enc[10] == be16(h.ar_count)[0] && enc[11] == be16(h.ar_count)[1]);
    crate::wire::lemma_u16_of_be(h.id);
    crate::wire::lemma_u16_of_be(flags_word(h));
    crate::wire::lemma_u16_of_be(h.qd_count);
    crate::wire::lemma_u16_of_be(h.an_count);
    crate::wire::lemma_u16_of_be(h.ns_count);
    crate::wire::lemma_u16_of_be(h.ar_count);
    assert(u16_of(data[pos + 0], data[pos + 1]) == h.id);
    assert(u16_of(data[pos + 2], data[pos + 3]) == flags_word(h));
    assert(u16_of(data[pos + 4], data[pos + 5]) == h.qd_count);
    assert(u16_of(data[pos + 6], data[pos + 7]) == h.an_count);
    assert(u16_of(data[pos + 8], data[pos + 9]) == h.ns_count);
    assert(u16_of(data[pos + 10], data[pos + 11]) == h.ar_count);
    lemma_flags_roundtrip(h);
}

} // verus!
