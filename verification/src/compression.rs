//! Wire-format names with their compression provenance kept.
//!
//! A name read from a record is a run of raw labels ended either by the zero
//! terminator or by a two-byte compression pointer. Which of the two ended
//! it must survive a decode/encode round trip, so the segments are stored as
//! parsed rather than flattened.

use vstd::prelude::*;

use crate::domain::clone_bytes;
use crate::domain::dotted;
use crate::domain::is_ptr_byte;
use crate::domain::lemma_dotted_append;
use crate::domain::lemma_dotted_one;
use crate::domain::lemma_not_ptr_byte;
use crate::domain::lemma_ptr_byte_192;
use crate::domain::Domain;
use crate::wire::lemma_embed_byte;
use crate::wire::lemma_embed_slice;
use crate::wire::ParseError;

verus! {

#[derive(Debug, PartialEq)]
pub struct CompressionData {
    inner: Vec<DataType>,
    _type: CompressionType,
}

#[derive(Debug, PartialEq)]
pub enum DataType {
    Compression { position: u8 },
    Raw(Vec<u8>),
}

#[derive(Debug, PartialEq, Eq, Structural, Clone, Copy)]
pub enum CompressionType {
    Domain,
    Data,
}

/// One parsed name segment: a raw label, or the trailing pointer.
#[verifier::ext_equal]
pub ghost enum SegView {
    Compression { position: u8 },
    Raw { bytes: Seq<u8> },
}

/// A parsed name: its segments and which encoding rules apply to it.
#[verifier::ext_equal]
pub ghost struct NameView {
    pub inner: Seq<SegView>,
    pub kind: CompressionType,
}

impl View for DataType {
    type V = SegView;

    open spec fn view(&self) -> SegView {
        match self {
            DataType::Compression { position } => SegView::Compression { position: *position },
            DataType::Raw(v) => SegView::Raw { bytes: v@ },
        }
    }
}

impl DeepView for DataType {
    type V = SegView;

    open spec fn deep_view(&self) -> SegView {
        self.view()
    }
}

impl View for CompressionData {
    type V = NameView;

    closed spec fn view(&self) -> NameView {
        NameView { inner: self.inner.deep_view(), kind: self._type }
    }
}

impl Clone for DataType {
    fn clone(&self) -> (res: Self)
        ensures
            res@ == self@,
    {
        match self {
            DataType::Compression { position } => DataType::Compression { position: *position },
            DataType::Raw(v) => DataType::Raw(clone_bytes(v)),
        }
    }
}

impl Clone for CompressionData {
    fn clone(&self) -> (res: Self)
        ensures
            res@ == self@,
    {
        let mut inner: Vec<DataType> = Vec::new();
        let mut i: usize = 0;
        while i < self.inner.len()
            invariant
                i <= self.inner@.len(),
                inner@.len() == i,
                forall|k: int| 0 <= k < i ==> inner@[k]@ == self.inner@[k]@,
            decreases self.inner@.len() - i,
        {
            let it = self.inner[i].clone();
            inner.push(it);
            i = i + 1;
        }
        proof {
            assert forall|k: int| 0 <= k < inner@.len() implies inner.deep_view()[k]
                == self.inner.deep_view()[k] by {
                assert(inner.deep_view()[k] == inner@[k]@);
                assert(self.inner.deep_view()[k] == self.inner@[k]@);
            }
            assert(inner.deep_view() =~= self.inner.deep_view());
        }
        CompressionData { inner, _type: self._type }
    }
}

/// Parses name segments at `pos`: raw labels until either a zero byte
/// (consumed, not kept) or a compression pointer (kept as the final
/// segment; only its second byte names the position, as the encoder always
/// writes `192` for the first).
pub open spec fn parse_name(data: Seq<u8>, pos: int) -> Option<(Seq<SegView>, int)>
    decreases data.len() - pos,
{
    if !(0 <= pos < data.len()) {
        None
    } else if is_ptr_byte(data[pos]) {
        if pos + 2 <= data.len() {
            Some((seq![SegView::Compression { position: data[pos + 1] }], pos + 2))
        } else {
            None
        }
    } else if data[pos] == 0 {
        Some((Seq::empty(), pos + 1))
    } else {
        let n = data[pos] as int;
        if pos + 1 + n > data.len() {
            None
        } else {
            match parse_name(data, pos + 1 + n) {
                Some((rest, end)) => Some(
                    (seq![SegView::Raw { bytes: data.subrange(pos + 1, pos + 1 + n) }] + rest, end),
                ),
                None => None,
            }
        }
    }
}

/// The wire bytes of one segment.
pub open spec fn enc_seg(seg: SegView, kind: CompressionType) -> Seq<u8> {
    match seg {
        SegView::Compression { position } => seq![192u8, position],
        SegView::Raw { bytes } => if kind is Domain {
            seq![(bytes.len() % 256) as u8] + bytes
        } else {
            bytes
        },
    }
}

pub open spec fn enc_segs(segs: Seq<SegView>, kind: CompressionType) -> Seq<u8>
    decreases segs.len(),
{
    if segs.len() == 0 {
        Seq::empty()
    } else {
        enc_seg(segs[0], kind) + enc_segs(segs.skip(1), kind)
    }
}

/// Whether the encoder appends a zero terminator: only a domain-form name
/// whose last segment is a raw label gets one; a name ending in a pointer
/// (and an empty name) does not.
pub open spec fn name_terminated(segs: Seq<SegView>, kind: CompressionType) -> bool {
    kind is Domain && segs.len() > 0 && segs.last() is Raw
}

/// The full wire form of a parsed name.
pub open spec fn enc_name(v: NameView) -> Seq<u8> {
    if name_terminated(v.inner, v.kind) {
        enc_segs(v.inner, v.kind) + seq![0u8]
    } else {
        enc_segs(v.inner, v.kind)
    }
}

impl CompressionData {
    pub fn new(inner: Vec<DataType>, _type: CompressionType) -> (r: CompressionData)
        ensures
            r@ == (NameView { inner: inner.deep_view(), kind: _type }),
    {
        CompressionData { inner, _type }
    }

    /// Reads a domain-form name from the head of `data`.
    pub fn from_domain(data: &[u8]) -> (r: Result<(usize, CompressionData), ParseError>)
        ensures
            r is Ok <==> parse_name(data@, 0) is Some,
            r matches Ok((end, d)) ==> parse_name(data@, 0) matches Some((segs, e)) && d@
                == (NameView { inner: segs, kind: CompressionType::Domain }) && end as int == e,
    {
        Self::from_domain_at(data, 0)
    }

    /// Reads a domain-form name at `pos` of `data`.
    pub(crate) fn from_domain_at(data: &[u8], pos: usize) -> (r: Result<
        (usize, CompressionData),
        ParseError,
    >)
        ensures
            r is Ok <==> parse_name(data@, pos as int) is Some,
            r matches Ok((end, d)) ==> parse_name(data@, pos as int) matches Some((segs, e)) && d@
                == (NameView { inner: segs, kind: CompressionType::Domain }) && end as int == e,
    {
        match read_segments(data, pos) {
            Ok((end, v)) => Ok((end, CompressionData { inner: v, _type: CompressionType::Domain })),
            Err(e) => Err(e),
        }
    }

    /// The wire form of this name: each raw label length-prefixed (domain
    /// form) or verbatim (data form), a pointer as `192` plus its position,
    /// and the zero terminator exactly when the name is a domain-form name
    /// ending in a raw label.
    pub fn into(self) -> (r: Vec<u8>)
        ensures
            r@ == enc_name(self@),
    {
        let is_append_zero: bool = match self._type {
            CompressionType::Domain => match self.inner.last() {
                Some(DataType::Raw(_)) => true,
                _ => false,
            },
            CompressionType::Data => false,
        };
        let ghost segs = self@.inner;
        let ghost kind = self._type;
        let mut result: Vec<u8> = Vec::new();
        let mut i: usize = 0;
        proof {
            assert(segs.skip(0) =~= segs);
        }
        while i < self.inner.len()
            invariant
                i <= self.inner@.len(),
                segs == self.inner.deep_view(),
                kind == self._type,
                result@ + enc_segs(segs.skip(i as int), kind) == enc_segs(segs, kind),
            decreases self.inner@.len() - i,
        {
            let ghost rest = segs.skip(i as int);
            let ghost rv = result@;
            proof {
                assert(rest[0] == segs[i as int]);
                assert(rest.skip(1) =~= segs.skip(i + 1));
                assert(enc_segs(rest, kind) =~= enc_seg(segs[i as int], kind) + enc_segs(
                    segs.skip(i + 1),
                    kind,
                ));
            }
            match &self.inner[i] {
                DataType::Compression { position } => {
                    result.push(192);
                    result.push(*position);
                    proof {
                        assert(result@ =~= rv + enc_seg(segs[i as int], kind));
                    }
                },
                DataType::Raw(v) => {
                    if let CompressionType::Domain = self._type {
                        result.push((v.len() % 256) as u8);
                    }
                    push_bytes_local(&mut result, v);
                    proof {
                        assert(result@ =~= rv + enc_seg(segs[i as int], kind));
                    }
                },
            }
            proof {
                assert(result@ + enc_segs(segs.skip(i + 1), kind) =~= enc_segs(segs, kind));
            }
            i = i + 1;
        }
        proof {
            assert(segs.skip(segs.len() as int) =~= Seq::<SegView>::empty());
            assert(result@ =~= enc_segs(segs, kind));
        }
        if is_append_zero {
            result.push(0);
            proof {
                assert(name_terminated(segs, kind));
                assert(result@ =~= enc_segs(segs, kind) + seq![0u8]);
            }
        } else {
            proof {
                assert(!name_terminated(segs, kind));
            }
        }
        result
    }
}

/// Appends every byte of `src` to `dst`.
fn push_bytes_local(dst: &mut Vec<u8>, src: &Vec<u8>)
    ensures
        final(dst)@ == old(dst)@ + src@,
{
    let mut i: usize = 0;
    while i < src.len()
        invariant
            i <= src@.len(),
            dst@ == old(dst)@ + src@.subrange(0, i as int),
        decreases src@.len() - i,
    {
        dst.push(src[i]);
        i = i + 1;
        proof {
            assert(dst@ =~= old(dst)@ + src@.subrange(0, i as int));
        }
    }
    proof {
        assert(old(dst)@ + src@.subrange(0, src@.len() as int) =~= old(dst)@ + src@);
    }
}

/// Parses name segments at `pos` of `data` into their stored form.
pub(crate) fn read_segments(data: &[u8], pos: usize) -> (r: Result<
    (usize, Vec<DataType>),
    ParseError,
>)
    ensures
        r is Ok <==> parse_name(data@, pos as int) is Some,
        r matches Ok((end, v)) ==> parse_name(data@, pos as int) matches Some((segs, e))
            && v.deep_view() == segs && end as int == e,
{
    let ghost pos0 = pos as int;
    let mut cur: usize = pos;
    let mut acc: Vec<DataType> = Vec::new();
    let ghost mut done: Seq<SegView> = Seq::empty();
    let len = data.len();
    proof {
        if parse_name(data@, pos0) is Some {
            let (segs, e) = parse_name(data@, pos0).unwrap();
            assert(done + segs =~= segs);
        }
    }
    loop
        invariant
            pos0 == pos as int,
            pos0 <= cur,
            cur <= data@.len() || cur == pos0,
            len == data@.len(),
            acc.deep_view() == done,
            parse_name(data@, pos0) == match parse_name(data@, cur as int) {
                Some((segs, e)) => Some::<(Seq<SegView>, int)>((done + segs, e)),
                None => None::<(Seq<SegView>, int)>,
            },
        decreases data@.len() - cur,
    {
        if cur >= len {
            proof {
                assert(parse_name(data@, cur as int) is None);
            }
            return Err(ParseError);
        }
        let b = data[cur];
        if b >> 6 == 3 {
            if len - cur >= 2 {
                let p2 = data[cur + 1];
                acc.push(DataType::Compression { position: p2 });
                proof {
                    assert(parse_name(data@, cur as int) == Some::<(Seq<SegView>, int)>(
                        (seq![SegView::Compression { position: data@[cur + 1] }], cur + 2),
                    ));
                    assert(acc.deep_view() =~= done + seq![
                        SegView::Compression { position: data@[cur + 1] },
                    ]);
                }
                return Ok((cur + 2, acc));
            } else {
                proof {
                    assert(parse_name(data@, cur as int) is None);
                }
                return Err(ParseError);
            }
        } else if b == 0 {
            proof {
                assert(parse_name(data@, cur as int) == Some::<(Seq<SegView>, int)>(
                    (Seq::empty(), cur + 1),
                ));
                assert(done + Seq::<SegView>::empty() =~= done);
            }
            return Ok((cur + 1, acc));
        } else {
            let n = b as usize;
            if n > len - cur - 1 {
                proof {
                    assert(parse_name(data@, cur as int) is None);
                }
                return Err(ParseError);
            }
            let ghost label = data@.subrange(cur + 1, cur + 1 + n);
            let ghost done0 = done;
            let mut lab: Vec<u8> = Vec::new();
            let mut j: usize = 0;
            while j < n
                invariant
                    j <= n,
                    n >= 1,
                    cur + 1 + n <= len,
                    len == data@.len(),
                    label == data@.subrange(cur + 1, cur + 1 + n),
                    lab@ == label.subrange(0, j as int),
                decreases n - j,
            {
                lab.push(data[cur + 1 + j]);
                j = j + 1;
                proof {
                    assert(lab@ =~= label.subrange(0, j as int));
                }
            }
            proof {
                assert(lab@ =~= label);
            }
            acc.push(DataType::Raw(lab));
            proof {
                assert(acc.deep_view() =~= done0 + seq![SegView::Raw { bytes: label }]);
                done = done0 + seq![SegView::Raw { bytes: label }];
                if parse_name(data@, cur + 1 + n) is Some {
                    let (rest, e) = parse_name(data@, cur + 1 + n).unwrap();
                    assert(parse_name(data@, cur as int) == Some::<(Seq<SegView>, int)>(
                        (seq![SegView::Raw { bytes: label }] + rest, e),
                    ));
                    assert(done0 + (seq![SegView::Raw { bytes: label }] + rest) =~= done + rest);
                } else {
                    assert(parse_name(data@, cur as int) is None);
                }
            }
            cur = cur + 1 + n;
        }
    }
}

/// The raw labels among the segments, in order.
pub open spec fn raw_labels(segs: Seq<SegView>) -> Seq<Seq<u8>>
    decreases segs.len(),
{
    if segs.len() == 0 {
        Seq::empty()
    } else {
        match segs[0] {
            SegView::Raw { bytes } => seq![bytes] + raw_labels(segs.skip(1)),
            SegView::Compression { .. } => raw_labels(segs.skip(1)),
        }
    }
}

pub proof fn lemma_raw_labels_append(a: Seq<SegView>, b: Seq<SegView>)
    ensures
        raw_labels(a + b) == raw_labels(a) + raw_labels(b),
    decreases a.len(),
{
    if a.len() == 0 {
        assert(a + b =~= b);
        assert(raw_labels(a) + raw_labels(b) =~= raw_labels(b));
    } else {
        lemma_raw_labels_append(a.skip(1), b);
        assert((a + b).skip(1) =~= a.skip(1) + b);
        assert(raw_labels(a + b) =~= raw_labels(a) + raw_labels(b));
    }
}

/// The fully resolved text of the name at `pos`: its raw labels in dotted
/// form, a trailing pointer replaced by the resolved text at its target.
/// `fuel` bounds how many pointers may be followed, so a pointer cycle
/// resolves to nothing rather than forever.
pub open spec fn resolved_name_fuel(data: Seq<u8>, pos: int, fuel: nat) -> Option<(Seq<u8>, int)>
    decreases fuel,
{
    match parse_name(data, pos) {
        None => None,
        Some((segs, end)) => {
            if segs.len() > 0 && segs.last() is Compression {
                if fuel == 0 {
                    None
                } else {
                    match resolved_name_fuel(data, segs.last()->position as int, (fuel - 1) as nat) {
                        None => None,
                        Some((tail, _)) => Some((dotted(raw_labels(segs)) + tail, end)),
                    }
                }
            } else {
                Some((dotted(raw_labels(segs)), end))
            }
        },
    }
}

/// Resolution with as many pointer hops allowed as the buffer has bytes: a
/// non-cyclic chain can never need more.
pub open spec fn resolved_name(data: Seq<u8>, pos: int) -> Option<(Seq<u8>, int)> {
    resolved_name_fuel(data, pos, data.len())
}

/// Decodes the name at `cursor` with its compression pointers resolved
/// against the same buffer, yielding the dotted text form and the position
/// just past the name itself (a pointer counts two bytes).
pub fn decode_name(data: &[u8], cursor: usize) -> (r: Result<(usize, Domain), ParseError>)
    ensures
        r is Ok <==> resolved_name(data@, cursor as int) is Some,
        r matches Ok((end, d)) ==> resolved_name(data@, cursor as int) == Some((d@, end as int)),
{
    let fuel = data.len();
    match decode_name_rec(data, cursor, fuel) {
        Ok((end, v)) => Ok((end, Domain::from(v))),
        Err(e) => Err(e),
    }
}

fn decode_name_rec(data: &[u8], cursor: usize, fuel: usize) -> (r: Result<
    (usize, Vec<u8>),
    ParseError,
>)
    ensures
        r is Ok <==> resolved_name_fuel(data@, cursor as int, fuel as nat) is Some,
        r matches Ok((end, v)) ==> resolved_name_fuel(data@, cursor as int, fuel as nat) == Some(
            (v@, end as int),
        ),
    decreases fuel,
{
    let (end, segs) = match read_segments(data, cursor) {
        Ok(v) => v,
        Err(e) => {
            return Err(e);
        },
    };
    let ghost segsv = segs.deep_view();
    let mut out: Vec<u8> = Vec::new();
    let mut i: usize = 0;
    let ghost mut done: Seq<SegView> = Seq::empty();
    proof {
        assert(raw_labels(done) =~= Seq::<Seq<u8>>::empty());
        assert(out@ =~= dotted(raw_labels(done)));
    }
    while i < segs.len()
        invariant
            i <= segs@.len(),
            segsv == segs.deep_view(),
            done == segsv.subrange(0, i as int),
            out@ == dotted(raw_labels(done)),
        decreases segs@.len() - i,
    {
        match &segs[i] {
            DataType::Raw(v) => {
                push_bytes_local(&mut out, v);
                out.push(46);
                proof {
                    assert(segsv[i as int] == (SegView::Raw { bytes: v@ }));
                    lemma_raw_labels_append(done, seq![segsv[i as int]]);
                    assert(seq![segsv[i as int]].skip(1) =~= Seq::<SegView>::empty());
                    assert(raw_labels(Seq::<SegView>::empty()) =~= Seq::<Seq<u8>>::empty());
                    assert(raw_labels(seq![segsv[i as int]]) =~= seq![v@]);
                    lemma_dotted_append(raw_labels(done), seq![v@]);
                    lemma_dotted_one(v@);
                    assert(out@ =~= dotted(raw_labels(done)) + (v@ + seq![46u8]));
                    assert(raw_labels(done + seq![segsv[i as int]]) =~= raw_labels(done) + seq![
                        v@,
                    ]);
                    assert(out@ =~= dotted(raw_labels(done + seq![segsv[i as int]])));
                }
            },
            DataType::Compression { .. } => {
                proof {
                    lemma_raw_labels_append(done, seq![segsv[i as int]]);
                    assert(seq![segsv[i as int]].skip(1) =~= Seq::<SegView>::empty());
                    assert(raw_labels(Seq::<SegView>::empty()) =~= Seq::<Seq<u8>>::empty());
                    assert(raw_labels(seq![segsv[i as int]]) =~= Seq::<Seq<u8>>::empty());
                    assert(raw_labels(done + seq![segsv[i as int]]) =~= raw_labels(done));
                }
            },
        }
        proof {
            done = done + seq![segsv[i as int]];
            assert(done =~= segsv.subrange(0, i + 1));
        }
        i = i + 1;
    }
    proof {
        assert(segsv.subrange(0, segsv.len() as int) =~= segsv);
    }
    let has_ptr: bool = match segs.last() {
        Some(DataType::Compression { .. }) => true,
        _ => false,
    };
    proof {
        assert(segs@.len() > 0 ==> segs@.last()@ == segsv.last());
    }
    if has_ptr {
        let position: u8 = match segs.last() {
            Some(DataType::Compression { position }) => *position,
            _ => 0,
        };
        proof {
            assert(segsv.last() == (SegView::Compression { position: position }));
        }
        if fuel == 0 {
            return Err(ParseError);
        }
        match decode_name_rec(data, position as usize, fuel - 1) {
            Ok((_, tail)) => {
                push_bytes_local(&mut out, &tail);
                Ok((end, out))
            },
            Err(e) => Err(e),
        }
    } else {
        Ok((end, out))
    }
}

/// A label the wire format reproduces exactly: nonempty, at most 63 bytes.
pub open spec fn label_wf(l: Seq<u8>) -> bool {
    1 <= l.len() <= 63
}

/// Segments in encodable shape: at least one, every raw label well-formed,
/// and a pointer nowhere but in last place.
pub open spec fn segs_wf(segs: Seq<SegView>) -> bool {
    &&& segs.len() > 0
    &&& (forall|i: int|
        0 <= i < segs.len() ==> ((#[trigger] segs[i]) matches SegView::Raw { bytes } ==> label_wf(
            bytes,
        )))
    &&& (forall|i: int| 0 <= i < segs.len() - 1 ==> (#[trigger] segs[i]) is Raw)
}

/// Parsing the encoded form of well-formed domain-form segments, embedded
/// at `pos` of a larger buffer, yields exactly those segments back and
/// stops exactly at their end.
pub proof fn lemma_parse_name_prefix(data: Seq<u8>, pos: int, segs: Seq<SegView>)
    requires
        segs_wf(segs),
        0 <= pos,
        pos + enc_name(NameView { inner: segs, kind: CompressionType::Domain }).len()
            <= data.len(),
        data.subrange(
            pos,
            pos + enc_name(NameView { inner: segs, kind: CompressionType::Domain }).len() as int,
        ) == enc_name(NameView { inner: segs, kind: CompressionType::Domain }),
    ensures
        parse_name(data, pos) == Some(
            (
                segs,
                pos + enc_name(NameView { inner: segs, kind: CompressionType::Domain }).len()
                    as int,
            ),
        ),
    decreases segs.len(),
{
    let kind = CompressionType::Domain;
    let v = NameView { inner: segs, kind };
    let enc = enc_name(v);
    assert(enc_segs(segs, kind) == enc_seg(segs[0], kind) + enc_segs(segs.skip(1), kind));
    match segs[0] {
        SegView::Compression { position } => {
            assert(segs.len() == 1);
            assert(segs.skip(1) =~= Seq::<SegView>::empty());
            assert(enc_segs(Seq::<SegView>::empty(), kind) =~= Seq::<u8>::empty());
            assert(!name_terminated(segs, kind));
            assert(enc =~= seq![192u8, position]);
            lemma_embed_byte(data, pos, enc, 0);
            lemma_embed_byte(data, pos, enc, 1);
            assert(data[pos] == 192);
            assert(data[pos + 1] == position);
            lemma_ptr_byte_192();
            assert(parse_name(data, pos) == Some(
                (seq![SegView::Compression { position: data[pos + 1] }], pos + 2),
            ));
            assert(seq![SegView::Compression { position: data[pos + 1] }] =~= segs);
        },
        SegView::Raw { bytes } => {
            let n = bytes.len() as int;
            assert(label_wf(bytes));
            assert(enc_seg(segs[0], kind) =~= seq![(bytes.len() % 256) as u8] + bytes);
            assert((bytes.len() % 256) as u8 == n as u8);
            lemma_embed_byte(data, pos, enc, 0);
            if segs.len() == 1 {
                assert(segs.skip(1) =~= Seq::<SegView>::empty());
                assert(enc_segs(Seq::<SegView>::empty(), kind) =~= Seq::<u8>::empty());
                assert(name_terminated(segs, kind));
                assert(enc =~= seq![n as u8] + bytes + seq![0u8]);
                assert(enc[0] == n as u8);
                assert(data[pos] == n as u8);
                lemma_not_ptr_byte(n as u8);
                lemma_embed_slice(data, pos, enc, 1, 1 + n);
                assert(enc.subrange(1, 1 + n) =~= bytes);
                assert(data.subrange(pos + 1, pos + 1 + n) == bytes);
                lemma_embed_byte(data, pos, enc, 1 + n);
                assert(enc[1 + n] == 0);
                assert(data[pos + (1 + n)] == 0);
                lemma_not_ptr_byte(0);
                assert(parse_name(data, pos + 1 + n) == Some(
                    (Seq::<SegView>::empty(), pos + n + 2),
                ));
                assert(parse_name(data, pos) == Some(
                    (
                        seq![SegView::Raw { bytes: data.subrange(pos + 1, pos + 1 + n) }]
                            + Seq::<SegView>::empty(),
                        pos + n + 2,
                    ),
                ));
                assert(seq![SegView::Raw { bytes: data.subrange(pos + 1, pos + 1 + n) }]
                    + Seq::<SegView>::empty() =~= segs);
            } else {
                let rest = segs.skip(1);
                assert forall|i: int|
                    0 <= i < rest.len() implies ((#[trigger] rest[i]) matches SegView::Raw {
                    bytes,
                } ==> label_wf(bytes)) by {
                    assert(rest[i] == segs[i + 1]);
                }
                assert forall|i: int| 0 <= i < rest.len() - 1 implies (#[trigger] rest[i]) is Raw by {
                    assert(rest[i] == segs[i + 1]);
                }
                assert(segs_wf(rest));
                let vr = NameView { inner: rest, kind };
                let evr = enc_name(vr);
                assert(segs.last() == rest.last());
                assert(name_terminated(segs, kind) == name_terminated(rest, kind));
                if name_terminated(segs, kind) {
                    assert(enc =~= (seq![n as u8] + bytes) + (enc_segs(rest, kind) + seq![0u8]));
                    assert(enc =~= (seq![n as u8] + bytes) + evr);
                } else {
                    assert(enc =~= (seq![n as u8] + bytes) + evr);
                }
                assert(enc[0] == n as u8);
                assert(data[pos] == n as u8);
                lemma_not_ptr_byte(n as u8);
                lemma_embed_slice(data, pos, enc, 1, 1 + n);
                assert(enc.subrange(1, 1 + n) =~= bytes);
                assert(data.subrange(pos + 1, pos + 1 + n) == bytes);
                lemma_embed_slice(data, pos, enc, 1 + n, enc.len() as int);
                assert(enc.subrange(1 + n, enc.len() as int) =~= evr);
                assert(data.subrange(pos + (1 + n), pos + enc.len() as int) == evr);
                assert(data.subrange(pos + 1 + n, pos + 1 + n + evr.len() as int) == evr);
                lemma_parse_name_prefix(data, pos + 1 + n, rest);
                assert(parse_name(data, pos + 1 + n) == Some(
                    (rest, pos + 1 + n + evr.len() as int),
                ));
                assert(parse_name(data, pos) == Some(
                    (
                        seq![SegView::Raw { bytes: data.subrange(pos + 1, pos + 1 + n) }] + rest,
                        pos + 1 + n + evr.len() as int,
                    ),
                ));
                assert(seq![SegView::Raw { bytes: data.subrange(pos + 1, pos + 1 + n) }] + rest
                    =~= segs);
                assert(pos + 1 + n + evr.len() as int == pos + enc.len() as int);
            }
        },
    }
}

/// A successful name parse consumes at least one byte and never reads past
/// the buffer.
pub proof fn lemma_parse_name_bounds(data: Seq<u8>, pos: int)
    requires
        parse_name(data, pos) is Some,
    ensures
        pos < parse_name(data, pos).unwrap().1 <= data.len(),
    decreases data.len() - pos,
{
    if 0 <= pos < data.len() && !is_ptr_byte(data[pos]) && data[pos] != 0 {
        let n = data[pos] as int;
        if pos + 1 + n <= data.len() && parse_name(data, pos + 1 + n) is Some {
            lemma_parse_name_bounds(data, pos + 1 + n);
        }
    }
}

/// Re-encoding what was parsed gives back exactly the bytes that were
/// consumed, provided the name was not empty and any pointer began with the
/// plain `192` byte (the encoder always writes that byte, keeping only the
/// low eight position bits of a pointer).
pub proof fn lemma_name_reencode(data: Seq<u8>, pos: int, segs: Seq<SegView>, end: int)
    requires
        parse_name(data, pos) == Some((segs, end)),
        segs.len() > 0,
        segs.last() is Compression ==> data[end - 2] == 192,
    ensures
        enc_name(NameView { inner: segs, kind: CompressionType::Domain }) == data.subrange(
            pos,
            end,
        ),
    decreases segs.len(),
{
    let kind = CompressionType::Domain;
    let v = NameView { inner: segs, kind };
    assert(0 <= pos < data.len());
    if is_ptr_byte(data[pos]) {
        assert(segs =~= seq![SegView::Compression { position: data[pos + 1] }]);
        assert(end == pos + 2);
        assert(segs.last() is Compression);
        assert(data[pos] == 192);
        assert(segs.skip(1) =~= Seq::<SegView>::empty());
        assert(enc_segs(Seq::<SegView>::empty(), kind) =~= Seq::<u8>::empty());
        assert(!name_terminated(segs, kind));
        assert(enc_name(v) =~= data.subrange(pos, end));
    } else {
        assert(data[pos] != 0);
        let n = data[pos] as int;
        let bytes = data.subrange(pos + 1, pos + 1 + n);
        let tail = parse_name(data, pos + 1 + n);
        assert(parse_name(data, pos) == (match parse_name(data, pos + 1 + n) {
            Some((rest0, end0)) => Some::<(Seq<SegView>, int)>(
                (seq![SegView::Raw { bytes }] + rest0, end0),
            ),
            None => None::<(Seq<SegView>, int)>,
        }));
        assert(tail is Some);
        let (rest, e2) = tail.unwrap();
        assert(segs == seq![SegView::Raw { bytes }] + rest);
        assert(e2 == end);
        assert(segs[0] == (SegView::Raw { bytes }));
        assert(rest =~= segs.skip(1));
        assert(bytes.len() == n);
        assert((bytes.len() % 256) as u8 == data[pos]);
        assert(enc_seg(segs[0], kind) =~= seq![data[pos]] + bytes);
        assert(enc_segs(segs, kind) == enc_seg(segs[0], kind) + enc_segs(segs.skip(1), kind));
        if rest.len() == 0 {
            assert(data[pos + 1 + n] == 0 && end == pos + n + 2) by {
                assert(tail == parse_name(data, pos + 1 + n));
                assert(tail == Some((rest, e2)));
                assert(0 <= pos + 1 + n < data.len());
                if is_ptr_byte(data[pos + 1 + n]) {
                    assert(rest.len() == 1);
                    assert(false);
                }
                if data[pos + 1 + n] != 0 {
                    assert(rest.len() >= 1);
                    assert(false);
                }
            }
            assert(enc_segs(segs.skip(1), kind) =~= Seq::<u8>::empty());
            assert(segs.last() == (SegView::Raw { bytes }));
            assert(name_terminated(segs, kind));
            assert(enc_name(v) =~= (seq![data[pos]] + bytes) + seq![0u8]);
            assert forall|k: int| 0 <= k < n + 2 implies enc_name(v)[k] == data.subrange(
                pos,
                end,
            )[k] by {
                if k == 0 {
                } else if k < 1 + n {
                    assert(enc_name(v)[k] == bytes[k - 1]);
                    assert(bytes[k - 1] == data[pos + 1 + (k - 1)]);
                } else {
                    assert(enc_name(v)[k] == 0);
                }
                assert(data.subrange(pos, end)[k] == data[pos + k]);
            }
            assert(enc_name(v) =~= data.subrange(pos, end));
        } else {
            assert(segs.last() == rest.last()) by {
                assert(segs.last() == segs[segs.len() - 1]);
                assert(segs.len() - 1 >= 1);
            }
            lemma_parse_name_bounds(data, pos + 1 + n);
            assert(pos + 1 + n < end <= data.len());
            lemma_name_reencode(data, pos + 1 + n, rest, end);
            let vr = NameView { inner: rest, kind };
            let evr = enc_name(vr);
            assert(evr == data.subrange(pos + 1 + n, end));
            assert(evr.len() == end - (pos + 1 + n));
            assert(name_terminated(segs, kind) == name_terminated(rest, kind));
            assert(enc_segs(rest, kind) == enc_segs(segs.skip(1), kind));
            if name_terminated(segs, kind) {
                assert(enc_name(v) =~= (enc_seg(segs[0], kind) + enc_segs(rest, kind)) + seq![
                    0u8,
                ]);
                assert(evr =~= enc_segs(rest, kind) + seq![0u8]);
                assert(enc_name(v) =~= (seq![data[pos]] + bytes) + evr);
            } else {
                assert(enc_name(v) =~= (seq![data[pos]] + bytes) + evr);
            }
            assert forall|k: int| 0 <= k < end - pos implies enc_name(v)[k] == data.subrange(
                pos,
                end,
            )[k] by {
                assert(enc_name(v) == (seq![data[pos]] + bytes) + evr);
                if k == 0 {
                } else if k < 1 + n {
                    assert(enc_name(v)[k] == bytes[k - 1]);
                    assert(bytes[k - 1] == data[pos + 1 + (k - 1)]);
                } else {
                    assert(enc_name(v)[k] == evr[k - (1 + n)]);
                    assert(evr[k - (1 + n)] == data.subrange(pos + 1 + n, end)[k - (1 + n)]);
                    assert(data.subrange(pos + 1 + n, end)[k - (1 + n)] == data[pos + 1 + n + (k
                        - (1 + n))]);
                }
                assert(data.subrange(pos, end)[k] == data[pos + k]);
            }
            assert(enc_name(v) =~= data.subrange(pos, end));
        }
    }
}

} // verus!
