//! Domain names in their flat, dot-separated byte form.
//!
//! A `Domain` holds either the text form of a name (`google.com.` as bytes,
//! one trailing dot per label) or, when the wire form began with a
//! compression pointer, the two raw pointer bytes themselves.

use vstd::prelude::*;

use crate::wire::lemma_embed_byte;
use crate::wire::lemma_embed_slice;
use crate::wire::ParseError;

verus! {

/// True of a byte whose top two bits are set: the start of a compression
/// pointer in the wire format.
pub open spec fn is_ptr_byte(b: u8) -> bool {
    b >> 6 == 3
}

/// True when every byte is ASCII.
pub open spec fn ascii_bytes(s: Seq<u8>) -> bool {
    forall|i: int| 0 <= i < s.len() ==> s[i] < 128
}

/// The characters spelled by a byte sequence, one char per byte.
pub open spec fn chars_of_bytes(s: Seq<u8>) -> Seq<char> {
    Seq::new(s.len(), |i: int| s[i] as char)
}

/// Parses a raw label sequence at `pos`: repeatedly a non-zero length byte
/// followed by that many label bytes, ended by a zero byte (which is
/// consumed). Yields the labels and the position just past the terminator.
pub open spec fn parse_labels(data: Seq<u8>, pos: int) -> Option<(Seq<Seq<u8>>, int)>
    decreases data.len() - pos,
{
    if !(0 <= pos < data.len()) {
        None
    } else if data[pos] == 0 {
        Some((Seq::empty(), pos + 1))
    } else {
        let n = data[pos] as int;
        if pos + 1 + n > data.len() {
            None
        } else {
            match parse_labels(data, pos + 1 + n) {
                Some((rest, end)) => Some(
                    (seq![data.subrange(pos + 1, pos + 1 + n)] + rest, end),
                ),
                None => None,
            }
        }
    }
}

/// The dot-separated text form of a label sequence: each label followed by
/// one `.` byte.
pub open spec fn dotted(labels: Seq<Seq<u8>>) -> Seq<u8>
    decreases labels.len(),
{
    if labels.len() == 0 {
        Seq::empty()
    } else {
        labels[0] + seq![46u8] + dotted(labels.skip(1))
    }
}

pub proof fn lemma_dotted_append(a: Seq<Seq<u8>>, b: Seq<Seq<u8>>)
    ensures
        dotted(a + b) == dotted(a) + dotted(b),
    decreases a.len(),
{
    if a.len() == 0 {
        assert(a + b =~= b);
        assert(dotted(a) + dotted(b) =~= dotted(b));
    } else {
        lemma_dotted_append(a.skip(1), b);
        assert((a + b).skip(1) =~= a.skip(1) + b);
        assert(dotted(a + b) =~= dotted(a) + dotted(b));
    }
}

/// Splits a byte sequence on a separator; always yields one more chunk than
/// there are separators.
pub open spec fn split_bytes(s: Seq<u8>, c: u8) -> Seq<Seq<u8>>
    decreases s.len(),
{
    if s.len() == 0 {
        seq![Seq::empty()]
    } else if s[0] == c {
        seq![Seq::<u8>::empty()] + split_bytes(s.skip(1), c)
    } else {
        let r = split_bytes(s.skip(1), c);
        seq![seq![s[0]] + r[0]] + r.skip(1)
    }
}

pub proof fn lemma_dotted_one(l: Seq<u8>)
    ensures
        dotted(seq![l]) == l + seq![46u8],
{
    assert(seq![l].skip(1) =~= Seq::<Seq<u8>>::empty());
    assert(dotted(Seq::<Seq<u8>>::empty()) == Seq::<u8>::empty());
    assert(dotted(seq![l]) =~= l + seq![46u8]);
}

pub proof fn lemma_split_len(s: Seq<u8>, c: u8)
    ensures
        split_bytes(s, c).len() >= 1,
    decreases s.len(),
{
    if s.len() == 0 {
    } else {
        lemma_split_len(s.skip(1), c);
    }
}

/// The wire form of a chunk list: each chunk length-prefixed, the final
/// (empty) chunk of a dotted name thus becoming the zero terminator.
pub open spec fn enc_chunks(chunks: Seq<Seq<u8>>) -> Seq<u8>
    decreases chunks.len(),
{
    if chunks.len() == 0 {
        Seq::empty()
    } else {
        seq![(chunks[0].len() % 256) as u8] + chunks[0] + enc_chunks(chunks.skip(1))
    }
}

/// The wire form of a stored name: pointer bytes pass through unchanged, a
/// dotted name is split on dots and length-prefixed.
pub open spec fn enc_dotted(s: Seq<u8>) -> Seq<u8> {
    if s.len() > 0 && is_ptr_byte(s[0]) {
        s
    } else {
        enc_chunks(split_bytes(s, 46))
    }
}

/// What reading a name at `pos` yields: the two pointer bytes verbatim if
/// it starts with a pointer, else the dotted form of its labels; paired with
/// the position just past what was consumed.
pub open spec fn name_read_at(data: Seq<u8>, pos: int) -> Option<(Seq<u8>, int)> {
    if !(0 <= pos < data.len()) {
        None
    } else if is_ptr_byte(data[pos]) {
        if pos + 2 <= data.len() {
            Some((seq![data[pos], data[pos + 1]], pos + 2))
        } else {
            None
        }
    } else {
        match parse_labels(data, pos) {
            Some((ls, end)) => Some((dotted(ls), end)),
            None => None,
        }
    }
}

/// Reading a name from the head of a buffer.
pub open spec fn name_read(data: Seq<u8>) -> Option<(Seq<u8>, int)> {
    name_read_at(data, 0)
}

#[derive(Debug, PartialEq)]
pub struct Domain(Vec<u8>);

impl View for Domain {
    type V = Seq<u8>;

    closed spec fn view(&self) -> Seq<u8> {
        self.0@
    }
}

impl Clone for Domain {
    fn clone(&self) -> (res: Self)
        ensures
            res@ == self@,
    {
        Domain(clone_bytes(&self.0))
    }
}

/// Copies a byte vector.
pub fn clone_bytes(v: &Vec<u8>) -> (r: Vec<u8>)
    ensures
        r@ == v@,
{
    let mut r: Vec<u8> = Vec::new();
    let mut i: usize = 0;
    while i < v.len()
        invariant
            i <= v@.len(),
            r@ == v@.subrange(0, i as int),
        decreases v@.len() - i,
    {
        r.push(v[i]);
        i = i + 1;
        proof {
            assert(r@ =~= v@.subrange(0, i as int));
        }
    }
    proof {
        assert(r@ =~= v@);
    }
    r
}

impl Domain {
    /// Wraps a byte vector already in stored form.
    pub fn from(data: Vec<u8>) -> (r: Domain)
        ensures
            r@ == data@,
    {
        Domain(data)
    }

    /// Reads a name from the head of `data`: two verbatim bytes when it
    /// starts with a compression pointer, else the dotted form of the raw
    /// labels up to and including the zero terminator.
    pub fn read(data: &[u8]) -> (r: Result<(usize, Domain), ParseError>)
        ensures
            r is Ok <==> name_read(data@) is Some,
            r matches Ok((end, d)) ==> name_read(data@) == Some((d@, end as int)),
    {
        Self::read_at(data, 0)
    }

    /// Reads a name at `pos` of `data`.
    pub(crate) fn read_at(data: &[u8], pos: usize) -> (r: Result<(usize, Domain), ParseError>)
        ensures
            r is Ok <==> name_read_at(data@, pos as int) is Some,
            r matches Ok((end, d)) ==> name_read_at(data@, pos as int) == Some((d@, end as int)),
    {
        if pos >= data.len() {
            return Err(ParseError);
        }
        let b0 = data[pos];
        if b0 >> 6 == 3 {
            if data.len() - pos >= 2 {
                let mut v: Vec<u8> = Vec::new();
                v.push(b0);
                v.push(data[pos + 1]);
                proof {
                    assert(v@ =~= seq![data@[pos as int], data@[pos + 1]]);
                }
                Ok((pos + 2, Domain(v)))
            } else {
                Err(ParseError)
            }
        } else {
            match Self::read_domain_at(data, pos) {
                Ok((end, v)) => Ok((end, Domain(v))),
                Err(e) => Err(e),
            }
        }
    }

    /// Reads a raw (pointer-free) label sequence from the head of `data`
    /// into dotted text form.
    pub fn read_domain(data: &[u8]) -> (r: Result<(usize, Vec<u8>), ParseError>)
        ensures
            r is Ok <==> parse_labels(data@, 0) is Some,
            r matches Ok((end, v)) ==> parse_labels(data@, 0) matches Some((ls, e)) && v@ == dotted(
                ls,
            ) && end as int == e,
    {
        Self::read_domain_at(data, 0)
    }

    /// Reads a raw label sequence at `pos` of `data` into dotted text form.
    pub(crate) fn read_domain_at(data: &[u8], start: usize) -> (r: Result<
        (usize, Vec<u8>),
        ParseError,
    >)
        ensures
            r is Ok <==> parse_labels(data@, start as int) is Some,
            r matches Ok((end, v)) ==> parse_labels(data@, start as int) matches Some((ls, e))
                && v@ == dotted(ls) && end as int == e,
    {
        let mut pos: usize = start;
        let mut acc: Vec<u8> = Vec::new();
        let ghost mut done: Seq<Seq<u8>> = Seq::empty();
        let len = data.len();
        loop
            invariant
                start <= pos,
                pos <= data@.len() || pos == start,
                len == data@.len(),
                acc@ == dotted(done),
                parse_labels(data@, start as int) == match parse_labels(data@, pos as int) {
                    Some((ls, e)) => Some::<(Seq<Seq<u8>>, int)>((done + ls, e)),
                    None => None::<(Seq<Seq<u8>>, int)>,
                },
            decreases data@.len() - pos,
        {
            if pos >= data.len() {
                return Err(ParseError);
            }
            let b = data[pos];
            if b == 0 {
                proof {
                    assert(parse_labels(data@, pos as int) == Some::<(Seq<Seq<u8>>, int)>(
                        (Seq::empty(), pos + 1),
                    ));
                    assert(done + Seq::<Seq<u8>>::empty() =~= done);
                }
                return Ok((pos + 1, acc));
            }
            let n = b as usize;
            if n > data.len() - pos - 1 {
                return Err(ParseError);
            }
            let ghost label = data@.subrange(pos + 1, pos + 1 + n);
            let ghost done0 = done;
            let mut j: usize = 0;
            while j < n
                invariant
                    j <= n,
                    n >= 1,
                    pos + 1 + n <= len,
                    len == data@.len(),
                    label == data@.subrange(pos + 1, pos + 1 + n),
                    acc@ == dotted(done0) + label.subrange(0, j as int),
                decreases n - j,
            {
                acc.push(data[pos + 1 + j]);
                j = j + 1;
                proof {
                    assert(acc@ =~= dotted(done0) + label.subrange(0, j as int));
                }
            }
            acc.push(46);
            proof {
                assert(label.subrange(0, n as int) =~= label);
                lemma_dotted_append(done0, seq![label]);
                lemma_dotted_one(label);
                assert(acc@ =~= dotted(done0) + (label + seq![46u8]));
                assert(acc@ =~= dotted(done0 + seq![label]));
                done = done0 + seq![label];
                // one parse step: a label of length n, then the rest
                if parse_labels(data@, pos + 1 + n) is Some {
                    let (rest, e) = parse_labels(data@, pos + 1 + n).unwrap();
                    assert(parse_labels(data@, pos as int) == Some::<(Seq<Seq<u8>>, int)>(
                        (seq![label] + rest, e),
                    ));
                    assert(done0 + (seq![label] + rest) =~= done + rest);
                } else {
                    assert(parse_labels(data@, pos as int) is None);
                }
            }
            pos = pos + 1 + n;
        }
    }

    /// Splits the stored bytes on a separator character.
    pub fn split(&self, c: char) -> (r: Vec<Vec<u8>>)
        ensures
            r.deep_view() == split_bytes(self@, c as u8),
    {
        let cb = #[verifier::truncate] (c as u8);
        let ghost s = self@;
        let mut result: Vec<Vec<u8>> = Vec::new();
        let mut cur: Vec<u8> = Vec::new();
        let mut i: usize = 0;
        proof {
            lemma_split_len(s, cb);
            assert(s.skip(0) =~= s);
            assert(result.deep_view() =~~= Seq::<Seq<u8>>::empty());
            assert(split_bytes(s, cb) =~= result.deep_view() + seq![
                cur@ + split_bytes(s.skip(0), cb)[0],
            ] + split_bytes(s.skip(0), cb).skip(1));
        }
        while i < self.0.len()
            invariant
                i <= s.len(),
                s == self@,
                cb == c as u8,
                split_bytes(s.skip(i as int), cb).len() >= 1,
                split_bytes(s, cb) == result.deep_view() + seq![
                    cur@ + split_bytes(s.skip(i as int), cb)[0],
                ] + split_bytes(s.skip(i as int), cb).skip(1),
            decreases s.len() - i,
        {
            let ghost tail = s.skip(i as int);
            let ghost tail1 = s.skip(i + 1);
            let ghost rdv = result.deep_view();
            let ghost curv = cur@;
            proof {
                assert(tail.len() > 0);
                assert(tail[0] == s[i as int]);
                assert(tail.skip(1) =~= tail1);
                lemma_split_len(tail1, cb);
                assert(split_bytes(tail1, cb) =~= seq![split_bytes(tail1, cb)[0]] + split_bytes(
                    tail1,
                    cb,
                ).skip(1));
            }
            let v = self.0[i];
            if v == cb {
                proof {
                    assert(split_bytes(tail, cb) =~= seq![Seq::<u8>::empty()] + split_bytes(
                        tail1,
                        cb,
                    ));
                    assert(split_bytes(tail, cb)[0] =~= Seq::<u8>::empty());
                    assert(split_bytes(tail, cb).skip(1) =~= split_bytes(tail1, cb));
                    assert(curv + Seq::<u8>::empty() =~= curv);
                }
                result.push(cur);
                cur = Vec::new();
                proof {
                    assert(result.deep_view() =~~= rdv.push(curv));
                    assert(split_bytes(s, cb) =~= result.deep_view() + seq![
                        cur@ + split_bytes(tail1, cb)[0],
                    ] + split_bytes(tail1, cb).skip(1));
                }
            } else {
                proof {
                    assert(split_bytes(tail, cb) =~= seq![
                        seq![tail[0]] + split_bytes(tail1, cb)[0],
                    ] + split_bytes(tail1, cb).skip(1));
                    assert(split_bytes(tail, cb)[0] =~= seq![s[i as int]] + split_bytes(
                        tail1,
                        cb,
                    )[0]);
                    assert(split_bytes(tail, cb).skip(1) =~= split_bytes(tail1, cb).skip(1));
                }
                cur.push(v);
                proof {
                    assert(cur@ =~= curv.push(s[i as int]));
                    assert(cur@ + split_bytes(tail1, cb)[0] =~= curv + (seq![s[i as int]]
                        + split_bytes(tail1, cb)[0]));
                    assert(split_bytes(s, cb) =~= result.deep_view() + seq![
                        cur@ + split_bytes(tail1, cb)[0],
                    ] + split_bytes(tail1, cb).skip(1));
                }
            }
            i = i + 1;
        }
        let ghost rdv = result.deep_view();
        let ghost curv = cur@;
        proof {
            assert(s.skip(s.len() as int) =~= Seq::<u8>::empty());
            assert(split_bytes(Seq::<u8>::empty(), cb) =~= seq![Seq::<u8>::empty()]);
            assert(curv + Seq::<u8>::empty() =~= curv);
        }
        result.push(cur);
        proof {
            assert(result.deep_view() =~~= rdv.push(curv));
            assert(result.deep_view() =~~= split_bytes(s, cb));
        }
        result
    }

    /// The wire form of this name: pointer bytes verbatim, else each
    /// dot-separated chunk length-prefixed (the trailing empty chunk of a
    /// fully-qualified name becoming the zero terminator).
    pub fn to_vec(&self) -> (r: Vec<u8>)
        requires
            self@.len() > 0,
        ensures
            r@ == enc_dotted(self@),
    {
        let mut qname: Vec<u8> = Vec::new();
        if self.is_compression() {
            push_all(&mut qname, &self.0);
            return qname;
        }
        let parts = self.split('.');
        let ghost chunks = split_bytes(self@, 46);
        let mut i: usize = 0;
        proof {
            assert(chunks.skip(0) =~= chunks);
        }
        while i < parts.len()
            invariant
                i <= parts@.len(),
                parts.deep_view() == chunks,
                qname@ + enc_chunks(chunks.skip(i as int)) == enc_chunks(chunks),
            decreases parts@.len() - i,
        {
            let ghost rest = chunks.skip(i as int);
            let ghost qv = qname@;
            proof {
                assert(parts@[i as int]@ =~= parts.deep_view()[i as int]);
                assert(rest[0] == chunks[i as int]);
                assert(rest.skip(1) =~= chunks.skip(i + 1));
                assert(enc_chunks(rest) =~= seq![(rest[0].len() % 256) as u8] + rest[0]
                    + enc_chunks(chunks.skip(i + 1)));
            }
            let part = &parts[i];
            qname.push((part.len() % 256) as u8);
            push_all(&mut qname, part);
            proof {
                assert(parts@[i as int]@ == rest[0]);
                assert(qname@ =~= qv + (seq![(rest[0].len() % 256) as u8] + rest[0]));
                assert(qname@ + enc_chunks(chunks.skip(i + 1)) =~= enc_chunks(chunks));
            }
            i = i + 1;
        }
        proof {
            assert(chunks.skip(chunks.len() as int) =~= Seq::<Seq<u8>>::empty());
            assert(qname@ =~= enc_chunks(chunks));
        }
        qname
    }

    /// True when the stored bytes are a compression pointer.
    pub fn is_compression(&self) -> (r: bool)
        requires
            self@.len() > 0,
        ensures
            r == is_ptr_byte(self@[0]),
    {
        self.0[0] >> 6 == 3
    }

    /// The stored bytes as a `String`; the name must be ASCII text.
    pub fn to_string(&self) -> (r: String)
        requires
            ascii_bytes(self@),
        ensures
            r@ == chars_of_bytes(self@),
    {
        ascii_bytes_to_string(&self.0)
    }

    /// The stored bytes.
    pub(crate) fn bytes(&self) -> (r: &Vec<u8>)
        ensures
            r@ == self@,
    {
        &self.0
    }

    /// The number of stored bytes.
    pub fn len(&self) -> (r: usize)
        ensures
            r == self@.len(),
    {
        self.0.len()
    }
}

/// Appends every byte of `src` to `dst`.
fn push_all(dst: &mut Vec<u8>, src: &Vec<u8>)
    ensures
        final(dst)@ == old(dst)@ + src@,
{
    let mut i: usize = 0;
    while i < src.len()
        invariant
            i <= src@.len(),
            dst@ == old(dst)@ + src@.subrange(0, i as int),
        decreases src@.len() - i,
    {
        dst.push(src[i]);
        i = i + 1;
        proof {
            assert(dst@ =~= old(dst)@ + src@.subrange(0, i as int));
        }
    }
    proof {
        assert(old(dst)@ + src@.subrange(0, src@.len() as int) =~= old(dst)@ + src@);
    }
}

/// True when every byte of `v` is ASCII.
pub fn bytes_are_ascii(v: &Vec<u8>) -> (r: bool)
    ensures
        r == ascii_bytes(v@),
{
    let mut i: usize = 0;
    while i < v.len()
        invariant
            i <= v@.len(),
            forall|k: int| 0 <= k < i ==> v@[k] < 128,
        decreases v@.len() - i,
    {
        if v[i] >= 128 {
            return false;
        }
        i = i + 1;
    }
    true
}

/// Relies on `String::from_utf8`: ASCII bytes are valid UTF-8 and decode to
/// the characters with the same codes.
#[verifier::external_body]
fn ascii_bytes_to_string(v: &Vec<u8>) -> (r: String)
    requires
        ascii_bytes(v@),
    ensures
        r@ == chars_of_bytes(v@),
{
    String::from_utf8(v.clone()).unwrap()
}

/// A byte below 192 never has both top bits set, so it is no pointer byte.
pub proof fn lemma_not_ptr_byte(b: u8)
    requires
        b < 192,
    ensures
        !is_ptr_byte(b),
{
    assert(b < 192 ==> b >> 6 != 3) by (bit_vector);
}

/// 192 itself starts a pointer.
pub proof fn lemma_ptr_byte_192()
    ensures
        is_ptr_byte(192),
{
    assert(192u8 >> 6 == 3) by (bit_vector);
}

/// A stored name the encoder reproduces exactly: either the two bytes of a
/// pointer, or dotted text that is fully qualified (ends in a dot), with
/// every label nonempty and at most 63 bytes.
pub open spec fn name_wf(s: Seq<u8>) -> bool {
    ||| (s.len() == 2 && is_ptr_byte(s[0]))
    ||| ({
        let parts = split_bytes(s, 46);
        &&& s.len() > 0
        &&& !is_ptr_byte(s[0])
        &&& parts.last() == Seq::<u8>::empty()
        &&& (forall|i: int| 0 <= i < parts.len() - 1 ==> 1 <= (#[trigger] parts[i]).len() <= 63)
    })
}

/// Joining the split of a fully-qualified name restores the name: each
/// chunk regains its trailing dot, the final empty chunk disappearing into
/// the last dot.
pub proof fn lemma_dotted_split(s: Seq<u8>)
    requires
        split_bytes(s, 46).last() == Seq::<u8>::empty(),
    ensures
        dotted(split_bytes(s, 46).drop_last()) == s,
    decreases s.len(),
{
    let parts = split_bytes(s, 46);
    lemma_split_len(s, 46);
    if s.len() == 0 {
        assert(parts =~= seq![Seq::<u8>::empty()]);
        assert(parts.drop_last() =~= Seq::<Seq<u8>>::empty());
        assert(dotted(parts.drop_last()) =~= s);
    } else if s[0] == 46 {
        let r = split_bytes(s.skip(1), 46);
        lemma_split_len(s.skip(1), 46);
        assert(parts == seq![Seq::<u8>::empty()] + r);
        assert(parts.last() == r.last());
        lemma_dotted_split(s.skip(1));
        assert(parts.drop_last() =~= seq![Seq::<u8>::empty()] + r.drop_last());
        assert((seq![Seq::<u8>::empty()] + r.drop_last()).skip(1) =~= r.drop_last());
        assert(dotted(seq![Seq::<u8>::empty()] + r.drop_last()) =~= seq![46u8] + dotted(
            r.drop_last(),
        ));
        assert(seq![46u8] + s.skip(1) =~= s);
        assert(dotted(parts.drop_last()) =~= s);
    } else {
        let r = split_bytes(s.skip(1), 46);
        lemma_split_len(s.skip(1), 46);
        assert(parts == seq![seq![s[0]] + r[0]] + r.skip(1));
        if r.len() == 1 {
            assert(parts.len() == 1);
            assert(parts.last() == seq![s[0]] + r[0]);
            assert(parts.last().len() >= 1);
            assert(false);
        } else {
            assert(parts.last() == r.skip(1).last());
            assert(r.skip(1).last() == r.last());
            lemma_dotted_split(s.skip(1));
            assert(parts.drop_last() =~= seq![seq![s[0]] + r[0]] + r.skip(1).drop_last());
            assert(r.drop_last() =~= seq![r[0]] + r.skip(1).drop_last());
            assert((seq![seq![s[0]] + r[0]] + r.skip(1).drop_last()).skip(1) =~= r.skip(
                1,
            ).drop_last());
            assert(dotted(seq![seq![s[0]] + r[0]] + r.skip(1).drop_last()) =~= (seq![s[0]] + r[0])
                + seq![46u8] + dotted(r.skip(1).drop_last()));
            assert((seq![r[0]] + r.skip(1).drop_last()).skip(1) =~= r.skip(1).drop_last());
            assert(dotted(seq![r[0]] + r.skip(1).drop_last()) =~= r[0] + seq![46u8] + dotted(
                r.skip(1).drop_last(),
            ));
            assert(s =~= seq![s[0]] + s.skip(1));
            assert(dotted(parts.drop_last()) =~= s);
        }
    }
}

/// Parsing length-prefixed chunks embedded at `pos` yields the labels back:
/// the chunk list must end with the one empty chunk that becomes the zero
/// terminator, every other chunk being 1 to 255 bytes long.
pub proof fn lemma_parse_labels_prefix(data: Seq<u8>, pos: int, ls: Seq<Seq<u8>>)
    requires
        forall|i: int| 0 <= i < ls.len() ==> 1 <= (#[trigger] ls[i]).len() <= 255,
        0 <= pos,
        pos + enc_chunks(ls + seq![Seq::<u8>::empty()]).len() <= data.len(),
        data.subrange(pos, pos + enc_chunks(ls + seq![Seq::<u8>::empty()]).len() as int)
            == enc_chunks(ls + seq![Seq::<u8>::empty()]),
    ensures
        parse_labels(data, pos) == Some(
            (ls, pos + enc_chunks(ls + seq![Seq::<u8>::empty()]).len() as int),
        ),
    decreases ls.len(),
{
    let chunks = ls + seq![Seq::<u8>::empty()];
    let enc = enc_chunks(chunks);
    assert(enc == seq![(chunks[0].len() % 256) as u8] + chunks[0] + enc_chunks(chunks.skip(1)));
    if ls.len() == 0 {
        assert(chunks[0] == Seq::<u8>::empty());
        assert(chunks.skip(1) =~= Seq::<Seq<u8>>::empty());
        assert(enc_chunks(Seq::<Seq<u8>>::empty()) =~= Seq::<u8>::empty());
        assert(enc =~= seq![0u8]);
        lemma_embed_byte(data, pos, enc, 0);
        assert(data[pos + 0] == 0);
        assert(parse_labels(data, pos) == Some((Seq::<Seq<u8>>::empty(), pos + 1)));
        assert(Seq::<Seq<u8>>::empty() =~= ls);
    } else {
        let l = ls[0];
        let n = l.len() as int;
        assert(chunks[0] == l);
        assert((l.len() % 256) as u8 == n as u8);
        let rest = ls.skip(1);
        assert(chunks.skip(1) =~= rest + seq![Seq::<u8>::empty()]);
        let encr = enc_chunks(rest + seq![Seq::<u8>::empty()]);
        assert(enc =~= (seq![n as u8] + l) + encr);
        lemma_embed_byte(data, pos, enc, 0);
        assert(enc[0] == n as u8);
        assert(data[pos + 0] == n as u8);
        lemma_embed_slice(data, pos, enc, 1, 1 + n);
        assert(enc.subrange(1, 1 + n) =~= l);
        assert(data.subrange(pos + 1, pos + 1 + n) == l);
        lemma_embed_slice(data, pos, enc, 1 + n, enc.len() as int);
        assert(enc.subrange(1 + n, enc.len() as int) =~= encr);
        assert(data.subrange(pos + (1 + n), pos + enc.len() as int) == encr);
        assert(data.subrange(pos + 1 + n, pos + 1 + n + encr.len() as int) == encr);
        assert forall|i: int| 0 <= i < rest.len() implies 1 <= (#[trigger] rest[i]).len() <= 255 by {
            assert(rest[i] == ls[i + 1]);
        }
        lemma_parse_labels_prefix(data, pos + 1 + n, rest);
        assert(parse_labels(data, pos + 1 + n) == Some((rest, pos + 1 + n + encr.len() as int)));
        assert(parse_labels(data, pos) == Some(
            (
                seq![data.subrange(pos + 1, pos + 1 + n)] + rest,
                pos + 1 + n + encr.len() as int,
            ),
        ));
        assert(seq![data.subrange(pos + 1, pos + 1 + n)] + rest =~= ls);
        assert(pos + 1 + n + encr.len() as int == pos + enc.len() as int);
    }
}

/// Reading the encoded form of a well-formed name, embedded at `pos` of a
/// larger buffer, yields exactly that name back and stops at its end.
pub proof fn lemma_name_read_prefix(data: Seq<u8>, pos: int, s: Seq<u8>)
    requires
        name_wf(s),
        0 <= pos,
        pos + enc_dotted(s).len() <= data.len(),
        data.subrange(pos, pos + enc_dotted(s).len() as int) == enc_dotted(s),
    ensures
        name_read_at(data, pos) == Some((s, pos + enc_dotted(s).len() as int)),
{
    let enc = enc_dotted(s);
    if s.len() == 2 && is_ptr_byte(s[0]) {
        assert(enc == s);
        lemma_embed_byte(data, pos, enc, 0);
        lemma_embed_byte(data, pos, enc, 1);
        assert(data[pos + 0] == s[0]);
        assert(data[pos + 1] == s[1]);
        assert(name_read_at(data, pos) == Some((seq![data[pos], data[pos + 1]], pos + 2)));
        assert(seq![data[pos], data[pos + 1]] =~= s);
    } else {
        let parts = split_bytes(s, 46);
        lemma_split_len(s, 46);
        let ls = parts.drop_last();
        assert(parts =~= ls + seq![Seq::<u8>::empty()]);
        assert(enc == enc_chunks(ls + seq![Seq::<u8>::empty()]));
        assert(parts.len() >= 2) by {
            if parts.len() == 1 {
                lemma_dotted_split(s);
                assert(parts.drop_last() =~= Seq::<Seq<u8>>::empty());
                assert(dotted(Seq::<Seq<u8>>::empty()) =~= Seq::<u8>::empty());
                assert(s.len() == 0);
            }
        }
        assert forall|i: int| 0 <= i < ls.len() implies 1 <= (#[trigger] ls[i]).len() <= 255 by {
            assert(ls[i] == parts[i]);
        }
        lemma_parse_labels_prefix(data, pos, ls);
        lemma_dotted_split(s);
        assert(dotted(ls) == s);
        assert(enc.len() >= 1) by {
            assert(enc == seq![(parts[0].len() % 256) as u8] + parts[0] + enc_chunks(
                parts.skip(1),
            ));
        }
        lemma_embed_byte(data, pos, enc, 0);
        assert(enc[0] == (parts[0].len() % 256) as u8) by {
            assert(enc == seq![(parts[0].len() % 256) as u8] + parts[0] + enc_chunks(
                parts.skip(1),
            ));
        }
        assert(1 <= parts[0].len() <= 63);
        assert(data[pos + 0] == (parts[0].len() % 256) as u8);
        lemma_not_ptr_byte((parts[0].len() % 256) as u8);
        assert(!is_ptr_byte(data[pos]));
        assert(name_read_at(data, pos) == Some((dotted(ls), pos + enc.len() as int)));
    }
}

} // verus!
