//! The resolver's decision logic: deriving the ancestor-suffix walk of a
//! queried name, consulting the cache along it, and the per-request state
//! machine that chooses each upstream query and builds the final reply.
//! The network itself is driven by the caller; everything here is a
//! function from request bytes, replies and the clock to values.

use vstd::prelude::*;

use crate::cache::Cache;
use crate::domain::ascii_bytes;
use crate::domain::chars_of_bytes;
use crate::domain::Domain;
use crate::header::Header;
use crate::message::encodable;
use crate::message::enc_message;
use crate::message::parse_message;
use crate::message::Message;
use crate::message::MessageView;
use crate::qtype::QType;
use crate::query::Query;
use crate::query::QueryView;
use crate::resource::ResourceView;
use crate::wire::ParseError;

verus! {

/// A name with the trailing dot it may have been missing.
pub open spec fn canon(s: Seq<char>) -> Seq<char> {
    if s.len() > 0 && s[s.len() - 1] == '.' {
        s
    } else {
        s + seq!['.']
    }
}

/// The name with everything up to and including its first dot removed.
pub open spec fn skip_label(s: Seq<char>) -> Seq<char>
    decreases s.len(),
{
    if s.len() == 0 {
        s
    } else if s[0] == '.' {
        s.skip(1)
    } else {
        skip_label(s.skip(1))
    }
}

proof fn lemma_skip_label_len(s: Seq<char>)
    requires
        s.len() > 0,
    ensures
        skip_label(s).len() < s.len(),
    decreases s.len(),
{
    if s[0] != '.' {
        let t = s.skip(1);
        if t.len() > 0 {
            lemma_skip_label_len(t);
        } else {
            assert(skip_label(t).len() == 0);
        }
        assert(skip_label(s) == skip_label(t));
    }
}

/// The ancestor suffixes of a fully-qualified name, most specific first:
/// the name itself, then the name behind its first label, and so on down
/// to the last label; an empty label ends the list.
pub open spec fn suffixes_of(s: Seq<char>) -> Seq<Seq<char>>
    decreases s.len(),
    via suffixes_of_decreases
{
    if s.len() == 0 || s[0] == '.' {
        Seq::empty()
    } else {
        seq![s] + suffixes_of(skip_label(s))
    }
}

#[via_fn]
proof fn suffixes_of_decreases(s: Seq<char>) {
    if s.len() > 0 && s[0] != '.' {
        lemma_skip_label_len(s);
    }
}

/// Where the label starting at the head of `s` ends: `skip_label` drops
/// exactly the bytes up to the first dot.
proof fn lemma_skip_label_at(s: Seq<char>, j: int)
    requires
        0 <= j < s.len(),
        s[j] == '.',
        forall|k: int| 0 <= k < j ==> s[k] != '.',
    ensures
        skip_label(s) == s.skip(j + 1),
    decreases j,
{
    if j == 0 {
    } else {
        lemma_skip_label_at(s.skip(1), j - 1);
        assert(s.skip(1).skip(j) =~= s.skip(j + 1));
    }
}

/// The ordered list of ancestor suffixes of a queried name, the name made
/// fully qualified first: `www.example.com.` yields `www.example.com.`,
/// `example.com.`, `com.`.
pub fn get_domain_list(domain: &str) -> (result: Vec<String>)
    ensures
        result.deep_view() == suffixes_of(canon(domain@)),
{
    let mut d = domain.to_owned();
    let n0 = d.as_str().unicode_len();
    let needs_dot = if n0 == 0 {
        true
    } else {
        d.as_str().get_char(n0 - 1) != '.'
    };
    if needs_dot {
        d.append(".");
        proof {
            reveal_strlit(".");
            assert("."@ =~= seq!['.']);
            assert(d@ =~= canon(domain@));
        }
    }
    let ghost cs = d@;
    proof {
        assert(cs == canon(domain@));
        assert(cs.len() > 0 && cs[cs.len() - 1] == '.');
    }
    let n = d.as_str().unicode_len();
    let mut result: Vec<String> = Vec::new();
    let mut i: usize = 0;
    let ghost mut done: Seq<Seq<char>> = Seq::empty();
    proof {
        assert(cs.skip(0) =~= cs);
        assert(done + suffixes_of(cs) =~= suffixes_of(cs));
    }
    loop
        invariant
            i <= n,
            n == cs.len(),
            cs == d@,
            cs.len() > 0 && cs[cs.len() - 1] == '.',
            result@.len() == done.len(),
            forall|k: int| 0 <= k < done.len() ==> (#[trigger] result@[k])@ == done[k],
            suffixes_of(cs) == done + suffixes_of(cs.skip(i as int)),
        ensures
            suffixes_of(cs) == done,
            result@.len() == done.len(),
            forall|k: int| 0 <= k < done.len() ==> (#[trigger] result@[k])@ == done[k],
        decreases n - i,
    {
        if i >= n {
            proof {
                assert(cs.skip(i as int) =~= Seq::<char>::empty());
                assert(suffixes_of(cs.skip(i as int)) =~= Seq::<Seq<char>>::empty());
            }
            proof {
                assert(done + Seq::<Seq<char>>::empty() =~= done);
            }
            break ;
        }
        let c = d.as_str().get_char(i);
        if c == '.' {
            proof {
                assert(cs.skip(i as int)[0] == '.');
                assert(suffixes_of(cs.skip(i as int)) =~= Seq::<Seq<char>>::empty());
                assert(done + Seq::<Seq<char>>::empty() =~= done);
            }
            break ;
        }
        let suf = d.as_str().substring_char(i, n).to_owned();
        proof {
            assert(suf@ =~= cs.skip(i as int));
        }
        result.push(suf);
        proof {
            done = done + seq![cs.skip(i as int)];
        }
        let mut j: usize = i;
        loop
            invariant
                i <= j < n,
                n == cs.len(),
                cs == d@,
                cs[cs.len() - 1] == '.',
                forall|k: int| i <= k < j ==> cs[k] != '.',
            ensures
                i <= j < n,
                cs[j as int] == '.',
                forall|k: int| i <= k < j ==> cs[k] != '.',
            decreases n - j,
        {
            let c = d.as_str().get_char(j);
            if c == '.' {
                break ;
            }
            proof {
                assert(cs[j as int] != '.');
                assert(cs[n as int - 1] == '.');
                assert(j != n - 1);
            }
            j = j + 1;
        }
        proof {
            let tail = cs.skip(i as int);
            assert(tail[j - i] == cs[j as int]);
            assert forall|k: int| 0 <= k < j - i implies tail[k] != '.' by {
                assert(tail[k] == cs[i + k]);
            }
            lemma_skip_label_at(tail, j - i);
            assert(skip_label(tail) == tail.skip(j - i + 1));
            assert(tail.skip(j - i + 1) =~= cs.skip(j + 1));
            assert(suffixes_of(tail) == seq![tail] + suffixes_of(cs.skip(j + 1)));
            assert(done + suffixes_of(cs.skip(j + 1)) =~= (done.drop_last() + (seq![tail]
                + suffixes_of(cs.skip(j + 1)))));
            assert(suffixes_of(cs) == done + suffixes_of(cs.skip(j + 1)));
        }
        i = j + 1;
    }
    proof {
        assert(suffixes_of(cs) == done);
        assert forall|k: int| 0 <= k < result@.len() implies result.deep_view()[k] == done[k] by {
            assert(result.deep_view()[k] == result@[k]@);
        }
        assert(result.deep_view() =~= suffixes_of(canon(domain@)));
    }
    result
}

/// The bytes an ASCII character sequence spells, one byte per character.
pub open spec fn bytes_of_chars(s: Seq<char>) -> Seq<u8> {
    Seq::new(s.len(), |i: int| s[i] as u8)
}

/// The seed nameserver address the delegation walk starts from: a root
/// server.
pub open spec fn seed_ns() -> Seq<u8> {
    seq![202u8, 12u8, 27u8, 33u8]
}

/// What consulting the cache along the suffix list does: suffixes are
/// tried most specific first; an expired entry is evicted and the suffix
/// kept for the walk, a missing one keeps the suffix too, and the first
/// live entry stops the walk. Yields the cache map afterwards and the
/// suffixes that still need a nameserver query, most specific first.
pub open spec fn walk(
    m: Map<(Seq<char>, QType), crate::cache::RecordView>,
    sufs: Seq<Seq<char>>,
    qtype: QType,
    now: int,
) -> (Map<(Seq<char>, QType), crate::cache::RecordView>, Seq<Seq<char>>)
    decreases sufs.len(),
{
    if sufs.len() == 0 {
        (m, Seq::empty())
    } else {
        let k = (sufs[0], qtype);
        if m.contains_key(k) && !crate::cache::expired(m[k], now) {
            (m, Seq::empty())
        } else {
            let m1 = if m.contains_key(k) {
                m.remove(k)
            } else {
                m
            };
            let stepped = walk(m1, sufs.skip(1), qtype, now);
            (stepped.0, seq![sufs[0]] + stepped.1)
        }
    }
}

/// The last well-shaped glue address in the additional section, or the
/// current one if none matches: every A record whose rdata is exactly four
/// bytes overwrites the address in order.
pub open spec fn glue_ns(ns: Seq<u8>, adds: Seq<ResourceView>) -> Seq<u8>
    decreases adds.len(),
{
    if adds.len() == 0 {
        ns
    } else {
        let ns1 = if adds[0].rtype == QType::A && adds[0].rdata.len() == 4 {
            adds[0].rdata
        } else {
            ns
        };
        glue_ns(ns1, adds.skip(1))
    }
}

/// The state of one request's resolution between upstream exchanges.
pub struct Resolution {
    id: u16,
    qname: Domain,
    qname_string: String,
    qtype: QType,
    suffixes: Vec<String>,
    ns: [u8; 4],
}

/// The state's mathematical content: the original request's id, question
/// and its canonical string, the suffixes still to be walked (root-most
/// first), and the current nameserver address.
#[verifier::ext_equal]
pub ghost struct ResolutionView {
    pub id: u16,
    pub qname: Seq<u8>,
    pub qname_string: Seq<char>,
    pub qtype: QType,
    pub suffixes: Seq<Seq<char>>,
    pub ns: Seq<u8>,
}

impl View for Resolution {
    type V = ResolutionView;

    closed spec fn view(&self) -> ResolutionView {
        ResolutionView {
            id: self.id,
            qname: self.qname@,
            qname_string: self.qname_string@,
            qtype: self.qtype,
            suffixes: self.suffixes.deep_view(),
            ns: self.ns@,
        }
    }
}

/// Validity of a resolution state: an ASCII, nonempty question name whose
/// string form spells the same characters, a four-byte nameserver address,
/// and nonempty ASCII suffixes.
pub open spec fn res_wf(v: ResolutionView) -> bool {
    &&& v.qname.len() > 0
    &&& ascii_bytes(v.qname)
    &&& v.qname_string == chars_of_bytes(v.qname)
    &&& v.ns.len() == 4
    &&& (forall|i: int|
        0 <= i < v.suffixes.len() ==> (#[trigger] v.suffixes[i]).len() > 0
            && vstd::utf8::is_ascii_chars(v.suffixes[i]))
}

impl Resolution {
    /// The address of the nameserver the next query goes to.
    pub fn upstream_ns(&self) -> (r: [u8; 4])
        ensures
            r@ == self@.ns,
    {
        self.ns
    }

    /// The next referral question of the walk: an NS query for the
    /// root-most remaining suffix, or nothing once the walk is done.
    pub fn next_query(&self) -> (r: Option<Query>)
        requires
            res_wf(self@),
        ensures
            r is Some <==> self@.suffixes.len() > 0,
            r matches Some(q) ==> q@ == (QueryView {
                qname: bytes_of_chars(self@.suffixes[0]),
                qtype: QType::NS,
                qclass: 1,
            }) && q@.qname.len() > 0,
    {
        if self.suffixes.len() == 0 {
            return None;
        }
        let sfx = &self.suffixes[0];
        let st = sfx.as_str();
        proof {
            assert(self.suffixes.deep_view()[0] == self.suffixes@[0]@);
            assert(vstd::utf8::is_ascii_chars(st@));
            vstd::string::is_ascii_spec_bytes(st);
        }
        let bytes = st.as_bytes_vec();
        proof {
            assert(bytes@ =~= bytes_of_chars(self@.suffixes[0]));
        }
        Some(Query { qname: Domain::from(bytes), qtype: QType::NS, qclass: 1 })
    }

    /// The final question: the original name and type, class IN.
    pub fn final_query(&self) -> (r: Query)
        requires
            res_wf(self@),
        ensures
            r@ == (QueryView { qname: self@.qname, qtype: self@.qtype, qclass: 1 }),
            r@.qname.len() > 0,
    {
        Query { qname: self.qname.clone(), qtype: self.qtype, qclass: 1 }
    }
}

proof fn lemma_skip_label_ascii(s: Seq<char>)
    requires
        vstd::utf8::is_ascii_chars(s),
    ensures
        vstd::utf8::is_ascii_chars(skip_label(s)),
    decreases s.len(),
{
    if s.len() == 0 {
    } else {
        assert(vstd::utf8::is_ascii_chars(s.skip(1))) by {
            assert forall|i: int|
                0 <= i < s.skip(1).len() implies '\0' <= #[trigger] s.skip(1)[i] <= '\u{7f}' by {
                assert(s.skip(1)[i] == s[i + 1]);
            }
        }
        if s[0] != '.' {
            lemma_skip_label_ascii(s.skip(1));
        }
    }
}

/// Every ancestor suffix of an ASCII name is itself nonempty ASCII text.
proof fn lemma_suffixes_wf(s: Seq<char>)
    requires
        vstd::utf8::is_ascii_chars(s),
    ensures
        forall|i: int|
            0 <= i < suffixes_of(s).len() ==> (#[trigger] suffixes_of(s)[i]).len() > 0
                && vstd::utf8::is_ascii_chars(suffixes_of(s)[i]),
    decreases s.len(),
{
    if s.len() == 0 || s[0] == '.' {
    } else {
        lemma_skip_label_ascii(s);
        lemma_skip_label_len(s);
        lemma_suffixes_wf(skip_label(s));
        assert forall|i: int|
            0 <= i < suffixes_of(s).len() implies (#[trigger] suffixes_of(s)[i]).len() > 0
            && vstd::utf8::is_ascii_chars(suffixes_of(s)[i]) by {
            if i == 0 {
                assert(suffixes_of(s)[0] == s);
            } else {
                assert(suffixes_of(s)[i] == suffixes_of(skip_label(s))[i - 1]);
            }
        }
    }
}

/// A list of strings in reverse order.
fn reverse_strings(v: Vec<String>) -> (r: Vec<String>)
    ensures
        r.deep_view() == v.deep_view().reverse(),
{
    let mut out: Vec<String> = Vec::new();
    let mut t = v.len();
    while t > 0
        invariant
            t <= v@.len(),
            out@.len() == v@.len() - t,
            forall|k: int| 0 <= k < out@.len() ==> (#[trigger] out@[k])@ == v@[v@.len() - 1 - k]@,
        decreases t,
    {
        t = t - 1;
        let it = v[t].clone();
        out.push(it);
    }
    proof {
        assert forall|k: int|
            0 <= k < out@.len() implies out.deep_view()[k] == v.deep_view().reverse()[k] by {
            assert(out.deep_view()[k] == out@[k]@);
            assert(v.deep_view().reverse()[k] == v.deep_view()[v@.len() - 1 - k]);
            assert(v.deep_view()[v@.len() - 1 - k] == v@[v@.len() - 1 - k]@);
        }
        assert(out.deep_view() =~= v.deep_view().reverse());
    }
    out
}

/// A request the resolver takes on rather than drops: it parses, carries a
/// question, and the question's name is nonempty ASCII text.
pub open spec fn begin_ok(data: Seq<u8>) -> bool {
    &&& parse_message(data) is Some
    &&& parse_message(data).unwrap().0.query is Some
    &&& parse_message(data).unwrap().0.query.unwrap().qname.len() > 0
    &&& ascii_bytes(parse_message(data).unwrap().0.query.unwrap().qname)
}

impl Resolution {
    /// Takes a request datagram on: decodes it, derives the ancestor
    /// suffixes of the queried name, consults (and prunes) the cache along
    /// them, and yields the state of the walk that remains — or nothing,
    /// leaving the cache untouched, for a request that must be dropped.
    pub fn begin(request: &[u8], cache: &mut Cache, now: i64) -> (r: Option<Resolution>)
        requires
            old(cache).wf(),
        ensures
            final(cache).wf(),
            r is Some <==> begin_ok(request@),
            r is None ==> final(cache)@ == old(cache)@,
            r matches Some(res) ==> res_wf(res@) && ({
                let m = parse_message(request@).unwrap().0;
                let q = m.query.unwrap();
                let stepped = walk(
                    old(cache)@,
                    suffixes_of(canon(chars_of_bytes(q.qname))),
                    q.qtype,
                    now as int,
                );
                &&& res@.id == m.header.id
                &&& res@.qname == q.qname
                &&& res@.qname_string == chars_of_bytes(q.qname)
                &&& res@.qtype == q.qtype
                &&& res@.suffixes == stepped.1.reverse()
                &&& res@.ns == seed_ns()
                &&& final(cache)@ == stepped.0
            }),
    {
        let (_, msg) = match Message::from_bytes(request) {
            Ok(v) => v,
            Err(_) => {
                return None;
            },
        };
        let q = match msg.query {
            Some(q) => q,
            None => {
                return None;
            },
        };
        if q.qname.len() == 0 {
            return None;
        }
        if !crate::domain::bytes_are_ascii(q.qname.bytes()) {
            return None;
        }
        let qt = q.qtype;
        let qs = q.qname.to_string();
        let list = get_domain_list(qs.as_str());
        let ghost m0 = cache@;
        let ghost sdv = list.deep_view();
        proof {
            assert(sdv == suffixes_of(canon(chars_of_bytes(q.qname@))));
            assert(vstd::utf8::is_ascii_chars(canon(qs@))) by {
                assert forall|i: int|
                    0 <= i < canon(qs@).len() implies '\0' <= #[trigger] canon(qs@)[i]
                    <= '\u{7f}' by {
                    if i < qs@.len() {
                        assert(canon(qs@)[i] == qs@[i]);
                        assert(qs@[i] == q.qname@[i] as char);
                    } else {
                        assert(canon(qs@)[i] == '.');
                    }
                }
            }
            lemma_suffixes_wf(canon(qs@));
        }
        let mut pending: Vec<String> = Vec::new();
        let mut i: usize = 0;
        proof {
            assert(sdv.skip(0) =~= sdv);
            let st = walk(cache@, sdv.skip(0), qt, now as int);
            assert(sdv.take(0) + st.1 =~= st.1);
        }
        loop
            invariant
                cache.wf(),
                i <= sdv.len(),
                sdv == list.deep_view(),
                list@.len() == sdv.len(),
                pending@.len() == i,
                forall|k: int| 0 <= k < i ==> (#[trigger] pending@[k])@ == sdv[k],
                walk(m0, sdv, qt, now as int) == ({
                    let st = walk(cache@, sdv.skip(i as int), qt, now as int);
                    (st.0, sdv.take(i as int) + st.1)
                }),
            ensures
                cache.wf(),
                pending@.len() <= sdv.len(),
                forall|k: int| 0 <= k < pending@.len() ==> (#[trigger] pending@[k])@ == sdv[k],
                walk(m0, sdv, qt, now as int) == (cache@, sdv.take(pending@.len() as int)),
            decreases sdv.len() - i,
        {
            if i >= list.len() {
                proof {
                    assert(sdv.skip(i as int) =~= Seq::<Seq<char>>::empty());
                    let st = walk(cache@, sdv.skip(i as int), qt, now as int);
                    assert(st == (cache@, Seq::<Seq<char>>::empty()));
                    assert(sdv.take(i as int) + Seq::<Seq<char>>::empty() =~= sdv.take(i as int));
                }
                break ;
            }
            let sfx = &list[i];
            proof {
                assert(list.deep_view()[i as int] == list@[i as int]@);
            }
            let hit = cache.resolve_at(sfx, qt, now);
            proof {
                let tail = sdv.skip(i as int);
                assert(tail[0] == sdv[i as int]);
                assert(tail.skip(1) =~= sdv.skip(i + 1));
            }
            match hit {
                Some(_) => {
                    proof {
                        let tail = sdv.skip(i as int);
                        let st = walk(cache@, tail, qt, now as int);
                        assert(st == (cache@, Seq::<Seq<char>>::empty()));
                        assert(sdv.take(i as int) + Seq::<Seq<char>>::empty() =~= sdv.take(
                            i as int,
                        ));
                    }
                    break ;
                },
                None => {
                    proof {
                        let tail = sdv.skip(i as int);
                        let st1 = walk(cache@, sdv.skip(i + 1), qt, now as int);
                        assert(walk(cache@, tail, qt, now as int) == (
                            st1.0,
                            seq![sdv[i as int]] + st1.1,
                        ));
                        assert(sdv.take(i as int) + (seq![sdv[i as int]] + st1.1) =~= sdv.take(
                            i + 1,
                        ) + st1.1);
                    }
                    let it = sfx.clone();
                    pending.push(it);
                    i = i + 1;
                },
            }
        }
        let ghost donep = sdv.take(pending@.len() as int);
        let sufs = reverse_strings(pending);
        let res = Resolution {
            id: msg.header.id,
            qname: q.qname,
            qname_string: qs,
            qtype: qt,
            suffixes: sufs,
            ns: [202, 12, 27, 33],
        };
        proof {
            assert(res@.ns =~= seed_ns());
            assert(res@.suffixes == donep.reverse());
            assert(res_wf(res@)) by {
                assert forall|k: int|
                    0 <= k < res@.suffixes.len() implies (#[trigger] res@.suffixes[k]).len() > 0
                    && vstd::utf8::is_ascii_chars(res@.suffixes[k]) by {
                    assert(res@.suffixes[k] == donep[donep.len() - 1 - k]);
                    assert(donep[donep.len() - 1 - k] == sdv[donep.len() - 1 - k]);
                }
            }
        }
        Some(res)
    }
}

/// A reply the resolver can relay: it parses, and its question name (if it
/// carries one) is nonempty, so the patched reply can be re-encoded.
pub open spec fn finish_ok(reply: Seq<u8>) -> bool {
    &&& parse_message(reply) is Some
    &&& (parse_message(reply).unwrap().0.query matches Some(q) ==> q.qname.len() > 0)
}

impl Resolution {
    /// Absorbs the reply to one referral query: drops the suffix just
    /// asked about and moves to the glue address its additional section
    /// offers, if any well-shaped one is there.
    pub fn take_referral(&mut self, reply: &[u8]) -> (r: Result<(), ParseError>)
        requires
            res_wf(old(self)@),
            old(self)@.suffixes.len() > 0,
        ensures
            res_wf(final(self)@),
            r is Ok <==> parse_message(reply@) is Some,
            r is Err ==> final(self)@ == old(self)@,
            r is Ok ==> final(self)@ == (ResolutionView {
                suffixes: old(self)@.suffixes.skip(1),
                ns: glue_ns(old(self)@.ns, parse_message(reply@).unwrap().0.additional),
                ..old(self)@
            }),
    {
        let (_, msg) = match Message::from_bytes(reply) {
            Ok(v) => v,
            Err(e) => {
                return Err(e);
            },
        };
        self.suffixes.remove(0);
        proof {
            assert forall|k: int|
                0 <= k < self.suffixes.deep_view().len() implies self.suffixes.deep_view()[k]
                == old(self)@.suffixes.skip(1)[k] by {
                assert(self.suffixes.deep_view()[k] == self.suffixes@[k]@);
                assert(self.suffixes@[k] == old(self).suffixes@[k + 1]);
            }
            assert(self.suffixes.deep_view() =~= old(self)@.suffixes.skip(1));
        }
        let ghost adv = msg.additional.deep_view();
        let ghost ns0 = self.ns@;
        let mut i: usize = 0;
        proof {
            assert(adv == parse_message(reply@).unwrap().0.additional);
            assert(adv.skip(0) =~= adv);
        }
        while i < msg.additional.len()
            invariant
                i <= adv.len(),
                adv == msg.additional.deep_view(),
                msg.additional@.len() == adv.len(),
                self.ns@.len() == 4,
                self.id == old(self)@.id,
                self.qname@ == old(self)@.qname,
                self.qname_string@ == old(self)@.qname_string,
                self.qtype == old(self)@.qtype,
                self.suffixes.deep_view() == old(self)@.suffixes.skip(1),
                glue_ns(self.ns@, adv.skip(i as int)) == glue_ns(ns0, adv),
            decreases adv.len() - i,
        {
            let ghost tail = adv.skip(i as int);
            proof {
                assert(tail[0] == adv[i as int]);
                assert(tail.skip(1) =~= adv.skip(i + 1));
                assert(adv[i as int] == msg.additional@[i as int]@);
            }
            let a = &msg.additional[i];
            if a._type == QType::A && a.rdata.len() == 4 {
                self.ns = [a.rdata[0], a.rdata[1], a.rdata[2], a.rdata[3]];
                proof {
                    assert(self.ns@ =~= a.rdata@);
                }
            }
            proof {
                assert(glue_ns(self.ns@, adv.skip(i + 1)) == glue_ns(ns0, adv));
            }
            i = i + 1;
        }
        proof {
            assert(adv.skip(adv.len() as int) =~= Seq::<ResourceView>::empty());
            assert(self.ns@ == glue_ns(ns0, adv));
            assert(final(self)@ =~= (ResolutionView {
                suffixes: old(self)@.suffixes.skip(1),
                ns: glue_ns(old(self)@.ns, parse_message(reply@).unwrap().0.additional),
                ..old(self)@
            }));
            assert(res_wf(final(self)@)) by {
                assert forall|k: int|
                    0 <= k < final(self)@.suffixes.len() implies (
                #[trigger] final(self)@.suffixes[k]).len() > 0 && vstd::utf8::is_ascii_chars(
                    final(self)@.suffixes[k],
                ) by {
                    assert(final(self)@.suffixes[k] == old(self)@.suffixes[k + 1]);
                }
            }
        }
        Ok(())
    }

    /// Absorbs the final answer: re-stamps it with the original request's
    /// transaction id, stores a nonempty answer in the cache under the
    /// original question, and yields the bytes to send back — or an error,
    /// leaving the cache untouched, for a reply that cannot be relayed.
    pub fn finish(&self, reply: &[u8], cache: &mut Cache, now: i64) -> (r: Result<
        Vec<u8>,
        ParseError,
    >)
        requires
            res_wf(self@),
            old(cache).wf(),
        ensures
            final(cache).wf(),
            r is Ok <==> finish_ok(reply@),
            r is Err ==> final(cache)@ == old(cache)@,
            r matches Ok(out) ==> ({
                let m = parse_message(reply@).unwrap().0;
                &&& out@ == enc_message(
                    MessageView { header: Header { id: self@.id, ..m.header }, ..m },
                )
                &&& (m.answer.len() > 0 ==> crate::cache::store_post(
                    old(cache)@,
                    final(cache)@,
                    (self@.qname_string, self@.qtype),
                    crate::cache::CacheDataView {
                        answer: m.answer,
                        authority: m.authority,
                        additional: m.additional,
                    },
                    now as int,
                ))
                &&& (m.answer.len() == 0 ==> final(cache)@ == old(cache)@)
            }),
    {
        let (_, mut msg) = match Message::from_bytes(reply) {
            Ok(v) => v,
            Err(e) => {
                return Err(e);
            },
        };
        let name_ok = match &msg.query {
            Some(q) => q.qname.len() > 0,
            None => true,
        };
        if !name_ok {
            return Err(ParseError);
        }
        msg.header.id = self.id;
        if msg.answer.len() > 0 {
            let dom = self.qname_string.clone();
            let stored = cache.store_at(
                dom,
                self.qtype,
                &msg.answer,
                &msg.authority,
                &msg.additional,
                now,
            );
            proof {
                assert(stored is Ok);
            }
        }
        proof {
            crate::message::lemma_parse_message_encodable(reply@);
            let m = parse_message(reply@).unwrap().0;
            assert(msg@ =~= (MessageView { header: Header { id: self@.id, ..m.header }, ..m }));
            assert(encodable(msg@));
        }
        let out = msg.to_vec();
        Ok(out)
    }
}

} // verus!
