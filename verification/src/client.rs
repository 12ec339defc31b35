//! The compute side of one upstream exchange: building the synthetic
//! request datagram that is sent to a nameserver. The socket send and the
//! bounded wait for the reply are the caller's; the reply bytes come back
//! into the resolver's decision functions.

use vstd::prelude::*;

use crate::header::Header;
use crate::message::enc_message;
use crate::message::Message;
use crate::message::MessageView;
use crate::query::Query;
use crate::query::QueryView;

verus! {

/// The message an upstream request carries: a fixed synthetic transaction
/// id, recursion desired, one question and nothing else. Only the reply
/// sent back to the original client carries the client's own id.
pub open spec fn upstream_view(q: QueryView) -> MessageView {
    MessageView {
        header: Header {
            id: 41693,
            qr: 0,
            opcode: 0,
            aa: 0,
            tc: 0,
            rd: 1,
            ra: 0,
            z: 0,
            ad: 1,
            cd: 0,
            rcode: 0,
            qd_count: 1,
            an_count: 0,
            ns_count: 0,
            ar_count: 0,
        },
        query: Some(q),
        answer: Seq::empty(),
        authority: Seq::empty(),
        additional: Seq::empty(),
    }
}

/// The wire bytes of the synthetic request that asks `query` upstream.
pub fn upstream_request(query: Query) -> (r: Vec<u8>)
    requires
        query.qname@.len() > 0,
    ensures
        r@ == enc_message(upstream_view(query@)),
{
    let message = Message {
        header: Header {
            id: 41693,
            qr: 0,
            opcode: 0,
            aa: 0,
            tc: 0,
            rd: 1,
            ra: 0,
            z: 0,
            ad: 1,
            cd: 0,
            rcode: 0,
            qd_count: 1,
            an_count: 0,
            ns_count: 0,
            ar_count: 0,
        },
        query: Some(query),
        answer: Vec::new(),
        authority: Vec::new(),
        additional: Vec::new(),
    };
    let r = message.to_vec();
    proof {
        assert(message@ =~= upstream_view(message.query.unwrap()@));
    }
    r
}

} // verus!
