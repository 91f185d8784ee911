//! What is decided when packets are handed to a renet transport, and when
//! a renet connection is given its identity.

use crate::buffer::BufferKey;
use crate::client_authority::Identity;
use vstd::prelude::*;

verus! {

/// The identity of the connection that renet knows under `raw`: a client
/// whose id is the lower half of that number.
pub open spec fn identity_of(raw: u64) -> Identity {
    Identity::Client((raw % 0x1_0000_0000) as u32)
}

/// The packets that a server hands to renet, each with the number under
/// which renet knows the client and with its channel. A packet for the
/// server itself goes nowhere.
pub open spec fn server_route(msgs: Seq<(BufferKey, Vec<u8>)>) -> Seq<(u64, u8, Vec<u8>)>
    decreases msgs.len(),
{
    if msgs.len() == 0 {
        Seq::empty()
    } else {
        match msgs.last().0.destination {
            Identity::Client(client_id) => server_route(msgs.drop_last()).push(
                (client_id as u64, msgs.last().0.channel, msgs.last().1),
            ),
            Identity::Server => server_route(msgs.drop_last()),
        }
    }
}

/// A plugin that adds renet support to a server
#[derive(Clone, Copy, Debug, Default)]
pub struct BundlicationRenetServerPlugin;

impl BundlicationRenetServerPlugin {
    /// Who a renet connection is.
    pub fn identity(&self, raw: u64) -> (r: Identity)
        ensures
            r == identity_of(raw),
    {
        Identity::Client((raw % 0x1_0000_0000) as u32)
    }

    /// Which packets go to renet, and to which client and channel.
    pub fn send_messages(&self, msgs: Vec<(BufferKey, Vec<u8>)>) -> (r: Vec<(u64, u8, Vec<u8>)>)
        ensures
            r@ == server_route(msgs@),
    {
        let mut msgs = msgs;
        let ghost given = msgs@;
        let mut r: Vec<(u64, u8, Vec<u8>)> = Vec::new();
        let n = msgs.len();
        let mut i: usize = 0;
        while i < n
            invariant
                0 <= i <= n,
                n == msgs@.len(),
                n == given.len(),
                r@ == server_route(given.subrange(0, i as int)),
                forall|j: int| i <= j < n ==> #[trigger] msgs@[j] == given[j],
            decreases n - i,
        {
            proof {
                assert(given.subrange(0, i + 1).drop_last() =~= given.subrange(0, i as int));
                assert(given.subrange(0, i + 1).last() == given[i as int]);
            }
            let key = msgs[i].0;
            if let Identity::Client(client_id) = key.destination {
                let mut packet: Vec<u8> = Vec::new();
                core::mem::swap(&mut packet, &mut msgs[i].1);
                r.push((client_id as u64, key.channel, packet));
            }
            i += 1;
        }
        proof {
            assert(given.subrange(0, n as int) =~= given);
        }
        r
    }
}

/// A plugin that adds renet support to a client
#[derive(Clone, Copy, Debug, Default)]
pub struct BundlicationRenetClientPlugin;

impl BundlicationRenetClientPlugin {
    /// Which packets go to renet, and on which channel: all of them, since
    /// a client sends to the server only.
    pub fn send_messages(&self, msgs: Vec<(BufferKey, Vec<u8>)>) -> (r: Vec<(u8, Vec<u8>)>)
        ensures
            r@.len() == msgs@.len(),
            forall|i: int|
                0 <= i < msgs@.len() ==> #[trigger] r@[i] == (msgs@[i].0.channel, msgs@[i].1),
    {
        let mut msgs = msgs;
        let ghost given = msgs@;
        let mut r: Vec<(u8, Vec<u8>)> = Vec::new();
        let n = msgs.len();
        let mut i: usize = 0;
        while i < n
            invariant
                0 <= i <= n,
                n == msgs@.len(),
                n == given.len(),
                r@.len() == i,
                forall|j: int| 0 <= j < i ==> #[trigger] r@[j] == (given[j].0.channel, given[j].1),
                forall|j: int| i <= j < n ==> #[trigger] msgs@[j] == given[j],
            decreases n - i,
        {
            let channel = msgs[i].0.channel;
            let mut packet: Vec<u8> = Vec::new();
            core::mem::swap(&mut packet, &mut msgs[i].1);
            r.push((channel, packet));
            i += 1;
        }
        r
    }
}

} // verus!
