//! A transport that lives in memory: packets are put into lists and taken
//! from lists.

use crate::buffer::{drained, packets_view, BufferKey, Buffers};
use crate::client_authority::Identity;
use crate::tick::Tick;
use vstd::prelude::*;

verus! {

/// The input and output for a client
#[derive(Clone, Debug, Default)]
pub struct ClientMessages {
    /// The input, a list of packet bytes
    pub input: Vec<Vec<u8>>,
    /// The output, a list of channel and bytes
    pub output: Vec<(u8, Vec<u8>)>,
}

impl ClientMessages {
    /// Take the packets that came in, oldest first, each with its sender:
    /// a client hears from the server only.
    pub fn receive_messages(&mut self) -> (r: Vec<(Identity, Vec<u8>)>)
        ensures
            final(self).input@.len() == 0,
            final(self).output == old(self).output,
            r@.len() == old(self).input@.len(),
            forall|i: int|
                0 <= i < r@.len() ==> (#[trigger] r@[i]).0 == Identity::Server && r@[i].1 == old(self).input@[i],
    {
        let mut r: Vec<(Identity, Vec<u8>)> = Vec::new();
        let n = self.input.len();
        let mut i: usize = 0;
        while i < n
            invariant
                0 <= i <= n,
                n == self.input@.len(),
                n == old(self).input@.len(),
                self.output == old(self).output,
                r@.len() == i,
                forall|j: int|
                    0 <= j < i ==> (#[trigger] r@[j]).0 == Identity::Server && r@[j].1 == old(self).input@[j],
                forall|j: int| i <= j < n ==> #[trigger] self.input@[j] == old(self).input@[j],
            decreases n - i,
        {
            let mut packet: Vec<u8> = Vec::new();
            core::mem::swap(&mut packet, &mut self.input[i]);
            r.push((Identity::Server, packet));
            i += 1;
        }
        self.input.clear();
        r
    }

    /// Put packets into the output, each with its channel; they all go to
    /// the server.
    pub fn send_messages(&mut self, msgs: Vec<(BufferKey, Vec<u8>)>)
        ensures
            final(self).input == old(self).input,
            final(self).output@.len() == old(self).output@.len() + msgs@.len(),
            forall|i: int|
                0 <= i < old(self).output@.len() ==> #[trigger] final(self).output@[i] == old(self).output@[i],
            forall|i: int|
                0 <= i < msgs@.len() ==> #[trigger] final(self).output@[old(self).output@.len()
                    + i] == (msgs@[i].0.channel, msgs@[i].1),
    {
        let mut msgs = msgs;
        let ghost given = msgs@;
        let n = msgs.len();
        let mut i: usize = 0;
        while i < n
            invariant
                0 <= i <= n,
                n == msgs@.len(),
                n == given.len(),
                self.input == old(self).input,
                self.output@.len() == old(self).output@.len() + i,
                forall|j: int|
                    0 <= j < old(self).output@.len() ==> #[trigger] self.output@[j] == old(self).output@[j],
                forall|j: int|
                    0 <= j < i ==> #[trigger] self.output@[old(self).output@.len() + j] == (
                        given[j].0.channel,
                        given[j].1,
                    ),
                forall|j: int| i <= j < n ==> #[trigger] msgs@[j] == given[j],
            decreases n - i,
        {
            let channel = msgs[i].0.channel;
            let mut packet: Vec<u8> = Vec::new();
            core::mem::swap(&mut packet, &mut msgs[i].1);
            self.output.push((channel, packet));
            i += 1;
        }
    }
}

/// The input and output for a server
#[derive(Debug, Default)]
pub struct ServerMessages {
    /// The input, a list of client id and bytes
    pub input: Vec<(u32, Vec<u8>)>,
    /// The output, a list of channels, [`Identity`]s and bytes
    pub output: Vec<(u8, Identity, Vec<u8>)>,
}

impl ServerMessages {
    /// Take the packets that came in, oldest first, each with the client
    /// that sent it.
    pub fn receive_messages(&mut self) -> (r: Vec<(Identity, Vec<u8>)>)
        ensures
            final(self).input@.len() == 0,
            final(self).output == old(self).output,
            r@.len() == old(self).input@.len(),
            forall|i: int|
                0 <= i < r@.len() ==> (#[trigger] r@[i]).0 == Identity::Client(
                    old(self).input@[i].0,
                ) && r@[i].1 == old(self).input@[i].1,
    {
        let mut r: Vec<(Identity, Vec<u8>)> = Vec::new();
        let n = self.input.len();
        let mut i: usize = 0;
        while i < n
            invariant
                0 <= i <= n,
                n == self.input@.len(),
                n == old(self).input@.len(),
                self.output == old(self).output,
                r@.len() == i,
                forall|j: int|
                    0 <= j < i ==> (#[trigger] r@[j]).0 == Identity::Client(
                        old(self).input@[j].0,
                    ) && r@[j].1 == old(self).input@[j].1,
                forall|j: int| i <= j < n ==> #[trigger] self.input@[j] == old(self).input@[j],
            decreases n - i,
        {
            let client_id = self.input[i].0;
            let mut packet: Vec<u8> = Vec::new();
            core::mem::swap(&mut packet, &mut self.input[i].1);
            r.push((Identity::Client(client_id), packet));
            i += 1;
        }
        self.input.clear();
        r
    }

    /// Put packets into the output, each with its channel and destination.
    pub fn send_messages(&mut self, msgs: Vec<(BufferKey, Vec<u8>)>)
        ensures
            final(self).input == old(self).input,
            final(self).output@.len() == old(self).output@.len() + msgs@.len(),
            forall|i: int|
                0 <= i < old(self).output@.len() ==> #[trigger] final(self).output@[i] == old(self).output@[i],
            forall|i: int|
                0 <= i < msgs@.len() ==> #[trigger] final(self).output@[old(self).output@.len()
                    + i] == (msgs@[i].0.channel, msgs@[i].0.destination, msgs@[i].1),
    {
        let mut msgs = msgs;
        let ghost given = msgs@;
        let n = msgs.len();
        let mut i: usize = 0;
        while i < n
            invariant
                0 <= i <= n,
                n == msgs@.len(),
                n == given.len(),
                self.input == old(self).input,
                self.output@.len() == old(self).output@.len() + i,
                forall|j: int|
                    0 <= j < old(self).output@.len() ==> #[trigger] self.output@[j] == old(self).output@[j],
                forall|j: int|
                    0 <= j < i ==> #[trigger] self.output@[old(self).output@.len() + j] == (
                        given[j].0.channel,
                        given[j].0.destination,
                        given[j].1,
                    ),
                forall|j: int| i <= j < n ==> #[trigger] msgs@[j] == given[j],
            decreases n - i,
        {
            let channel = msgs[i].0.channel;
            let destination = msgs[i].0.destination;
            let mut packet: Vec<u8> = Vec::new();
            core::mem::swap(&mut packet, &mut msgs[i].1);
            self.output.push((channel, destination, packet));
            i += 1;
        }
    }
}

/// A plugin that adds test functionality to the server
#[derive(Clone, Copy, Debug, Default)]
pub struct TestServerPlugin;

impl TestServerPlugin {
    /// Take the packets that clients sent, oldest first, each with its
    /// sender.
    pub fn receive_messages(&self, messages: &mut ServerMessages) -> (r: Vec<(Identity, Vec<u8>)>)
        ensures
            final(messages).input@.len() == 0,
            final(messages).output == old(messages).output,
            r@.len() == old(messages).input@.len(),
            forall|i: int|
                0 <= i < r@.len() ==> (#[trigger] r@[i]).0 == Identity::Client(
                    old(messages).input@[i].0,
                ) && r@[i].1 == old(messages).input@[i].1,
    {
        messages.receive_messages()
    }

    /// Drain the buffers at `tick` and put every packet into the output.
    pub fn send_buffers(&self, buffers: &mut Buffers, tick: Tick, messages: &mut ServerMessages)
        requires
            old(buffers).wf(),
        ensures
            final(buffers).wf(),
            final(buffers).filled() == (Seq::<(BufferKey, Seq<u8>)>::empty()),
            final(buffers).pending().dom() == old(buffers).pending().dom(),
            forall|k: BufferKey| #[trigger]
                final(buffers).pending().dom().contains(k) ==> final(buffers).pending()[k] == (
                Seq::<u8>::empty()),
            final(messages).input == old(messages).input,
            exists|out: Seq<(BufferKey, Seq<u8>)>|
                {
                    &&& drained(old(buffers).pending(), old(buffers).filled(), tick, out)
                    &&& final(messages).output@.len() == old(messages).output@.len() + out.len()
                    &&& forall|i: int|
                        0 <= i < old(messages).output@.len() ==> #[trigger] final(messages).output@[i] == old(messages).output@[i]
                    &&& forall|i: int|
                        0 <= i < out.len() ==> {
                            let sent = #[trigger] final(messages).output@[old(messages).output@.len() + i];
                            (sent.0, sent.1, sent.2@) == (
                                out[i].0.channel,
                                out[i].0.destination,
                                out[i].1,
                            )
                        }
                },
    {
        let packets = buffers.drain(tick);
        let ghost out = packets_view(packets@);
        messages.send_messages(packets);
        proof {
            assert forall|i: int| 0 <= i < out.len() implies {
                let sent = #[trigger] messages.output@[old(messages).output@.len() + i];
                (sent.0, sent.1, sent.2@) == (out[i].0.channel, out[i].0.destination, out[i].1)
            } by {
                assert(out[i] == (packets@[i].0, packets@[i].1@));
            }
        }
    }
}

/// A plugin that adds test functionality to the client
#[derive(Clone, Copy, Debug, Default)]
pub struct TestClientPlugin;

impl TestClientPlugin {
    /// Take the packets that the server sent, oldest first.
    pub fn receive_messages(&self, messages: &mut ClientMessages) -> (r: Vec<(Identity, Vec<u8>)>)
        ensures
            final(messages).input@.len() == 0,
            final(messages).output == old(messages).output,
            r@.len() == old(messages).input@.len(),
            forall|i: int|
                0 <= i < r@.len() ==> (#[trigger] r@[i]).0 == Identity::Server && r@[i].1 == old(messages).input@[i],
    {
        messages.receive_messages()
    }

    /// Drain the buffers at `tick` and put every packet into the output.
    pub fn send_buffers(&self, buffers: &mut Buffers, tick: Tick, messages: &mut ClientMessages)
        requires
            old(buffers).wf(),
        ensures
            final(buffers).wf(),
            final(buffers).filled() == (Seq::<(BufferKey, Seq<u8>)>::empty()),
            final(buffers).pending().dom() == old(buffers).pending().dom(),
            forall|k: BufferKey| #[trigger]
                final(buffers).pending().dom().contains(k) ==> final(buffers).pending()[k] == (
                Seq::<u8>::empty()),
            final(messages).input == old(messages).input,
            exists|out: Seq<(BufferKey, Seq<u8>)>|
                {
                    &&& drained(old(buffers).pending(), old(buffers).filled(), tick, out)
                    &&& final(messages).output@.len() == old(messages).output@.len() + out.len()
                    &&& forall|i: int|
                        0 <= i < old(messages).output@.len() ==> #[trigger] final(messages).output@[i] == old(messages).output@[i]
                    &&& forall|i: int|
                        0 <= i < out.len() ==> {
                            let sent = #[trigger] final(messages).output@[old(messages).output@.len() + i];
                            (sent.0, sent.1@) == (out[i].0.channel, out[i].1)
                        }
                },
    {
        let packets = buffers.drain(tick);
        let ghost out = packets_view(packets@);
        messages.send_messages(packets);
        proof {
            assert forall|i: int| 0 <= i < out.len() implies {
                let sent = #[trigger] messages.output@[old(messages).output@.len() + i];
                (sent.0, sent.1@) == (out[i].0.channel, out[i].1)
            } by {
                assert(out[i] == (packets@[i].0, packets@[i].1@));
            }
        }
    }
}

} // verus!
