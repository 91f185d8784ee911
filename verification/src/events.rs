//! Events: messages that are no state of an object.

use crate::buffer::{taken_view, BufferKey, Buffers, SendRule, WriteBuffer};
use crate::despawn::{all_targets, everyone};
use crate::iter::Connection;
use crate::packet::{head_bytes, write_event, MessageHead};
use crate::tick::Tick;
use vstd::prelude::*;

verus! {

/// What sending an event works on.
pub ghost struct EventSending {
    /// The bytes that wait in the buffers
    pub pending: Map<BufferKey, Seq<u8>>,
    /// The packets that were cut
    pub filled: Seq<(BufferKey, Seq<u8>)>,
    /// The bytes that wait in the write buffer
    pub buf: Seq<u8>,
}

/// What sending one event does: the head of an event message and the
/// bytes of the event go, as one message on the given channel, to every
/// connection that the rule names.
pub open spec fn event_sent(
    s: EventSending,
    connections: Seq<Connection>,
    tick: Tick,
    channel: u8,
    rule: SendRule,
    packet_id: u8,
    payload: Seq<u8>,
) -> EventSending {
    let view = taken_view(s.pending, s.filled, tick, channel, 0, all_targets(connections)).sent(
        rule,
        0,
        s.buf + head_bytes(MessageHead::Event(packet_id)) + payload,
    ).fragmented();
    EventSending { pending: view.released(), filled: view.filled, buf: Seq::empty() }
}

/// Send an event whose bytes are `payload`, under the packet id of its
/// type.
pub fn send_event(
    buffers: &mut Buffers,
    connections: &Vec<Connection>,
    tick: Tick,
    channel: u8,
    rule: SendRule,
    packet_id: u8,
    payload: &[u8],
    buf: &mut WriteBuffer,
)
    requires
        old(buffers).wf(),
    ensures
        final(buffers).wf(),
        (EventSending {
            pending: final(buffers).pending(),
            filled: final(buffers).filled(),
            buf: final(buf)@,
        }) == event_sent(
            EventSending {
                pending: old(buffers).pending(),
                filled: old(buffers).filled(),
                buf: old(buf)@,
            },
            connections@,
            tick,
            channel,
            rule,
            packet_id,
            payload@,
        ),
{
    let mut taken = buffers.take(tick, channel, 0, everyone(connections));
    write_event(buf, packet_id);
    buf.extend_from_slice(payload);
    taken.send(rule, buf);
    taken.fragment();
    taken.release();
}

} // verus!
