//! What the cutting of buffers into packets guarantees, message by message.

use crate::buffer::{newer_than, SendRule, TakenView, CAP, THRESHOLD};
use vstd::prelude::*;

verus! {

/// The bytes of a list of messages, one after the other.
pub open spec fn flat(messages: Seq<Seq<u8>>) -> Seq<u8>
    decreases messages.len(),
{
    if messages.len() == 0 {
        Seq::empty()
    } else {
        flat(messages.drop_last()) + messages.last()
    }
}

/// The messages of a list of packets, one packet after the other.
pub open spec fn join(packets: Seq<Seq<Seq<u8>>>) -> Seq<Seq<u8>>
    decreases packets.len(),
{
    if packets.len() == 0 {
        Seq::empty()
    } else {
        join(packets.drop_last()) + packets.last()
    }
}

/// A message as a recipient gets it between two fragment points: its bytes,
/// and how many of them were registered as overhead.
pub ghost struct Written {
    /// The bytes of the message
    pub bytes: Seq<u8>,
    /// The overhead that was registered while it was written
    pub overhead: nat,
}

/// The messages that are not dropped: those with more bytes than their
/// overhead.
pub open spec fn kept(messages: Seq<Written>) -> Seq<Seq<u8>>
    decreases messages.len(),
{
    if messages.len() == 0 {
        Seq::empty()
    } else if messages.last().bytes.len() > messages.last().overhead {
        kept(messages.drop_last()).push(messages.last().bytes)
    } else {
        kept(messages.drop_last())
    }
}

/// A recipient's buffer and the payloads cut from it so far, byte by byte.
pub ghost struct Cutting {
    /// The buffer
    pub buffer: TakenView,
    /// The payloads of the packets cut so far, oldest first
    pub payloads: Seq<Seq<u8>>,
}

/// What becomes of a recipient's buffer when the messages are written to it
/// one by one, each followed by a fragment point.
pub open spec fn cutting(start: TakenView, messages: Seq<Written>) -> Cutting
    decreases messages.len(),
{
    if messages.len() == 0 {
        Cutting { buffer: start, payloads: Seq::empty() }
    } else {
        let before = cutting(start, messages.drop_last());
        let message = messages.last();
        let written = TakenView { bytes: before.buffer.bytes + message.bytes, ..before.buffer };
        Cutting {
            buffer: written.fragmented(message.overhead),
            payloads: before.payloads + written.cut(message.overhead),
        }
    }
}

/// The same, message by message: the messages that wait, and the packets
/// cut so far, each a list of whole messages.
pub ghost struct Grouping {
    /// The messages that wait in the buffer
    pub waiting: Seq<Seq<u8>>,
    /// The packets cut so far, oldest first
    pub packets: Seq<Seq<Seq<u8>>>,
}

/// The grouping after one more message.
pub open spec fn group_step(g: Grouping, message: Written) -> Grouping {
    let held = flat(g.waiting).len();
    let len = held + message.bytes.len();
    if message.bytes.len() <= message.overhead {
        g
    } else if len < THRESHOLD {
        Grouping { waiting: g.waiting.push(message.bytes), ..g }
    } else if len < CAP || held == 0 {
        Grouping { waiting: Seq::empty(), packets: g.packets.push(g.waiting.push(message.bytes)) }
    } else if message.bytes.len() >= THRESHOLD {
        Grouping {
            waiting: Seq::empty(),
            packets: g.packets.push(g.waiting).push(seq![message.bytes]),
        }
    } else {
        Grouping { waiting: seq![message.bytes], packets: g.packets.push(g.waiting) }
    }
}

/// The grouping of a list of messages written to an empty buffer.
pub open spec fn grouping(messages: Seq<Written>) -> Grouping
    decreases messages.len(),
{
    if messages.len() == 0 {
        Grouping { waiting: Seq::empty(), packets: Seq::empty() }
    } else {
        group_step(grouping(messages.drop_last()), messages.last())
    }
}

proof fn lemma_flat_push(messages: Seq<Seq<u8>>, message: Seq<u8>)
    ensures
        flat(messages.push(message)) == flat(messages) + message,
        flat(seq![message]) == message,
        flat(Seq::<Seq<u8>>::empty()) == Seq::<u8>::empty(),
{
    assert(messages.push(message).drop_last() =~= messages);
    assert(flat(Seq::<Seq<u8>>::empty()) =~= Seq::<u8>::empty());
    assert(seq![message].drop_last() =~= Seq::<Seq<u8>>::empty());
    assert(seq![message].last() == message);
    assert(flat(seq![message]) =~= message);
}

proof fn lemma_join_push(packets: Seq<Seq<Seq<u8>>>, packet: Seq<Seq<u8>>)
    ensures
        join(packets.push(packet)) == join(packets) + packet,
{
    assert(packets.push(packet).drop_last() =~= packets);
}

/// No packet boundary falls inside a message, and no packet of several
/// messages reaches the cap. When messages are written to an empty buffer,
/// each followed by a fragment point: the payload of every packet is a
/// list of whole messages; the packets and then the buffer hold the
/// messages that were not dropped, each once and in the order written; a
/// packet that reaches the cap holds one message; and what waits in the
/// buffer stays below the threshold.
pub proof fn lemma_fragmentation_atomic(start: TakenView, messages: Seq<Written>)
    requires
        start.bytes.len() == 0,
        start.mark == 0,
    ensures
        cutting(start, messages).payloads == grouping(messages).packets.map_values(
            |p: Seq<Seq<u8>>| flat(p),
        ),
        cutting(start, messages).buffer.bytes == flat(grouping(messages).waiting),
        cutting(start, messages).buffer.mark == cutting(start, messages).buffer.bytes.len(),
        join(grouping(messages).packets) + grouping(messages).waiting == kept(messages),
        forall|i: int|
            0 <= i < grouping(messages).packets.len() ==> {
                let p = #[trigger] grouping(messages).packets[i];
                p.len() >= 1 && (p.len() == 1 || flat(p).len() < CAP)
            },
        flat(grouping(messages).waiting).len() < THRESHOLD,
    decreases messages.len(),
{
    let by_flat = |p: Seq<Seq<u8>>| flat(p);
    if messages.len() == 0 {
        assert(start.bytes =~= Seq::<u8>::empty());
        assert(cutting(start, messages).payloads =~= grouping(messages).packets.map_values(
            by_flat,
        ));
        assert(join(grouping(messages).packets) + grouping(messages).waiting =~= kept(messages));
    } else {
        let init = messages.drop_last();
        let message = messages.last();
        lemma_fragmentation_atomic(start, init);
        let before = cutting(start, init);
        let g = grouping(init);
        let written = TakenView { bytes: before.buffer.bytes + message.bytes, ..before.buffer };
        let after = cutting(start, messages);
        let h = grouping(messages);
        let held = flat(g.waiting).len();
        let len = held + message.bytes.len();
        lemma_flat_push(g.waiting, message.bytes);
        assert(written.bytes.len() == len);
        assert(written.mark == held);
        assert(written.bytes.subrange(0, held as int) =~= flat(g.waiting));
        assert(written.bytes.subrange(held as int, len as int) =~= message.bytes);
        if message.bytes.len() <= message.overhead {
            assert(after.payloads =~= before.payloads);
            assert(after.buffer.bytes =~= before.buffer.bytes);
        } else if len < THRESHOLD {
            assert(after.payloads =~= before.payloads);
            assert(join(h.packets) + h.waiting =~= kept(messages));
        } else if len < CAP || held == 0 {
            lemma_join_push(g.packets, g.waiting.push(message.bytes));
            assert(after.payloads =~= h.packets.map_values(by_flat));
            assert(after.buffer.bytes =~= flat(h.waiting));
            assert(join(h.packets) + h.waiting =~= kept(messages));
            if held == 0 && g.waiting.len() > 0 {
                lemma_flat_nonempty(g.waiting, init);
            }
        } else if message.bytes.len() >= THRESHOLD {
            lemma_join_push(g.packets, g.waiting);
            lemma_join_push(g.packets.push(g.waiting), seq![message.bytes]);
            assert(after.payloads =~= h.packets.map_values(by_flat));
            assert(after.buffer.bytes =~= flat(h.waiting));
            assert(join(h.packets) + h.waiting =~= kept(messages));
            if g.waiting.len() == 0 {
                assert(g.waiting =~= Seq::<Seq<u8>>::empty());
            }
        } else {
            lemma_join_push(g.packets, g.waiting);
            assert(after.payloads =~= h.packets.map_values(by_flat));
            assert(join(h.packets) + h.waiting =~= kept(messages));
            if g.waiting.len() == 0 {
                assert(g.waiting =~= Seq::<Seq<u8>>::empty());
            }
        }
    }
}

/// Every message that waits holds at least one byte.
proof fn lemma_flat_nonempty(waiting: Seq<Seq<u8>>, messages: Seq<Written>)
    requires
        waiting == grouping(messages).waiting,
        waiting.len() > 0,
    ensures
        flat(waiting).len() > 0,
    decreases messages.len(),
{
    if messages.len() > 0 {
        let g = grouping(messages.drop_last());
        let message = messages.last();
        lemma_flat_push(g.waiting, message.bytes);
        if message.bytes.len() <= message.overhead {
            lemma_flat_nonempty(waiting, messages.drop_last());
        }
    }
}

/// No redundant sends: a recipient that has acknowledged change tick `b`
/// gets no byte of a message whose data last changed at `c <= b`, whatever
/// the rule says.
pub proof fn lemma_no_redundant_send(
    recipient: TakenView,
    rule: SendRule,
    changed: u32,
    this_run: u32,
    message: Seq<u8>,
)
    requires
        recipient.last_ack is Some,
        changed <= recipient.last_ack->Some_0 <= this_run,
    ensures
        !newer_than(changed, recipient.last_ack->Some_0, this_run),
        recipient.sent(rule, changed, this_run, message) == recipient,
{
}

/// A recipient that has acknowledged nothing gets every message whose rule
/// names it.
pub proof fn lemma_new_recipient_gets_all(
    recipient: TakenView,
    rule: SendRule,
    changed: u32,
    this_run: u32,
    message: Seq<u8>,
)
    requires
        recipient.last_ack is None,
        rule.admits(recipient.destination),
    ensures
        recipient.sent(rule, changed, this_run, message).bytes == recipient.bytes + message,
{
}

} // verus!
