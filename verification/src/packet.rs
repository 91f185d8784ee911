//! The bytes of a packet: a tick, then messages, each behind a byte that
//! says what it is.

use crate::buffer::WriteBuffer;
use crate::identifier::Identifier;
use crate::tick::{from_le_bytes, le_bytes, lemma_le_bytes_roundtrip};
use vstd::prelude::*;

verus! {

/// The byte before a despawn message; also the byte that ends an entity
/// message.
pub const DESPAWN: u8 = 0;

/// The byte before an entity message.
pub const ENTITY: u8 = 1;

/// The byte before an event message.
pub const EVENT: u8 = 2;

/// The five bytes of an identifier: its type, then its number, least
/// significant byte first.
pub open spec fn identifier_bytes(id: Identifier) -> Seq<u8> {
    seq![id.entity_type] + le_bytes(id.id)
}

/// The identifier that five bytes stand for.
pub open spec fn identifier_of(bytes: Seq<u8>) -> Identifier
    recommends
        bytes.len() >= 5,
{
    Identifier { entity_type: bytes[0], id: from_le_bytes(bytes.subrange(1, 5)) }
}

/// The bytes of an identifier stand for that identifier.
pub proof fn lemma_identifier_roundtrip(id: Identifier, rest: Seq<u8>)
    ensures
        identifier_bytes(id).len() == 5,
        identifier_of(identifier_bytes(id) + rest) == id,
{
    lemma_le_bytes_roundtrip(id.id);
    assert((identifier_bytes(id) + rest).subrange(1, 5) =~= le_bytes(id.id));
}

/// `bincode::serialize` on the pair of an identifier's type and number:
/// one byte for the type, then the four bytes of the number, least
/// significant first. Writing integers of fixed size into a vector does not
/// fail.
#[verifier::external_body]
fn bincode_identifier(entity_type: u8, id: u32) -> (r: Vec<u8>)
    ensures
        r@ == identifier_bytes(Identifier { entity_type, id }),
{
    bincode::serialize(&(entity_type, id)).unwrap_or_default()
}

/// `bincode::deserialize` for a pair of a `u8` and a `u32`: the first byte
/// and the number of the four bytes after it, whatever follows them; an
/// error where there are fewer than five bytes.
#[verifier::external_body]
fn bincode_read_identifier(bytes: &[u8]) -> (r: Option<(u8, u32)>)
    ensures
        r == (if bytes@.len() >= 5 {
            Some((identifier_of(bytes@).entity_type, identifier_of(bytes@).id))
        } else {
            None
        }),
{
    bincode::deserialize::<(u8, u32)>(bytes).ok()
}

/// What a message begins with.
#[derive(Clone, Copy, Debug, PartialEq, Eq, Structural)]
pub enum MessageHead {
    /// The object with this identifier is to be despawned
    Despawn(Identifier),
    /// Groups of the object with this identifier follow, up to a zero byte
    Entity(Identifier),
    /// The event with this packet id follows
    Event(u8),
}

/// The bytes that a message begins with.
pub open spec fn head_bytes(head: MessageHead) -> Seq<u8> {
    match head {
        MessageHead::Despawn(id) => seq![DESPAWN] + identifier_bytes(id),
        MessageHead::Entity(id) => seq![ENTITY] + identifier_bytes(id),
        MessageHead::Event(packet_id) => seq![EVENT, packet_id],
    }
}

/// What reading the start of a message yields.
#[derive(Clone, Copy, Debug, PartialEq, Eq, Structural)]
pub enum Step {
    /// The packet has ended
    End,
    /// The bytes are no message: the rest of the packet is dropped
    Malformed,
    /// A message begins
    Message(MessageHead),
}

/// What reading the start of a group yields, inside an entity message.
#[derive(Clone, Copy, Debug, PartialEq, Eq, Structural)]
pub enum GroupStep {
    /// The entity message has ended
    End,
    /// The packet ended inside the entity message
    Malformed,
    /// The group with this packet id follows
    Group(u8),
}

/// The message that begins at `pos`.
pub open spec fn step_at(bytes: Seq<u8>, pos: int) -> Step {
    if pos >= bytes.len() {
        Step::End
    } else if bytes[pos] == DESPAWN {
        if pos + 6 <= bytes.len() {
            Step::Message(MessageHead::Despawn(identifier_of(bytes.subrange(pos + 1, pos + 6))))
        } else {
            Step::Malformed
        }
    } else if bytes[pos] == ENTITY {
        if pos + 6 <= bytes.len() {
            Step::Message(MessageHead::Entity(identifier_of(bytes.subrange(pos + 1, pos + 6))))
        } else {
            Step::Malformed
        }
    } else if bytes[pos] == EVENT {
        if pos + 2 <= bytes.len() && bytes[pos + 1] != 0 {
            Step::Message(MessageHead::Event(bytes[pos + 1]))
        } else {
            Step::Malformed
        }
    } else {
        Step::Malformed
    }
}

/// Where the reader stands after the message head at `pos`: behind it, or
/// where it stood if there is none.
pub open spec fn after_step(bytes: Seq<u8>, pos: int) -> int {
    match step_at(bytes, pos) {
        Step::Message(head) => pos + head_bytes(head).len(),
        _ => pos,
    }
}

/// The group that begins at `pos`.
pub open spec fn group_at(bytes: Seq<u8>, pos: int) -> GroupStep {
    if pos >= bytes.len() {
        GroupStep::Malformed
    } else if bytes[pos] == 0 {
        GroupStep::End
    } else {
        GroupStep::Group(bytes[pos])
    }
}

/// What was written is what is read: a message head, whatever follows it,
/// is read as that head, and the reader then stands behind it. An event
/// needs a packet id other than zero.
pub proof fn lemma_head_roundtrip(before: Seq<u8>, head: MessageHead, rest: Seq<u8>)
    requires
        head is Event ==> head->Event_0 != 0,
    ensures
        step_at(before + head_bytes(head) + rest, before.len() as int) == Step::Message(head),
        after_step(before + head_bytes(head) + rest, before.len() as int) == before.len()
            + head_bytes(head).len(),
{
    let bytes = before + head_bytes(head) + rest;
    let pos = before.len() as int;
    match head {
        MessageHead::Despawn(id) => {
            lemma_identifier_roundtrip(id, Seq::empty());
            assert(bytes[pos] == DESPAWN);
            assert(bytes.subrange(pos + 1, pos + 6) =~= identifier_bytes(id) + Seq::<u8>::empty());
        },
        MessageHead::Entity(id) => {
            lemma_identifier_roundtrip(id, Seq::empty());
            assert(bytes[pos] == ENTITY);
            assert(bytes.subrange(pos + 1, pos + 6) =~= identifier_bytes(id) + Seq::<u8>::empty());
        },
        MessageHead::Event(packet_id) => {
            assert(bytes[pos] == EVENT);
            assert(bytes[pos + 1] == packet_id);
        },
    }
}

/// The bytes of the groups of an entity message: for each group its packet
/// id and then its payload.
pub open spec fn groups_bytes(groups: Seq<(u8, Seq<u8>)>) -> Seq<u8>
    decreases groups.len(),
{
    if groups.len() == 0 {
        Seq::empty()
    } else {
        groups_bytes(groups.drop_last()) + seq![groups.last().0] + groups.last().1
    }
}

/// The bytes of two lists of groups, one after the other, are the bytes of
/// the lists joined.
pub proof fn lemma_groups_bytes_join(a: Seq<(u8, Seq<u8>)>, b: Seq<(u8, Seq<u8>)>)
    ensures
        groups_bytes(a + b) == groups_bytes(a) + groups_bytes(b),
    decreases b.len(),
{
    if b.len() == 0 {
        assert(a + b =~= a);
        assert(groups_bytes(a) + groups_bytes(b) =~= groups_bytes(a));
    } else {
        lemma_groups_bytes_join(a, b.drop_last());
        assert((a + b).drop_last() =~= a + b.drop_last());
        assert((a + b).last() == b.last());
        assert(groups_bytes(a + b) =~= groups_bytes(a) + groups_bytes(b));
    }
}

/// The byte that ends an entity message is never taken for a group, since
/// no packet id is zero. In an entity message whose groups all have a
/// packet id other than zero, a reader that has stepped over the first `k`
/// groups reads the packet id of the next group, with the payload of that
/// group behind it; and behind the last group it reads the end.
pub proof fn lemma_groups_roundtrip(
    before: Seq<u8>,
    groups: Seq<(u8, Seq<u8>)>,
    rest: Seq<u8>,
    k: int,
)
    requires
        0 <= k <= groups.len(),
        forall|i: int| 0 <= i < groups.len() ==> (#[trigger] groups[i]).0 != 0,
    ensures
        ({
            let bytes = before + groups_bytes(groups) + seq![0u8] + rest;
            let pos = (before.len() + groups_bytes(groups.subrange(0, k)).len()) as int;
            &&& k == groups.len() ==> group_at(bytes, pos) == GroupStep::End
            &&& k < groups.len() ==> {
                &&& group_at(bytes, pos) == GroupStep::Group(groups[k].0)
                &&& pos + 1 + groups[k].1.len() <= bytes.len()
                &&& bytes.subrange(pos + 1, pos + 1 + groups[k].1.len()) == groups[k].1
                &&& pos + 1 + groups[k].1.len() == before.len() + groups_bytes(
                    groups.subrange(0, k + 1),
                ).len()
            }
        }),
{
    let bytes = before + groups_bytes(groups) + seq![0u8] + rest;
    let done = groups.subrange(0, k);
    let left = groups.subrange(k, groups.len() as int);
    let pos = (before.len() + groups_bytes(done).len()) as int;
    assert(groups =~= done + left);
    lemma_groups_bytes_join(done, left);
    if k == groups.len() {
        assert(left =~= Seq::<(u8, Seq<u8>)>::empty());
        assert(groups_bytes(left) =~= Seq::<u8>::empty());
        assert(bytes[pos] == 0);
    } else {
        let next = seq![groups[k]];
        let after = groups.subrange(k + 1, groups.len() as int);
        assert(left =~= next + after);
        lemma_groups_bytes_join(next, after);
        assert(next.drop_last() =~= Seq::<(u8, Seq<u8>)>::empty());
        assert(groups_bytes(next.drop_last()) =~= Seq::<u8>::empty());
        assert(groups_bytes(next) =~= seq![groups[k].0] + groups[k].1);
        assert(groups.subrange(0, k + 1) =~= done + next);
        lemma_groups_bytes_join(done, next);
        assert(bytes[pos] == groups[k].0);
        assert(bytes.subrange(pos + 1, pos + 1 + groups[k].1.len()) =~= groups[k].1);
    }
}

/// A reader that walks the bytes of a packet from front to back.
pub struct Cursor<'a> {
    bytes: &'a [u8],
    pos: usize,
}

impl<'a> Cursor<'a> {
    /// The bytes that are read.
    pub closed spec fn bytes(&self) -> Seq<u8> {
        self.bytes@
    }

    /// How many bytes have been read.
    pub closed spec fn pos(&self) -> int {
        self.pos as int
    }

    /// The reader stands within the bytes or at their end.
    pub closed spec fn wf(&self) -> bool {
        self.pos <= self.bytes@.len()
    }

    /// A reader that stands behind the first `start` bytes, or at the end
    /// if there are fewer.
    pub fn new(bytes: &'a [u8], start: usize) -> (r: Cursor<'a>)
        ensures
            r.wf(),
            r.bytes() == bytes@,
            r.pos() == (if start <= bytes@.len() {
                start as int
            } else {
                bytes@.len() as int
            }),
    {
        let pos = if start <= bytes.len() {
            start
        } else {
            bytes.len()
        };
        Cursor { bytes, pos }
    }

    /// How many bytes have been read.
    pub fn position(&self) -> (r: usize)
        ensures
            r == self.pos(),
    {
        self.pos
    }

    /// The bytes that are still to be read.
    pub fn remaining(&self) -> (r: &[u8])
        requires
            self.wf(),
        ensures
            r@ == self.bytes().subrange(self.pos(), self.bytes().len() as int),
    {
        vstd::slice::slice_subrange(self.bytes, self.pos, self.bytes.len())
    }

    /// Step over `n` bytes, if there are that many.
    pub fn advance(&mut self, n: usize) -> (r: bool)
        requires
            old(self).wf(),
        ensures
            final(self).wf(),
            final(self).bytes() == old(self).bytes(),
            r == (old(self).pos() + n <= old(self).bytes().len()),
            final(self).pos() == (if r {
                old(self).pos() + n
            } else {
                old(self).pos()
            }),
    {
        if n <= self.bytes.len() - self.pos {
            self.pos = self.pos + n;
            true
        } else {
            false
        }
    }

    /// Read the start of the next message.
    pub fn next_message(&mut self) -> (r: Step)
        requires
            old(self).wf(),
        ensures
            final(self).wf(),
            final(self).bytes() == old(self).bytes(),
            r == step_at(old(self).bytes(), old(self).pos()),
            final(self).pos() == after_step(old(self).bytes(), old(self).pos()),
    {
        let len = self.bytes.len();
        if self.pos >= len {
            return Step::End;
        }
        let tag = self.bytes[self.pos];
        if tag == DESPAWN {
            let rest = vstd::slice::slice_subrange(self.bytes, self.pos + 1, len);
            proof {
                if rest@.len() >= 5 {
                    let five = self.bytes@.subrange(self.pos + 1, self.pos + 6);
                    assert(five =~= rest@.subrange(0, 5));
                    assert(five.subrange(1, 5) =~= rest@.subrange(1, 5));
                }
            }
            match bincode_read_identifier(rest) {
                Some((entity_type, id)) => {
                    self.pos = self.pos + 6;
                    Step::Message(MessageHead::Despawn(Identifier::new(entity_type, id)))
                },
                None => Step::Malformed,
            }
        } else if tag == ENTITY {
            if len - self.pos < 6 {
                return Step::Malformed;
            }
            let entity_type = self.bytes[self.pos + 1];
            let b0: u32 = self.bytes[self.pos + 2] as u32;
            let b1: u32 = self.bytes[self.pos + 3] as u32;
            let b2: u32 = self.bytes[self.pos + 4] as u32;
            let b3: u32 = self.bytes[self.pos + 5] as u32;
            let id = Identifier::new(entity_type, b0 + b1 * 256 + b2 * 65536 + b3 * 16777216);
            proof {
                let five = self.bytes@.subrange(self.pos + 1, self.pos + 6);
                assert(five.subrange(1, 5) =~= self.bytes@.subrange(self.pos + 2, self.pos + 6));
                assert(id == identifier_of(five));
                lemma_le_bytes_roundtrip(id.id);
            }
            self.pos = self.pos + 6;
            Step::Message(MessageHead::Entity(id))
        } else if tag == EVENT {
            if len - self.pos < 2 {
                return Step::Malformed;
            }
            let packet_id = self.bytes[self.pos + 1];
            if packet_id == 0 {
                return Step::Malformed;
            }
            self.pos = self.pos + 2;
            Step::Message(MessageHead::Event(packet_id))
        } else {
            Step::Malformed
        }
    }

    /// Read the start of the next group of an entity message.
    pub fn next_group(&mut self) -> (r: GroupStep)
        requires
            old(self).wf(),
        ensures
            final(self).wf(),
            final(self).bytes() == old(self).bytes(),
            r == group_at(old(self).bytes(), old(self).pos()),
            final(self).pos() == (if r is Malformed {
                old(self).pos()
            } else {
                old(self).pos() + 1
            }),
    {
        if self.pos >= self.bytes.len() {
            return GroupStep::Malformed;
        }
        let packet_id = self.bytes[self.pos];
        self.pos = self.pos + 1;
        if packet_id == 0 {
            GroupStep::End
        } else {
            GroupStep::Group(packet_id)
        }
    }
}

/// Write the start of an entity message.
pub fn write_entity(buf: &mut WriteBuffer, id: &Identifier)
    ensures
        final(buf)@ == old(buf)@ + head_bytes(MessageHead::Entity(*id)),
{
    buf.push(ENTITY);
    buf.push(id.entity_type);
    let x: u32 = id.id;
    buf.push((x % 256) as u8);
    buf.push(((x / 256) % 256) as u8);
    buf.push(((x / 65536) % 256) as u8);
    buf.push(((x / 16777216) % 256) as u8);
    assert(buf@ =~= old(buf)@ + head_bytes(MessageHead::Entity(*id)));
}

/// Write the byte that ends an entity message.
pub fn write_end(buf: &mut WriteBuffer)
    ensures
        final(buf)@ == old(buf)@.push(0),
{
    buf.push(0);
}

/// Write the start of an event message.
pub fn write_event(buf: &mut WriteBuffer, packet_id: u8)
    ensures
        final(buf)@ == old(buf)@ + head_bytes(MessageHead::Event(packet_id)),
{
    buf.push(EVENT);
    buf.push(packet_id);
    assert(buf@ =~= old(buf)@ + head_bytes(MessageHead::Event(packet_id)));
}

/// Write a despawn message.
pub fn write_despawn(buf: &mut WriteBuffer, id: &Identifier)
    ensures
        final(buf)@ == old(buf)@ + head_bytes(MessageHead::Despawn(*id)),
{
    buf.push(DESPAWN);
    let bytes = bincode_identifier(id.entity_type, id.id);
    buf.extend_from_slice(bytes.as_slice());
    assert(buf@ =~= old(buf)@ + head_bytes(MessageHead::Despawn(*id)));
}

} // verus!
