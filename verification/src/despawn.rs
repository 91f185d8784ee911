//! Despawns: telling the other side that an object is gone, and deciding
//! whether an object goes when the other side says so.

use crate::buffer::{
    taken_view, BufferKey, Buffers, RecipientData, SendRule, WriteBuffer,
};
use crate::client_authority::{Authority, HeldAuthority, Identity};
use crate::identifier::{
    lookup, Entity, EntityStatus, Identifier, IdentifierMap, IdentifierMapView,
};
use crate::iter::Connection;
use crate::packet::{head_bytes, write_despawn, MessageHead};
use crate::tick::Tick;
use vstd::prelude::*;

verus! {

/// The channel on which despawn messages are sent
#[derive(Clone, Copy, Debug, PartialEq, Eq, Structural)]
pub struct DespawnChannel(pub u8);

/// Everyone that is connected, as someone who has acknowledged nothing.
pub open spec fn all_targets(connections: Seq<Connection>) -> Seq<(Identity, RecipientData)> {
    connections.map_values(|c: Connection| (c.ident, RecipientData { last_ack: None }))
}

/// What sending despawns works on.
pub ghost struct DespawnSending {
    /// The map between identifiers and handles
    pub map: IdentifierMapView,
    /// The bytes that wait in the buffers
    pub pending: Map<BufferKey, Seq<u8>>,
    /// The packets that were cut
    pub filled: Seq<(BufferKey, Seq<u8>)>,
    /// The bytes that wait in the write buffer
    pub buf: Seq<u8>,
}

/// Whether this process may tell the others that an object is gone: the
/// server always, a client only where it holds authority over the object.
pub open spec fn may_despawn(our_ident: Identity, held: Set<Entity>, entity: Entity) -> bool {
    our_ident == Identity::Server || held.contains(entity)
}

/// What the removal of one object does. An object that the map does not
/// track is passed over. Else the map forgets it, and where this process
/// may despawn it, a despawn message goes to everyone that is connected.
pub open spec fn despawn_sent(
    s: DespawnSending,
    entity: Entity,
    targets: Seq<(Identity, RecipientData)>,
    held: Set<Entity>,
    our_ident: Identity,
    tick: Tick,
    channel: u8,
) -> DespawnSending {
    if !s.map.to_id.dom().contains(entity) {
        s
    } else if !may_despawn(our_ident, held, entity) {
        DespawnSending { map: s.map.without(entity), ..s }
    } else {
        let view = taken_view(s.pending, s.filled, tick, channel, 0, targets).sent(
            SendRule::All,
            0,
            s.buf + head_bytes(MessageHead::Despawn(s.map.to_id[entity])),
        ).fragmented();
        DespawnSending {
            map: s.map.without(entity),
            pending: view.released(),
            filled: view.filled,
            buf: Seq::empty(),
        }
    }
}

/// What the removal of the first `n` objects of a list does.
pub open spec fn despawns_sent(
    s: DespawnSending,
    removed: Seq<Entity>,
    n: int,
    targets: Seq<(Identity, RecipientData)>,
    held: Set<Entity>,
    our_ident: Identity,
    tick: Tick,
    channel: u8,
) -> DespawnSending
    decreases n,
{
    if n <= 0 {
        s
    } else {
        despawn_sent(
            despawns_sent(s, removed, n - 1, targets, held, our_ident, tick, channel),
            removed[n - 1],
            targets,
            held,
            our_ident,
            tick,
            channel,
        )
    }
}

/// Everyone that is connected, as someone who has acknowledged nothing.
pub(crate) fn everyone(connections: &Vec<Connection>) -> (r: Vec<(Identity, RecipientData)>)
    ensures
        r@ == all_targets(connections@),
{
    let mut r: Vec<(Identity, RecipientData)> = Vec::new();
    let mut i: usize = 0;
    while i < connections.len()
        invariant
            0 <= i <= connections@.len(),
            r@.len() == i,
            forall|j: int|
                0 <= j < i ==> #[trigger] r@[j] == (
                    connections@[j].ident,
                    RecipientData { last_ack: None },
                ),
        decreases connections@.len() - i,
    {
        r.push((connections[i].ident, RecipientData { last_ack: None }));
        i += 1;
    }
    assert(r@ =~= all_targets(connections@));
    r
}

/// Tell the others which objects are gone: `removed` lists the handles of
/// the objects that the object store has destroyed since the last call.
pub fn send_despawns(
    removed: &Vec<Entity>,
    map: &mut IdentifierMap,
    buffers: &mut Buffers,
    connections: &Vec<Connection>,
    held: &HeldAuthority,
    our_ident: Identity,
    tick: Tick,
    buf: &mut WriteBuffer,
    despawn_channel: DespawnChannel,
)
    requires
        old(map).wf(),
        old(buffers).wf(),
    ensures
        final(map).wf(),
        final(buffers).wf(),
        (DespawnSending {
            map: final(map)@,
            pending: final(buffers).pending(),
            filled: final(buffers).filled(),
            buf: final(buf)@,
        }) == despawns_sent(
            DespawnSending {
                map: old(map)@,
                pending: old(buffers).pending(),
                filled: old(buffers).filled(),
                buf: old(buf)@,
            },
            removed@,
            removed@.len() as int,
            all_targets(connections@),
            held@,
            our_ident,
            tick,
            despawn_channel.0,
        ),
{
    let ghost start = DespawnSending {
        map: map@,
        pending: buffers.pending(),
        filled: buffers.filled(),
        buf: buf@,
    };
    let mut i: usize = 0;
    while i < removed.len()
        invariant
            0 <= i <= removed@.len(),
            map.wf(),
            buffers.wf(),
            (DespawnSending {
                map: map@,
                pending: buffers.pending(),
                filled: buffers.filled(),
                buf: buf@,
            }) == despawns_sent(
                start,
                removed@,
                i as int,
                all_targets(connections@),
                held@,
                our_ident,
                tick,
                despawn_channel.0,
            ),
        decreases removed@.len() - i,
    {
        let entity = removed[i];
        let ghost prev = map@;
        i += 1;
        let ident = match map.remove_entity(&entity) {
            Some(ident) => ident,
            None => {
                assert(map@.to_id =~= prev.to_id);
                continue ;
            },
        };
        if our_ident != Identity::Server && !held.contains(&entity) {
            continue ;
        }
        let mut buffer = buffers.take(tick, despawn_channel.0, 0, everyone(connections));
        write_despawn(buf, &ident);
        buffer.send(SendRule::All, buf);
        buffer.fragment();
        buffer.release();
    }
}

/// Whether a despawn that `sender` stamped with `tick` is obeyed, for an
/// object under `authority` that was last updated at `last_update`: a
/// client needs to hold the object or find it free, and the despawn must
/// not be older than the last update.
pub open spec fn despawn_allowed(
    sender: Identity,
    authority: Option<Authority>,
    last_update: Option<Tick>,
    tick: Tick,
) -> bool {
    &&& match sender {
        Identity::Server => true,
        Identity::Client(client_id) => match authority {
            Some(a) => a.claimable_by(client_id),
            None => false,
        },
    }
    &&& !(last_update is Some && tick.0 < last_update->Some_0.0)
}

/// The object that a despawn message is about, if the map holds one that
/// is alive under the identifier.
pub fn despawn_target(map: &IdentifierMap, identifier: &Identifier, tick: Tick) -> (r: Option<
    Entity,
>)
    ensures
        r == (match lookup(map@.from_id, *identifier, tick) {
            Ok(EntityStatus::Alive(entity)) => Some(entity),
            _ => None,
        }),
{
    match map.get(identifier, tick) {
        Ok(EntityStatus::Alive(entity)) => Some(entity),
        _ => None,
    }
}

/// Decide on a despawn message for an object that is alive: where it is
/// obeyed, the identifier is marked as despawned at the tick, and the
/// caller destroys the object.
pub fn handle_despawns(
    map: &mut IdentifierMap,
    ident: Identity,
    tick: Tick,
    identifier: &Identifier,
    entity: &Entity,
    authority: Option<Authority>,
    last_update: Option<Tick>,
) -> (r: bool)
    requires
        old(map).wf(),
    ensures
        final(map).wf(),
        r == despawn_allowed(ident, authority, last_update, tick),
        final(map)@ == (if r {
            old(map)@.despawned(*identifier, *entity, tick)
        } else {
            old(map)@
        }),
{
    if let Identity::Client(client_id) = ident {
        let authority = match authority {
            Some(a) => a,
            None => Authority::Server,
        };
        if !authority.can_claim(client_id) {
            return false;
        }
    }
    if let Some(last) = last_update {
        if tick.0 < last.0 {
            return false;
        }
    }
    map.despawn(identifier, entity, tick);
    true
}

} // verus!
