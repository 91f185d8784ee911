//! What is decided when an entity message arrives: which object it is
//! about, and how updates and despawns of one object fall into place.

use crate::client_authority::{update_outcome, Authority, Identity};
use crate::despawn::despawn_allowed;
use crate::identifier::{
    lookup, Entity, EntityStatus, Identifier, IdentifierError, IdentifierManager,
};
use crate::tick::Tick;
use vstd::prelude::*;

verus! {

/// The object that an entity message is about, or why the message is
/// dropped. An identifier that the map holds alive stands for its object.
/// One that was despawned stands for none: the message is older than the
/// despawn, or it comes from a client. For an identifier that the map
/// does not answer for, the server's word is taken: a handle is reserved
/// for a new object. A client's message about an identifier that the map
/// does not know is dropped.
pub fn resolve_entity(
    manager: &mut IdentifierManager,
    sender: Identity,
    id: &Identifier,
    tick: Tick,
) -> (r: Result<Entity, IdentifierError>)
    requires
        old(manager).wf(),
    ensures
        final(manager).wf(),
        *old(manager) is Ignore ==> *final(manager) is Ignore && r == Ok::<Entity, IdentifierError>(
            Entity::placeholder(),
        ),
        *old(manager) is Full ==> {
            &&& *final(manager) is Full
            &&& *final((*final(manager))->Full_1) == *final((*old(manager))->Full_1)
            &&& match lookup((*old(manager))->Full_1@.from_id, *id, tick) {
                Ok(EntityStatus::Alive(entity)) => {
                    &&& r == Ok::<Entity, IdentifierError>(entity)
                    &&& (*final(manager))->Full_1@ == (*old(manager))->Full_1@
                },
                Ok(EntityStatus::Despawned(_)) => {
                    &&& r == Err::<Entity, IdentifierError>(IdentifierError::Despawned)
                    &&& (*final(manager))->Full_1@ == (*old(manager))->Full_1@
                },
                Err(e) => if sender is Server {
                    &&& r is Ok
                    &&& (*final(manager))->Full_1@ == (*old(manager))->Full_1@.reserved(
                        *id,
                        r->Ok_0,
                    )
                } else {
                    &&& r == Err::<Entity, IdentifierError>(e)
                    &&& (*final(manager))->Full_1@ == (*old(manager))->Full_1@
                },
            }
        },
{
    let status: Result<EntityStatus, IdentifierError> = match sender {
        Identity::Server => manager.get(id, tick),
        Identity::Client(_) => match manager {
            IdentifierManager::Ignore => Ok(EntityStatus::Alive(Entity::from_raw(u32::MAX))),
            IdentifierManager::Full(_, id_map) => id_map.get(id, tick),
        },
    };
    match status {
        Ok(EntityStatus::Alive(entity)) => Ok(entity),
        Ok(EntityStatus::Despawned(_)) => Err(IdentifierError::Despawned),
        Err(e) => Err(e),
    }
}

/// What one process knows of one object: the statuses that its map holds,
/// and when the object was last updated.
pub ghost struct Known {
    /// The statuses of the map
    pub from_id: Map<Identifier, EntityStatus>,
    /// The tick of the last update of the object, none before the first
    pub last_update: Option<Tick>,
}

/// What an update of the server does, for the object under `id`. An
/// object that is alive takes it unless it is stale; an object despawned at
/// that tick or later stays despawned; else a new object is made, with the
/// handle that the store reserves for it, and takes the update.
pub open spec fn update_handled(s: Known, id: Identifier, tick: Tick, reserved: Entity) -> Known {
    match lookup(s.from_id, id, tick) {
        Ok(EntityStatus::Alive(_)) => match update_outcome(
            Authority::Server,
            s.last_update,
            Identity::Server,
            tick,
        ) {
            Ok(_) => Known { last_update: Some(tick), ..s },
            Err(_) => s,
        },
        Ok(EntityStatus::Despawned(_)) => s,
        Err(_) => Known {
            from_id: s.from_id.insert(id, EntityStatus::Alive(reserved)),
            last_update: Some(tick),
        },
    }
}

/// What a despawn of the server does, for the object under `id`: an
/// object that is alive goes, unless it was updated after the tick of the
/// despawn.
pub open spec fn despawn_handled(s: Known, id: Identifier, tick: Tick) -> Known {
    match lookup(s.from_id, id, tick) {
        Ok(EntityStatus::Alive(_)) => if despawn_allowed(
            Identity::Server,
            None,
            s.last_update,
            tick,
        ) {
            Known {
                from_id: s.from_id.insert(id, EntityStatus::Despawned(tick)),
                last_update: None,
            }
        } else {
            s
        },
        _ => s,
    }
}

/// A despawn and an update fall into place in whatever order they arrive.
/// For an object that is alive and has seen neither, a despawn of tick
/// `t_d` and an update of tick `t_u`, both from the server, leave the
/// object despawned where `t_u <= t_d`, and alive with the update applied
/// where `t_u > t_d`.
pub proof fn lemma_despawn_ordering(
    s: Known,
    id: Identifier,
    t_u: Tick,
    t_d: Tick,
    reserved: Entity,
)
    requires
        s.from_id.dom().contains(id),
        s.from_id[id] is Alive,
        s.last_update is Some ==> s.last_update->Some_0.0 < t_u.0 && s.last_update->Some_0.0
            <= t_d.0,
    ensures
        ({
            let first = despawn_handled(update_handled(s, id, t_u, reserved), id, t_d);
            let second = update_handled(despawn_handled(s, id, t_d), id, t_u, reserved);
            &&& first.from_id.dom().contains(id)
            &&& second.from_id.dom().contains(id)
            &&& t_u.0 <= t_d.0 ==> first.from_id[id] == EntityStatus::Despawned(t_d)
                && second.from_id[id] == EntityStatus::Despawned(t_d)
            &&& t_u.0 > t_d.0 ==> first.from_id[id] is Alive && first.last_update == Some(t_u)
                && second.from_id[id] is Alive && second.last_update == Some(t_u)
        }),
{
}

} // verus!
