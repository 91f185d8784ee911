//! Identifiers that name an object on every process, and the map between
//! them and the local handles of the object store.

use crate::tick::Tick;
use vstd::prelude::*;
use vstd::set_lib::lemma_map_size;

verus! {

/// A local handle of the object store: an index and the generation of that
/// index. It means nothing on another process.
#[derive(Clone, Copy, Debug, PartialEq, Eq, Structural, Hash)]
pub struct Entity {
    /// The slot of the object in the store
    pub index: u32,
    /// How often the slot has been given out before
    pub generation: u32,
}

impl Entity {
    /// The handle as one number: the generation above the index.
    pub open spec fn bits(self) -> u64 {
        (self.generation as u64 * 0x1_0000_0000 + self.index as u64) as u64
    }

    /// A handle that stands for no object yet.
    pub open spec fn placeholder() -> Entity {
        Entity { index: u32::MAX, generation: 0 }
    }

    /// A handle with the given index and generation 0.
    pub fn from_raw(index: u32) -> (r: Entity)
        ensures
            r == (Entity { index, generation: 0 }),
    {
        Entity { index, generation: 0 }
    }

    /// The handle as one number, the generation above the index.
    pub fn to_bits(self) -> (r: u64)
        ensures
            r == self.bits(),
    {
        (self.generation as u64) * 0x1_0000_0000 + (self.index as u64)
    }

    /// The handle that `to_bits` turned into `bits`.
    pub fn from_bits(bits: u64) -> (r: Entity)
        ensures
            r.bits() == bits,
            r.index == bits % 0x1_0000_0000,
            r.generation == bits / 0x1_0000_0000,
    {
        Entity {
            index: (bits % 0x1_0000_0000) as u32,
            generation: (bits / 0x1_0000_0000) as u32,
        }
    }
}

/// Two handles with the same number are the same handle.
pub proof fn lemma_bits_injective(a: Entity, b: Entity)
    ensures
        a.bits() == b.bits() ==> a == b,
{
}

/// Overrides who counts as the owner of an object: the given peer, whatever
/// the object's identifier says.
#[derive(Clone, Copy, Debug, PartialEq, Eq, Structural)]
pub struct Owner(pub u32);

/// What an object is, on every process: a type and a number within the type.
/// Type 0 is kept for the objects that stand for connected peers; their
/// number is the peer's connection id.
#[derive(Clone, Copy, Debug, PartialEq, Eq, Structural, PartialOrd, Ord, Hash)]
pub struct Identifier {
    /// The type of the object
    pub entity_type: u8,
    /// The number within this type
    pub id: u32,
}

impl Identifier {
    /// True for the identifier of a peer's own object.
    pub fn is_client(&self) -> (r: bool)
        ensures
            r == (self.entity_type == 0),
    {
        self.entity_type == 0
    }

    /// The type of the object.
    pub fn entity_type(&self) -> (r: u8)
        ensures
            r == self.entity_type,
    {
        self.entity_type
    }

    /// The number within the type.
    pub fn id(&self) -> (r: u32)
        ensures
            r == self.id,
    {
        self.id
    }

    /// The identifier of the given type and number.
    pub fn new(entity_type: u8, id: u32) -> (r: Identifier)
        ensures
            r == (Identifier { entity_type, id }),
    {
        Identifier { entity_type, id }
    }

    /// The identifier as one number: the type above the number within it.
    pub open spec fn code(self) -> u64 {
        (self.entity_type as u64 * 0x1_0000_0000 + self.id as u64) as u64
    }

    /// The identifier that a number stands for.
    pub open spec fn of_code(code: u64) -> Identifier {
        Identifier {
            entity_type: ((code / 0x1_0000_0000) % 256) as u8,
            id: (code % 0x1_0000_0000) as u32,
        }
    }

    /// True of the numbers that stand for an identifier.
    pub open spec fn is_code(code: u64) -> bool {
        Self::of_code(code).code() == code
    }

    fn encode(self) -> (r: u64)
        ensures
            r == self.code(),
            Self::of_code(r) == self,
    {
        self.entity_type as u64 * 0x1_0000_0000 + self.id as u64
    }
}

/// Each identifier has a number of its own.
pub proof fn lemma_identifier_code_injective(a: Identifier, b: Identifier)
    ensures
        Identifier::of_code(a.code()) == a,
        a.code() == b.code() ==> a == b,
{
}

/// An error occured when mapping [Identifier]s
#[derive(Clone, Copy, Debug, PartialEq, Eq, Structural)]
pub enum IdentifierError {
    /// The [Identifier] was despawned
    Despawned,
    /// The [Identifier] does not exist
    NonExistent,
}

/// The entity status for an [Identifier]
#[derive(Clone, Copy, Debug, PartialEq, Eq, Structural)]
pub enum EntityStatus {
    /// There is an [Entity] alive for the [Identifier]
    Alive(Entity),
    /// The [Identifier] has been despawned
    Despawned(Tick),
}

/// The statuses that a hash map of `bevy::utils` holds, each under the
/// number of its identifier.
#[verifier::external_body]
pub struct StatusTable {
    inner: bevy::utils::HashMap<u64, EntityStatus>,
}

/// The statuses that a table holds, by the number of their identifier.
pub uninterp spec fn status_table_contents(table: StatusTable) -> Map<u64, EntityStatus>;

/// `HashMap::default` of `bevy::utils`: a map that holds nothing.
#[verifier::external_body]
fn status_table_new() -> (table: StatusTable)
    ensures
        status_table_contents(table) == (Map::<u64, EntityStatus>::empty()),
{
    StatusTable { inner: bevy::utils::HashMap::default() }
}

/// `HashMap::len` of hashbrown: how many keys the map holds.
#[verifier::external_body]
fn status_table_len(table: &StatusTable) -> (r: usize)
    ensures
        r == status_table_contents(*table).dom().len(),
{
    table.inner.len()
}

/// `HashMap::insert` of hashbrown: the value stands under the key
/// afterwards, in place of an earlier one; no other key changes.
#[verifier::external_body]
fn status_table_insert(table: &mut StatusTable, code: u64, status: EntityStatus)
    ensures
        status_table_contents(*final(table)) == status_table_contents(*old(table)).insert(
            code,
            status,
        ),
{
    table.inner.insert(code, status);
}

/// `HashMap::get` of hashbrown: what stands under the key, if anything.
#[verifier::external_body]
fn status_table_get(table: &StatusTable, code: u64) -> (r: Option<EntityStatus>)
    ensures
        r == (if status_table_contents(*table).dom().contains(code) {
            Some(status_table_contents(*table)[code])
        } else {
            None
        }),
{
    table.inner.get(&code).copied()
}

/// `HashMap::remove` of hashbrown: the key is gone afterwards and no other
/// key changes.
#[verifier::external_body]
fn status_table_remove(table: &mut StatusTable, code: u64)
    ensures
        status_table_contents(*final(table)) == status_table_contents(*old(table)).remove(code),
{
    table.inner.remove(&code);
}

/// The identifiers that a hash map of `bevy::utils` holds, each under the
/// number of its handle.
#[verifier::external_body]
pub struct HandleTable {
    inner: bevy::utils::HashMap<u64, Identifier>,
}

/// The identifiers that a table holds, by the number of their handle.
pub uninterp spec fn handle_table_contents(table: HandleTable) -> Map<u64, Identifier>;

/// `HashMap::default` of `bevy::utils`: a map that holds nothing.
#[verifier::external_body]
fn handle_table_new() -> (table: HandleTable)
    ensures
        handle_table_contents(table) == (Map::<u64, Identifier>::empty()),
{
    HandleTable { inner: bevy::utils::HashMap::default() }
}

/// `HashMap::len` of hashbrown: how many keys the map holds.
#[verifier::external_body]
fn handle_table_len(table: &HandleTable) -> (r: usize)
    ensures
        r == handle_table_contents(*table).dom().len(),
{
    table.inner.len()
}

/// `HashMap::insert` of hashbrown: the value stands under the key
/// afterwards, in place of an earlier one; no other key changes.
#[verifier::external_body]
fn handle_table_insert(table: &mut HandleTable, bits: u64, id: Identifier)
    ensures
        handle_table_contents(*final(table)) == handle_table_contents(*old(table)).insert(bits, id),
{
    table.inner.insert(bits, id);
}

/// `HashMap::get` of hashbrown: what stands under the key, if anything.
#[verifier::external_body]
fn handle_table_get(table: &HandleTable, bits: u64) -> (r: Option<Identifier>)
    ensures
        r == (if handle_table_contents(*table).dom().contains(bits) {
            Some(handle_table_contents(*table)[bits])
        } else {
            None
        }),
{
    table.inner.get(&bits).copied()
}

/// `HashMap::remove` of hashbrown: the key is gone afterwards and no other
/// key changes; what stood under it is returned.
#[verifier::external_body]
fn handle_table_remove(table: &mut HandleTable, bits: u64) -> (r: Option<Identifier>)
    ensures
        handle_table_contents(*final(table)) == handle_table_contents(*old(table)).remove(bits),
        r == (if handle_table_contents(*old(table)).dom().contains(bits) {
            Some(handle_table_contents(*old(table))[bits])
        } else {
            None
        }),
{
    table.inner.remove(&bits)
}

/// What the map answers for an identifier at a tick. An identifier that was
/// despawned before the tick is reported as despawned; one that was
/// despawned at the tick or later still has its status, since the message
/// that asks may have been sent before the despawn.
pub open spec fn lookup(
    from_id: Map<Identifier, EntityStatus>,
    id: Identifier,
    tick: Tick,
) -> Result<EntityStatus, IdentifierError> {
    if !from_id.dom().contains(id) {
        Err(IdentifierError::NonExistent)
    } else {
        match from_id[id] {
            EntityStatus::Despawned(at) => if at.0 < tick.0 {
                Err(IdentifierError::Despawned)
            } else {
                Ok(from_id[id])
            },
            EntityStatus::Alive(_) => Ok(from_id[id]),
        }
    }
}

/// The handle of an identifier, whatever the tick.
pub open spec fn lookup_alive(from_id: Map<Identifier, EntityStatus>, id: Identifier) -> Result<
    Entity,
    IdentifierError,
> {
    if !from_id.dom().contains(id) {
        Err(IdentifierError::NonExistent)
    } else {
        match from_id[id] {
            EntityStatus::Despawned(_) => Err(IdentifierError::Despawned),
            EntityStatus::Alive(entity) => Ok(entity),
        }
    }
}

/// The map between identifiers and handles, as the contracts see it.
pub ghost struct IdentifierMapView {
    /// The status of every identifier that is tracked
    pub from_id: Map<Identifier, EntityStatus>,
    /// The identifier of every handle that is tracked
    pub to_id: Map<Entity, Identifier>,
    /// The handles that were reserved and wait to be spawned, oldest first
    pub unspawned: Seq<(Identifier, Entity)>,
}

impl IdentifierMapView {
    /// The view after `insert`.
    pub open spec fn inserted(self, id: Identifier, entity: Entity) -> IdentifierMapView {
        IdentifierMapView {
            from_id: self.from_id.insert(id, EntityStatus::Alive(entity)),
            to_id: self.to_id.insert(entity, id),
            ..self
        }
    }

    /// The view after a handle was reserved for an identifier.
    pub open spec fn reserved(self, id: Identifier, entity: Entity) -> IdentifierMapView {
        IdentifierMapView {
            unspawned: self.unspawned.push((id, entity)),
            ..self.inserted(id, entity)
        }
    }

    /// The view after `remove_entity`: the handle is forgotten, and with it
    /// the identifier that it stood for.
    pub open spec fn without(self, entity: Entity) -> IdentifierMapView {
        IdentifierMapView {
            from_id: if self.to_id.dom().contains(entity) {
                self.from_id.remove(self.to_id[entity])
            } else {
                self.from_id
            },
            to_id: self.to_id.remove(entity),
            ..self
        }
    }

    /// The view after `despawn`.
    pub open spec fn despawned(self, id: Identifier, entity: Entity, tick: Tick) -> IdentifierMapView {
        IdentifierMapView {
            from_id: self.from_id.insert(id, EntityStatus::Despawned(tick)),
            to_id: self.to_id.remove(entity),
            ..self
        }
    }
}

/// A map that tracks the relation between [Identifier]s and [Entity]s. When an entity is
/// despawned, this state is tracked until the tick of the despawn message happens
pub struct IdentifierMap {
    from_id: StatusTable,
    to_id: HandleTable,
    unspawned: Vec<(Identifier, Entity)>,
}

impl View for IdentifierMap {
    type V = IdentifierMapView;

    closed spec fn view(&self) -> IdentifierMapView {
        IdentifierMapView {
            from_id: Map::new(
                |id: Identifier| status_table_contents(self.from_id).dom().contains(id.code()),
                |id: Identifier| status_table_contents(self.from_id)[id.code()],
            ),
            to_id: Map::new(
                |entity: Entity| handle_table_contents(self.to_id).dom().contains(entity.bits()),
                |entity: Entity| handle_table_contents(self.to_id)[entity.bits()],
            ),
            unspawned: self.unspawned@,
        }
    }
}

impl Default for IdentifierMap {
    fn default() -> (r: IdentifierMap)
        ensures
            r.wf(),
            r@.from_id == (Map::<Identifier, EntityStatus>::empty()),
            r@.to_id == (Map::<Entity, Identifier>::empty()),
            r@.unspawned == (Seq::<(Identifier, Entity)>::empty()),
    {
        IdentifierMap::new()
    }
}

impl IdentifierMap {
    /// Every status stands under the number of an identifier, and the map
    /// tracks finitely many identifiers and handles.
    pub closed spec fn wf(&self) -> bool {
        &&& status_table_contents(self.from_id).dom().finite()
        &&& handle_table_contents(self.to_id).dom().finite()
        &&& forall|code: u64| #[trigger]
            status_table_contents(self.from_id).dom().contains(code) ==> Identifier::is_code(code)
    }

    /// A map that tracks nothing.
    pub fn new() -> (r: IdentifierMap)
        ensures
            r.wf(),
            r@.from_id == (Map::<Identifier, EntityStatus>::empty()),
            r@.to_id == (Map::<Entity, Identifier>::empty()),
            r@.unspawned == (Seq::<(Identifier, Entity)>::empty()),
    {
        let r = IdentifierMap {
            from_id: status_table_new(),
            to_id: handle_table_new(),
            unspawned: Vec::new(),
        };
        assert(r@.from_id =~= Map::<Identifier, EntityStatus>::empty());
        assert(r@.to_id =~= Map::<Entity, Identifier>::empty());
        r
    }

    /// The number of tracked entities that are alive
    pub fn n_alive(&self) -> (r: usize)
        requires
            self.wf(),
        ensures
            self@.to_id.dom().finite(),
            r == self@.to_id.dom().len(),
    {
        let r = handle_table_len(&self.to_id);
        proof {
            let bits = handle_table_contents(self.to_id).dom();
            let f = |b: u64| Entity { index: (b % 0x1_0000_0000) as u32, generation: (b / 0x1_0000_0000) as u32 };
            assert forall|e: Entity| bits.map(f).contains(e) <==> self@.to_id.dom().contains(e) by {
                if self@.to_id.dom().contains(e) {
                    assert(f(e.bits()) == e);
                    assert(bits.contains(e.bits()));
                }
                if bits.map(f).contains(e) {
                    let b = choose|b: u64| bits.contains(b) && f(b) == e;
                    assert(e.bits() == b);
                }
            }
            assert(bits.map(f) =~= self@.to_id.dom());
            assert forall|a: u64, b: u64| #[trigger] f(a) == #[trigger] f(b) implies a == b by {
                assert(f(a).bits() == a);
                assert(f(b).bits() == b);
            }
            lemma_map_size(bits, self@.to_id.dom(), f);
        }
        r
    }

    /// The total number of identifiers being tracked, including despawned ones
    pub fn n_total(&self) -> (r: usize)
        requires
            self.wf(),
        ensures
            self@.from_id.dom().finite(),
            r == self@.from_id.dom().len(),
    {
        let r = status_table_len(&self.from_id);
        proof {
            let codes = status_table_contents(self.from_id).dom();
            let f = |c: u64| Identifier::of_code(c);
            assert forall|id: Identifier|
                codes.map(f).contains(id) <==> self@.from_id.dom().contains(id) by {
                lemma_identifier_code_injective(id, id);
                if self@.from_id.dom().contains(id) {
                    assert(f(id.code()) == id);
                    assert(codes.contains(id.code()));
                }
                if codes.map(f).contains(id) {
                    let c = choose|c: u64| codes.contains(c) && f(c) == id;
                    assert(Identifier::is_code(c));
                }
            }
            assert(codes.map(f) =~= self@.from_id.dom());
            assert forall|a: u64, b: u64|
                codes.contains(a) && codes.contains(b) && #[trigger] f(a) == #[trigger] f(
                    b,
                ) implies a == b by {
                assert(Identifier::is_code(a));
                assert(Identifier::is_code(b));
            }
            lemma_map_size(codes, self@.from_id.dom(), f);
        }
        r
    }

    /// Insert the mapping from [Identifier] to [Entity]
    pub fn insert(&mut self, id: Identifier, entity: Entity)
        requires
            old(self).wf(),
        ensures
            final(self).wf(),
            final(self)@ == old(self)@.inserted(id, entity),
    {
        status_table_insert(&mut self.from_id, id.encode(), EntityStatus::Alive(entity));
        handle_table_insert(&mut self.to_id, entity.to_bits(), id);
        proof {
            self.lemma_put(*old(self), id, EntityStatus::Alive(entity));
            assert forall|e: Entity|
                self@.to_id.dom().contains(e) <==> old(self)@.to_id.insert(
                    entity,
                    id,
                ).dom().contains(e) by {
                lemma_bits_injective(e, entity);
            }
            assert forall|e: Entity| self@.to_id.dom().contains(e) implies #[trigger] self@.to_id[e]
                == old(self)@.to_id.insert(entity, id)[e] by {
                lemma_bits_injective(e, entity);
            }
            assert(self@.to_id =~= old(self)@.to_id.insert(entity, id));
        }
    }

    /// What a new status under `id` does to the view of the statuses.
    proof fn lemma_put(&self, before: IdentifierMap, id: Identifier, status: EntityStatus)
        requires
            before.wf(),
            status_table_contents(self.from_id) == status_table_contents(before.from_id).insert(
                id.code(),
                status,
            ),
        ensures
            self@.from_id == before@.from_id.insert(id, status),
            status_table_contents(self.from_id).dom().finite(),
            forall|code: u64| #[trigger]
                status_table_contents(self.from_id).dom().contains(code) ==> Identifier::is_code(
                    code,
                ),
    {
        lemma_identifier_code_injective(id, id);
        assert forall|i: Identifier|
            self@.from_id.dom().contains(i) <==> before@.from_id.insert(id, status).dom().contains(
                i,
            ) by {
            lemma_identifier_code_injective(i, id);
        }
        assert forall|i: Identifier| self@.from_id.dom().contains(i) implies #[trigger]
            self@.from_id[i] == before@.from_id.insert(id, status)[i] by {
            lemma_identifier_code_injective(i, id);
        }
        assert(self@.from_id =~= before@.from_id.insert(id, status));
        assert forall|code: u64| #[trigger]
            status_table_contents(self.from_id).dom().contains(code) implies Identifier::is_code(
            code,
        ) by {
            if code != id.code() {
                assert(status_table_contents(before.from_id).dom().contains(code));
            }
        }
    }

    /// Get the [EntityStatus] for an [Identifier], using [Tick] when checking for despawns
    pub fn get(&self, id: &Identifier, tick: Tick) -> (r: Result<EntityStatus, IdentifierError>)
        ensures
            r == lookup(self@.from_id, *id, tick),
    {
        let status = status_table_get(&self.from_id, id.encode());
        match status {
            Some(EntityStatus::Despawned(despawned_at)) => {
                if despawned_at.0 < tick.0 {
                    Err(IdentifierError::Despawned)
                } else {
                    Ok(EntityStatus::Despawned(despawned_at))
                }
            },
            Some(v) => Ok(v),
            None => Err(IdentifierError::NonExistent),
        }
    }

    /// Get the [Entity] for an [Identifier], returning an error if it was despawned.
    /// This function has little use outside of tests
    pub fn get_alive(&self, id: &Identifier) -> (r: Result<Entity, IdentifierError>)
        ensures
            r == lookup_alive(self@.from_id, *id),
    {
        let status = status_table_get(&self.from_id, id.encode());
        match status {
            Some(EntityStatus::Alive(entity)) => Ok(entity),
            Some(EntityStatus::Despawned(_)) => Err(IdentifierError::Despawned),
            None => Err(IdentifierError::NonExistent),
        }
    }

    /// Get the Entity for a id type and id
    pub fn get_id(&self, id_type: u8, id: u32) -> (r: Result<Entity, IdentifierError>)
        ensures
            r == lookup_alive(self@.from_id, Identifier { entity_type: id_type, id }),
    {
        self.get_alive(&Identifier::new(id_type, id))
    }

    /// Get the Entity for a client if the client is present
    pub fn get_client(&self, client_id: u32) -> (r: Result<Entity, IdentifierError>)
        ensures
            r == lookup_alive(self@.from_id, Identifier { entity_type: 0, id: client_id }),
    {
        self.get_alive(&Identifier::new(0, client_id))
    }

    /// Check if an entity with [Identifier] is alive at the given Tick
    pub fn is_alive(&self, id: &Identifier, tick: Tick) -> (r: bool)
        ensures
            r == lookup(self@.from_id, *id, tick) is Ok,
    {
        let status = status_table_get(&self.from_id, id.encode());
        match status {
            Some(EntityStatus::Despawned(despawned_at)) => !(despawned_at.0 < tick.0),
            Some(_) => true,
            None => false,
        }
    }

    /// Get the [Identifier] for a [Entity]
    pub fn from_entity(&self, entity: &Entity) -> (r: Result<Identifier, IdentifierError>)
        ensures
            r == (if self@.to_id.dom().contains(*entity) {
                Ok::<Identifier, IdentifierError>(self@.to_id[*entity])
            } else {
                Err(IdentifierError::NonExistent)
            }),
    {
        match handle_table_get(&self.to_id, entity.to_bits()) {
            Some(id) => Ok(id),
            None => Err(IdentifierError::NonExistent),
        }
    }

    /// Track a handle that the object store reserved for an identifier,
    /// and remember that its object still has to be spawned.
    pub fn reserve_with(&mut self, id: Identifier, entity: Entity)
        requires
            old(self).wf(),
        ensures
            final(self).wf(),
            final(self)@ == old(self)@.reserved(id, entity),
    {
        self.insert(id, entity);
        self.unspawned.push((id, entity));
    }

    /// Hand out the handles that were reserved since the last call, oldest
    /// first, for the object store to spawn their objects.
    pub fn take_unspawned(&mut self) -> (r: Vec<(Identifier, Entity)>)
        requires
            old(self).wf(),
        ensures
            final(self).wf(),
            r@ == old(self)@.unspawned,
            final(self)@ == (IdentifierMapView {
                unspawned: Seq::<(Identifier, Entity)>::empty(),
                ..old(self)@
            }),
    {
        let mut r: Vec<(Identifier, Entity)> = Vec::new();
        r.append(&mut self.unspawned);
        r
    }

    /// Mark an [Identifier] as despawned at [Tick]
    pub fn despawn(&mut self, id: &Identifier, entity: &Entity, tick: Tick)
        requires
            old(self).wf(),
        ensures
            final(self).wf(),
            final(self)@ == old(self)@.despawned(*id, *entity, tick),
    {
        status_table_insert(&mut self.from_id, id.encode(), EntityStatus::Despawned(tick));
        let _ = handle_table_remove(&mut self.to_id, entity.to_bits());
        proof {
            self.lemma_put(*old(self), *id, EntityStatus::Despawned(tick));
            self.lemma_dropped(*old(self), *entity);
        }
    }

    /// What the removal of a handle does to the view of the handles.
    proof fn lemma_dropped(&self, before: IdentifierMap, entity: Entity)
        requires
            handle_table_contents(self.to_id) == handle_table_contents(before.to_id).remove(
                entity.bits(),
            ),
        ensures
            self@.to_id == before@.to_id.remove(entity),
    {
        assert forall|e: Entity|
            self@.to_id.dom().contains(e) <==> before@.to_id.remove(entity).dom().contains(e) by {
            lemma_bits_injective(e, entity);
        }
        assert(self@.to_id =~= before@.to_id.remove(entity));
    }

    /// Remove the mapping for an [Entity], returning the [Identifier] if it existed
    pub fn remove_entity(&mut self, entity: &Entity) -> (r: Option<Identifier>)
        requires
            old(self).wf(),
        ensures
            final(self).wf(),
            r == (if old(self)@.to_id.dom().contains(*entity) {
                Some(old(self)@.to_id[*entity])
            } else {
                None
            }),
            final(self)@ == old(self)@.without(*entity),
    {
        let id = handle_table_remove(&mut self.to_id, entity.to_bits());
        proof {
            self.lemma_dropped(*old(self), *entity);
        }
        if let Some(id) = id {
            status_table_remove(&mut self.from_id, id.encode());
            proof {
                assert forall|i: Identifier|
                    self@.from_id.dom().contains(i) <==> old(self)@.from_id.remove(
                        id,
                    ).dom().contains(i) by {
                    lemma_identifier_code_injective(i, id);
                }
                assert(self@.from_id =~= old(self)@.from_id.remove(id));
                assert forall|code: u64| #[trigger]
                    status_table_contents(self.from_id).dom().contains(
                        code,
                    ) implies Identifier::is_code(code) by {
                    assert(status_table_contents(old(self).from_id).dom().contains(code));
                }
            }
        }
        id
    }
}

/// The allocator of handles of bevy's object store.
#[verifier::external_type_specification]
#[verifier::external_body]
pub struct ExEntities(bevy::ecs::entity::Entities);

/// `Entities::reserve_entity` of bevy: a handle for an object that is yet to
/// be spawned. Which handle it is depends on what the store has given out
/// and taken back, so nothing is stated of it. The store gives up when it
/// has run out of the four thousand million indices.
#[verifier::external_body]
fn reserve_entity(entities: &bevy::ecs::entity::Entities) -> (r: Entity) {
    let reserved = entities.reserve_entity();
    Entity { index: reserved.index(), generation: reserved.generation() }
}

/// How a manager with a map finds the handle of an identifier: the handle
/// that the map holds, or else a handle reserved for it and tracked from
/// then on.
pub open spec fn resolves(
    before: IdentifierMapView,
    after: IdentifierMapView,
    id: Identifier,
    r: Result<Entity, IdentifierError>,
) -> bool {
    match lookup_alive(before.from_id, id) {
        Ok(entity) => r == Ok::<Entity, IdentifierError>(entity) && after == before,
        Err(_) => r is Ok && after == before.reserved(id, r->Ok_0),
    }
}

/// A manager for Identifiers
pub enum IdentifierManager<'a> {
    /// Actions will be ignored, because the current packet will be discarded
    Ignore,
    /// Actions will be fully executed, including spawning entities for unknown identifiers
    Full(&'a bevy::ecs::entity::Entities, &'a mut IdentifierMap),
}

impl<'a> IdentifierManager<'a> {
    /// The map behind the manager is well formed, if there is one.
    pub open spec fn wf(&self) -> bool {
        self is Full ==> self->Full_1.wf()
    }

    /// Get the [EntityStatus] for an [Identifier] at the current [Tick]. An
    /// identifier that the map does not answer for gets a handle of its
    /// own, reserved in the object store.
    pub fn get(&mut self, id: &Identifier, tick: Tick) -> (r: Result<EntityStatus, IdentifierError>)
        requires
            old(self).wf(),
        ensures
            final(self).wf(),
            *old(self) is Ignore ==> *final(self) is Ignore && r == Ok::<
                EntityStatus,
                IdentifierError,
            >(EntityStatus::Alive(Entity::placeholder())),
            *old(self) is Full ==> {
                &&& *final(self) is Full
                &&& *final((*final(self))->Full_1) == *final((*old(self))->Full_1)
                &&& match lookup((*old(self))->Full_1@.from_id, *id, tick) {
                    Ok(status) => {
                        &&& r == Ok::<EntityStatus, IdentifierError>(status)
                        &&& (*final(self))->Full_1@ == (*old(self))->Full_1@
                    },
                    Err(_) => {
                        &&& r is Ok
                        &&& r->Ok_0 is Alive
                        &&& (*final(self))->Full_1@ == (*old(self))->Full_1@.reserved(
                            *id,
                            r->Ok_0->Alive_0,
                        )
                    },
                }
            },
    {
        match self {
            IdentifierManager::Ignore => Ok(EntityStatus::Alive(Entity::from_raw(u32::MAX))),
            IdentifierManager::Full(entities, id_map) => match id_map.get(id, tick) {
                Ok(status) => Ok(status),
                Err(_) => {
                    let entity = reserve_entity(entities);
                    id_map.reserve_with(*id, entity);
                    Ok(EntityStatus::Alive(entity))
                },
            },
        }
    }

    /// Get the [Entity] for an [Identifier], reserving one where the map
    /// holds none that is alive.
    pub fn get_alive(&mut self, id: &Identifier) -> (r: Result<Entity, IdentifierError>)
        requires
            old(self).wf(),
        ensures
            final(self).wf(),
            *old(self) is Ignore ==> *final(self) is Ignore && r == Ok::<Entity, IdentifierError>(
                Entity::placeholder(),
            ),
            *old(self) is Full ==> {
                &&& *final(self) is Full
                &&& *final((*final(self))->Full_1) == *final((*old(self))->Full_1)
                &&& resolves((*old(self))->Full_1@, (*final(self))->Full_1@, *id, r)
            },
    {
        match self {
            IdentifierManager::Ignore => Ok(Entity::from_raw(u32::MAX)),
            IdentifierManager::Full(entities, id_map) => match id_map.get_alive(id) {
                Ok(entity) => Ok(entity),
                Err(_) => {
                    let entity = reserve_entity(entities);
                    id_map.reserve_with(*id, entity);
                    Ok(entity)
                },
            },
        }
    }

    /// Get the Entity for a id type and id
    pub fn get_id(&mut self, id_type: u8, id: u32) -> (r: Result<Entity, IdentifierError>)
        requires
            old(self).wf(),
        ensures
            final(self).wf(),
            *old(self) is Ignore ==> *final(self) is Ignore && r == Ok::<Entity, IdentifierError>(
                Entity::placeholder(),
            ),
            *old(self) is Full ==> {
                &&& *final(self) is Full
                &&& *final((*final(self))->Full_1) == *final((*old(self))->Full_1)
                &&& resolves(
                    (*old(self))->Full_1@,
                    (*final(self))->Full_1@,
                    Identifier { entity_type: id_type, id },
                    r,
                )
            },
    {
        self.get_alive(&Identifier::new(id_type, id))
    }

    /// Get the Entity for a client if the client is present
    pub fn get_client(&mut self, client_id: u32) -> (r: Result<Entity, IdentifierError>)
        requires
            old(self).wf(),
        ensures
            final(self).wf(),
            *old(self) is Ignore ==> *final(self) is Ignore && r == Ok::<Entity, IdentifierError>(
                Entity::placeholder(),
            ),
            *old(self) is Full ==> {
                &&& *final(self) is Full
                &&& *final((*final(self))->Full_1) == *final((*old(self))->Full_1)
                &&& resolves(
                    (*old(self))->Full_1@,
                    (*final(self))->Full_1@,
                    Identifier { entity_type: 0, id: client_id },
                    r,
                )
            },
    {
        self.get_alive(&Identifier::new(0, client_id))
    }

    /// Get the Identifier for an Entity, if it has one
    pub fn from_entity(&self, entity: Entity) -> (r: Result<Identifier, IdentifierError>)
        ensures
            self is Ignore ==> r == Ok::<Identifier, IdentifierError>(
                Identifier { entity_type: 0, id: 0 },
            ),
            self is Full ==> r == (if self->Full_1@.to_id.dom().contains(entity) {
                Ok::<Identifier, IdentifierError>(self->Full_1@.to_id[entity])
            } else {
                Err(IdentifierError::NonExistent)
            }),
    {
        match self {
            IdentifierManager::Ignore => Ok(Identifier::new(0, 0)),
            IdentifierManager::Full(_, id_map) => id_map.from_entity(&entity),
        }
    }
}

} // verus!
