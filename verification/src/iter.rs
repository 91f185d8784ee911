//! The send cycle: every live object is looked at once, and what has
//! changed is written to the buffers of those who are to get it.

use crate::buffer::{
    is_newer_than, newer_than, taken_view, BufferKey, Buffers, RecipientData, SendRule,
    TakenBuffers, TakenBuffersView, WriteBuffer, WriteFilters,
};
use crate::client_authority::{Authority, Identity};
use crate::identifier::{Identifier, Owner};
use crate::packet::{head_bytes, write_end, write_entity, MessageHead};
use crate::registry::{RegisteredBundle, SendMethod};
use crate::tick::Tick;
use vstd::prelude::*;

verus! {

/// A connection to another process.
#[derive(Clone, Copy, Debug)]
pub struct Connection {
    /// Who is at the other end
    pub ident: Identity,
    /// True until the first send cycle after the connection asked for
    /// objects: it has acknowledged nothing yet
    pub new: bool,
    /// Whether objects are sent to the connection
    pub replicate: bool,
}

/// Whether some connection is to get everything.
pub open spec fn any_new(connections: Seq<Connection>) -> bool {
    exists|i: int|
        0 <= i < connections.len() && (#[trigger] connections[i]).new && connections[i].replicate
}

/// Those who get objects, in the order of the connections: a new one has
/// acknowledged nothing, the others the last send cycle.
pub open spec fn targets_of(connections: Seq<Connection>, last_run: u32) -> Seq<
    (Identity, RecipientData),
>
    decreases connections.len(),
{
    if connections.len() == 0 {
        Seq::empty()
    } else {
        let rest = targets_of(connections.drop_last(), last_run);
        let c = connections.last();
        if c.replicate {
            rest.push(
                (
                    c.ident,
                    RecipientData {
                        last_ack: if c.new {
                            None
                        } else {
                            Some(last_run)
                        },
                    },
                ),
            )
        } else {
            rest
        }
    }
}

/// An attribute group of an object, as the object store holds it when the
/// send cycle begins.
#[derive(Clone, Debug)]
pub struct BundleSnapshot {
    /// The packet id that stands for the group
    pub packet_id: u8,
    /// Who gets the group
    pub method: SendMethod,
    /// When each attribute of the group was last changed
    pub changes: Vec<u32>,
    /// The attributes of the group as bytes
    pub payload: Vec<u8>,
}

/// An object, as the object store holds it when the send cycle begins.
#[derive(Clone, Debug)]
pub struct EntitySnapshot {
    /// What the object is, on every process
    pub id: Identifier,
    /// Who holds authority over the object, if it carries that
    pub authority: Option<Authority>,
    /// The peer that the object belongs to, if it carries that
    pub owner: Option<Owner>,
    /// The registered groups that the object has all attributes of
    pub bundles: Vec<BundleSnapshot>,
}

/// The newest change so far, of the group at hand and of the object as a
/// whole, after the change ticks of some attributes were looked at: a
/// change tick that is newer than the group's replaces it, and replaces the
/// object's too if it is newer than that.
pub open spec fn scanned(start: (u32, u32), this_run: u32, changes: Seq<u32>) -> (u32, u32)
    decreases changes.len(),
{
    if changes.len() == 0 {
        start
    } else {
        let before = scanned(start, this_run, changes.drop_last());
        let c = changes.last();
        if newer_than(c, before.0, this_run) {
            (
                c,
                if newer_than(c, before.1, this_run) {
                    c
                } else {
                    before.1
                },
            )
        } else {
            before
        }
    }
}

/// The newest change of the first `n` groups of an object, or `last_run`
/// where none of them changed since.
pub open spec fn entity_changed(
    bundles: Seq<BundleSnapshot>,
    n: int,
    last_run: u32,
    this_run: u32,
) -> u32
    decreases n,
{
    if n <= 0 {
        last_run
    } else {
        scanned(
            (last_run, entity_changed(bundles, n - 1, last_run, this_run)),
            this_run,
            bundles[n - 1].changes@,
        ).1
    }
}

/// The newest change of the group at `k`, or `last_run` where it did not
/// change since.
pub open spec fn bundle_changed(
    bundles: Seq<BundleSnapshot>,
    k: int,
    last_run: u32,
    this_run: u32,
) -> u32 {
    scanned(
        (last_run, entity_changed(bundles, k, last_run, this_run)),
        this_run,
        bundles[k].changes@,
    ).0
}

/// The peer that an object belongs to: the one it names as its owner, or
/// else the peer that it stands for, if it stands for one.
pub open spec fn owner_of(entity: EntitySnapshot) -> Option<u32> {
    match entity.owner {
        Some(owner) => Some(owner.0),
        None => if entity.id.entity_type == 0 {
            Some(entity.id.id)
        } else {
            None
        },
    }
}

/// The buffers after one group of an object was written: nothing, where
/// the group did not change and nobody is new, or where its method names
/// nobody; else its packet id and its bytes, offered to those whom the
/// rule names and who have not seen the change.
pub open spec fn bundle_sent(
    view: TakenBuffersView,
    bundle: BundleSnapshot,
    owner: Option<u32>,
    changed: u32,
    new_clients: bool,
    last_run: u32,
) -> TakenBuffersView {
    if !new_clients && changed == last_run {
        view
    } else {
        match bundle.method.rule_for(owner) {
            None => view,
            Some(rule) => view.sent(rule, changed, seq![bundle.packet_id] + bundle.payload@),
        }
    }
}

/// The buffers after the first `n` groups of an object were written.
pub open spec fn bundles_sent(
    view: TakenBuffersView,
    entity: EntitySnapshot,
    n: int,
    new_clients: bool,
    last_run: u32,
) -> TakenBuffersView
    decreases n,
{
    if n <= 0 {
        view
    } else {
        bundle_sent(
            bundles_sent(view, entity, n - 1, new_clients, last_run),
            entity.bundles@[n - 1],
            owner_of(entity),
            bundle_changed(entity.bundles@, n - 1, last_run, view.this_run),
            new_clients,
            last_run,
        )
    }
}

/// Whether an object is passed over: a client passes over what it cannot
/// claim, and everyone what did not change, unless somebody is new.
pub open spec fn passed_over(
    entity: EntitySnapshot,
    ident: Identity,
    new_clients: bool,
    last_run: u32,
    this_run: u32,
) -> bool {
    ||| ident is Client && entity.authority is Some && !entity.authority->Some_0.claimable_by(
        ident->Client_0,
    )
    ||| !new_clients && entity_changed(
        entity.bundles@,
        entity.bundles@.len() as int,
        last_run,
        this_run,
    ) == last_run
}

/// The buffers of a send cycle, and the bytes that are written and not
/// yet sent.
pub ghost struct Sending {
    /// The buffers
    pub view: TakenBuffersView,
    /// The bytes that wait in the write buffer
    pub buf: Seq<u8>,
}

/// The send cycle after one object: passed over, or written as one
/// message, which is its head, its groups and the byte that ends it. The
/// seven bytes of head and end are overhead: a recipient that gets no
/// group gets nothing.
pub open spec fn entity_sent(
    s: Sending,
    entity: EntitySnapshot,
    ident: Identity,
    new_clients: bool,
    last_run: u32,
) -> Sending {
    if passed_over(entity, ident, new_clients, last_run, s.view.this_run) {
        s
    } else {
        let opened = s.view.with_overhead(7).sent(
            SendRule::All,
            s.view.this_run,
            s.buf + head_bytes(MessageHead::Entity(entity.id)),
        );
        let written = bundles_sent(
            opened,
            entity,
            entity.bundles@.len() as int,
            new_clients,
            last_run,
        );
        Sending {
            view: written.sent(SendRule::All, s.view.this_run, seq![0u8]).fragmented(),
            buf: Seq::empty(),
        }
    }
}

/// The send cycle after the first `n` objects.
pub open spec fn world_sent(
    s: Sending,
    entities: Seq<EntitySnapshot>,
    n: int,
    ident: Identity,
    new_clients: bool,
    last_run: u32,
) -> Sending
    decreases n,
{
    if n <= 0 {
        s
    } else {
        entity_sent(
            world_sent(s, entities, n - 1, ident, new_clients, last_run),
            entities[n - 1],
            ident,
            new_clients,
            last_run,
        )
    }
}

/// Look at the change ticks of the attributes of one group.
fn scan_changes(start: (u32, u32), this_run: u32, changes: &Vec<u32>) -> (r: (u32, u32))
    ensures
        r == scanned(start, this_run, changes@),
{
    let mut last_changed = start.0;
    let mut changed = start.1;
    let mut i: usize = 0;
    while i < changes.len()
        invariant
            0 <= i <= changes@.len(),
            (last_changed, changed) == scanned(start, this_run, changes@.subrange(0, i as int)),
        decreases changes@.len() - i,
    {
        proof {
            assert(changes@.subrange(0, i + 1).drop_last() =~= changes@.subrange(0, i as int));
            assert(changes@.subrange(0, i + 1).last() == changes@[i as int]);
        }
        let c = changes[i];
        if is_newer_than(c, last_changed, this_run) {
            last_changed = c;
            if is_newer_than(c, changed, this_run) {
                changed = c;
            }
        }
        i += 1;
    }
    proof {
        assert(changes@.subrange(0, changes@.len() as int) =~= changes@);
    }
    (last_changed, changed)
}

/// Those who get objects.
fn targets(connections: &Vec<Connection>, last_run: u32) -> (r: Vec<(Identity, RecipientData)>)
    ensures
        r@ == targets_of(connections@, last_run),
{
    let mut r: Vec<(Identity, RecipientData)> = Vec::new();
    let mut i: usize = 0;
    while i < connections.len()
        invariant
            0 <= i <= connections@.len(),
            r@ == targets_of(connections@.subrange(0, i as int), last_run),
        decreases connections@.len() - i,
    {
        proof {
            assert(connections@.subrange(0, i + 1).drop_last() =~= connections@.subrange(
                0,
                i as int,
            ));
            assert(connections@.subrange(0, i + 1).last() == connections@[i as int]);
        }
        let c = connections[i];
        if c.replicate {
            let last_ack = if c.new {
                None
            } else {
                Some(last_run)
            };
            r.push((c.ident, RecipientData { last_ack }));
        }
        i += 1;
    }
    proof {
        assert(connections@.subrange(0, connections@.len() as int) =~= connections@);
    }
    r
}

/// Whether some connection is to get everything.
fn has_new(connections: &Vec<Connection>) -> (r: bool)
    ensures
        r == any_new(connections@),
{
    let mut i: usize = 0;
    while i < connections.len()
        invariant
            0 <= i <= connections@.len(),
            forall|j: int|
                0 <= j < i ==> !((#[trigger] connections@[j]).new && connections@[j].replicate),
        decreases connections@.len() - i,
    {
        if connections[i].new && connections[i].replicate {
            return true;
        }
        i += 1;
    }
    false
}

/// Write one object to the buffers of a send cycle.
fn send_entity(
    taken: &mut TakenBuffers,
    buf: &mut WriteBuffer,
    entity: &EntitySnapshot,
    ident: Identity,
    new_clients: bool,
    last_run: u32,
)
    requires
        old(taken).wf(),
        old(taken)@.overhead == 0,
    ensures
        final(taken).wf(),
        final(taken)@.overhead == 0,
        *final(final(taken).buffers) == *final(old(taken).buffers),
        (Sending { view: final(taken)@, buf: final(buf)@ }) == entity_sent(
            Sending { view: old(taken)@, buf: old(buf)@ },
            *entity,
            ident,
            new_clients,
            last_run,
        ),
{
    let this_run = taken.this_run;
    if let Identity::Client(client_id) = ident {
        if let Some(auth) = entity.authority {
            if !auth.can_claim(client_id) {
                return ;
            }
        }
    }
    let n = entity.bundles.len();
    let mut changed = last_run;
    let mut last_changed: Vec<u32> = Vec::new();
    let mut k: usize = 0;
    while k < n
        invariant
            0 <= k <= n,
            n == entity.bundles@.len(),
            changed == entity_changed(entity.bundles@, k as int, last_run, this_run),
            last_changed@.len() == k,
            forall|j: int|
                0 <= j < k ==> #[trigger] last_changed@[j] == bundle_changed(
                    entity.bundles@,
                    j,
                    last_run,
                    this_run,
                ),
        decreases n - k,
    {
        let r = scan_changes((last_run, changed), this_run, &entity.bundles[k].changes);
        last_changed.push(r.0);
        changed = r.1;
        k += 1;
    }
    if !new_clients && changed == last_run {
        return ;
    }
    let owner = match entity.owner {
        Some(owner) => Some(owner.0),
        None => if entity.id.is_client() {
            Some(entity.id.id)
        } else {
            None
        },
    };
    taken.overhead(7);
    write_entity(buf, &entity.id);
    taken.send(SendRule::All, buf);
    let ghost opened = taken@;
    assert(opened == old(taken)@.with_overhead(7).sent(
        SendRule::All,
        this_run,
        old(buf)@ + head_bytes(MessageHead::Entity(entity.id)),
    ));
    let mut k: usize = 0;
    while k < n
        invariant
            0 <= k <= n,
            n == entity.bundles@.len(),
            last_changed@.len() == n,
            owner == owner_of(*entity),
            opened.this_run == this_run,
            taken@.this_run == this_run,
            taken.wf(),
            buf@ == Seq::<u8>::empty(),
            *final(taken.buffers) == *final(old(taken).buffers),
            taken@ == bundles_sent(opened, *entity, k as int, new_clients, last_run),
            forall|j: int|
                0 <= j < n ==> #[trigger] last_changed@[j] == bundle_changed(
                    entity.bundles@,
                    j,
                    last_run,
                    this_run,
                ),
        decreases n - k,
    {
        let changed_at = last_changed[k];
        if new_clients || changed_at != last_run {
            if let Some(rule) = entity.bundles[k].method.rule(owner) {
                buf.push(entity.bundles[k].packet_id);
                buf.extend_from_slice(entity.bundles[k].payload.as_slice());
                assert(buf@ =~= seq![entity.bundles@[k as int].packet_id]
                    + entity.bundles@[k as int].payload@);
                taken.send_filtered(WriteFilters { rule, changed: changed_at }, buf);
            }
        }
        k += 1;
    }
    write_end(buf);
    assert(buf@ =~= seq![0u8]);
    taken.send(SendRule::All, buf);
    taken.fragment();
}

/// Run a send cycle: take the buffers of channel 0 for those who get
/// objects, write every object that is due as one message, and give the
/// buffers back. Without connections nothing happens.
pub fn iterate_world(
    connections: &Vec<Connection>,
    buffers: &mut Buffers,
    buf: &mut WriteBuffer,
    tick: Tick,
    ident: Identity,
    last_run: u32,
    this_run: u32,
    entities: &Vec<EntitySnapshot>,
)
    requires
        old(buffers).wf(),
    ensures
        final(buffers).wf(),
        connections@.len() == 0 ==> {
            &&& final(buffers).pending() == old(buffers).pending()
            &&& final(buffers).filled() == old(buffers).filled()
            &&& final(buf)@ == old(buf)@
        },
        connections@.len() > 0 ==> {
            let sent = world_sent(
                Sending {
                    view: taken_view(
                        old(buffers).pending(),
                        old(buffers).filled(),
                        tick,
                        0,
                        this_run,
                        targets_of(connections@, last_run),
                    ),
                    buf: old(buf)@,
                },
                entities@,
                entities@.len() as int,
                ident,
                any_new(connections@),
                last_run,
            );
            &&& final(buffers).pending() == sent.view.released()
            &&& final(buffers).filled() == sent.view.filled
            &&& final(buf)@ == sent.buf
        },
{
    if connections.len() == 0 {
        return ;
    }
    let new_clients = has_new(connections);
    let mut taken = buffers.take(tick, 0, this_run, targets(connections, last_run));
    let ghost start = Sending { view: taken@, buf: buf@ };
    let ghost home = *final(taken.buffers);
    let mut i: usize = 0;
    while i < entities.len()
        invariant
            0 <= i <= entities@.len(),
            taken.wf(),
            taken@.overhead == 0,
            *final(taken.buffers) == home,
            (Sending { view: taken@, buf: buf@ }) == world_sent(
                start,
                entities@,
                i as int,
                ident,
                new_clients,
                last_run,
            ),
        decreases entities@.len() - i,
    {
        send_entity(&mut taken, buf, &entities[i], ident, new_clients, last_run);
        i += 1;
    }
    taken.release();
}

/// A combination of attributes that objects of the object store have.
#[derive(Clone, Debug)]
pub struct Archetype {
    /// The number of the combination in the object store
    pub id: usize,
    /// The attributes of the combination
    pub components: Vec<usize>,
}

/// The attributes that replication itself puts on objects.
#[derive(Clone, Copy, Debug)]
pub struct MarkerIds {
    /// The attribute that holds the identifier
    pub identifier: usize,
    /// The attribute that holds the owner
    pub owner: usize,
    /// The attribute that holds the authority
    pub authority: usize,
}

/// Whether objects with these attributes have every attribute that a
/// registered type asks for.
pub open spec fn fits(bundle: RegisteredBundle, components: Seq<usize>) -> bool {
    forall|k: int|
        0 <= k < bundle.component_ids@.len() ==> components.contains(
            #[trigger] bundle.component_ids@[k],
        )
}

/// The places of those among the first `n` registered types that fit.
pub open spec fn matching(registry: Seq<RegisteredBundle>, components: Seq<usize>, n: int) -> Seq<
    usize,
>
    decreases n,
{
    if n <= 0 {
        Seq::empty()
    } else {
        let rest = matching(registry, components, n - 1);
        if fits(registry[n - 1], components) {
            rest.push((n - 1) as usize)
        } else {
            rest
        }
    }
}

/// What the cache holds of one archetype, as the contracts see it.
pub ghost struct EntryView {
    /// The number of the archetype
    pub archetype: usize,
    /// Whether its objects name an owner
    pub has_owner: bool,
    /// The places of the registered types that fit
    pub bundles: Seq<usize>,
    /// For each of them, room for the tick of its last change
    pub last_changed: Seq<u32>,
}

/// Whether an archetype is cached: its objects carry an identifier, a
/// client sends only what carries an authority, and some registered type
/// fits.
pub open spec fn is_cached(
    ident: Identity,
    markers: MarkerIds,
    registry: Seq<RegisteredBundle>,
    archetype: Archetype,
) -> bool {
    &&& archetype.components@.contains(markers.identifier)
    &&& ident is Server || archetype.components@.contains(markers.authority)
    &&& matching(registry, archetype.components@, registry.len() as int).len() > 0
}

/// What is cached of an archetype.
pub open spec fn entry_of(
    markers: MarkerIds,
    registry: Seq<RegisteredBundle>,
    archetype: Archetype,
) -> EntryView {
    let bundles = matching(registry, archetype.components@, registry.len() as int);
    EntryView {
        archetype: archetype.id,
        has_owner: archetype.components@.contains(markers.owner),
        bundles,
        last_changed: Seq::new(bundles.len(), |i: int| 0u32),
    }
}

/// The cache after the archetypes from `from` up to `to` were looked at.
pub open spec fn cached(
    list: Seq<EntryView>,
    ident: Identity,
    markers: MarkerIds,
    registry: Seq<RegisteredBundle>,
    archetypes: Seq<Archetype>,
    from: int,
    to: int,
) -> Seq<EntryView>
    decreases to - from,
{
    if to <= from {
        list
    } else {
        let rest = cached(list, ident, markers, registry, archetypes, from, to - 1);
        if is_cached(ident, markers, registry, archetypes[to - 1]) {
            rest.push(entry_of(markers, registry, archetypes[to - 1]))
        } else {
            rest
        }
    }
}

/// What is cached of one archetype
pub struct ArchetypeCacheEntry {
    archetype: usize,
    has_owner: bool,
    bundles: Vec<usize>,
    last_changed: Vec<u32>,
}

impl View for ArchetypeCacheEntry {
    type V = EntryView;

    closed spec fn view(&self) -> EntryView {
        EntryView {
            archetype: self.archetype,
            has_owner: self.has_owner,
            bundles: self.bundles@,
            last_changed: self.last_changed@,
        }
    }
}

impl ArchetypeCacheEntry {
    /// The number of the archetype.
    pub fn archetype(&self) -> (r: usize)
        ensures
            r == self@.archetype,
    {
        self.archetype
    }

    /// Whether the objects of the archetype name an owner.
    pub fn has_owner(&self) -> (r: bool)
        ensures
            r == self@.has_owner,
    {
        self.has_owner
    }

    /// The places of the registered types that fit the archetype.
    pub fn bundles(&self) -> (r: &Vec<usize>)
        ensures
            r@ == self@.bundles,
    {
        &self.bundles
    }
}

/// The archetypes whose objects are replicated, and how many archetypes
/// of the object store have been looked at.
pub struct ArchetypeCache {
    list: Vec<ArchetypeCacheEntry>,
    generation: usize,
}

impl ArchetypeCache {
    /// The entries of the cache, oldest first.
    pub closed spec fn entries(&self) -> Seq<EntryView> {
        self.list@.map_values(|e: ArchetypeCacheEntry| e@)
    }

    /// How many archetypes have been looked at.
    pub closed spec fn generation(&self) -> int {
        self.generation as int
    }

    /// The entries of the cache, oldest first.
    pub fn list(&self) -> (r: &Vec<ArchetypeCacheEntry>)
        ensures
            r@.map_values(|e: ArchetypeCacheEntry| e@) == self.entries(),
    {
        &self.list
    }
}

impl Default for ArchetypeCache {
    fn default() -> (r: ArchetypeCache)
        ensures
            r.entries() == Seq::<EntryView>::empty(),
            r.generation() == 0,
    {
        let r = ArchetypeCache { list: Vec::new(), generation: 0 };
        assert(r.entries() =~= Seq::<EntryView>::empty());
        r
    }
}

/// Whether a list of attributes holds an attribute.
fn has_component(components: &Vec<usize>, id: usize) -> (r: bool)
    ensures
        r == components@.contains(id),
{
    let mut i: usize = 0;
    while i < components.len()
        invariant
            0 <= i <= components@.len(),
            forall|j: int| 0 <= j < i ==> components@[j] != id,
        decreases components@.len() - i,
    {
        if components[i] == id {
            return true;
        }
        i += 1;
    }
    false
}

/// Whether a registered type fits a list of attributes.
fn bundle_fits(bundle: &RegisteredBundle, components: &Vec<usize>) -> (r: bool)
    ensures
        r == fits(*bundle, components@),
{
    let mut k: usize = 0;
    while k < bundle.component_ids.len()
        invariant
            0 <= k <= bundle.component_ids@.len(),
            forall|j: int|
                0 <= j < k ==> components@.contains(#[trigger] bundle.component_ids@[j]),
        decreases bundle.component_ids@.len() - k,
    {
        if !has_component(components, bundle.component_ids[k]) {
            return false;
        }
        k += 1;
    }
    true
}

/// Bring the cache up to date with the archetypes that the object store
/// has made since the cache last looked.
pub fn update_archetype_cache(
    ident: Identity,
    markers: MarkerIds,
    registry: &Vec<RegisteredBundle>,
    archetypes: &Vec<Archetype>,
    cache: &mut ArchetypeCache,
)
    ensures
        final(cache).generation() == (if old(cache).generation() <= archetypes@.len() {
            archetypes@.len() as int
        } else {
            old(cache).generation()
        }),
        final(cache).entries() == cached(
            old(cache).entries(),
            ident,
            markers,
            registry@,
            archetypes@,
            old(cache).generation(),
            archetypes@.len() as int,
        ),
{
    let since = cache.generation;
    let mut a: usize = since;
    while a < archetypes.len()
        invariant
            since <= a,
            since <= archetypes@.len() ==> a <= archetypes@.len(),
            since > archetypes@.len() ==> a == since,
            cache.generation == since,
            since == old(cache).generation(),
            cache.entries() == cached(
                old(cache).entries(),
                ident,
                markers,
                registry@,
                archetypes@,
                since as int,
                a as int,
            ),
        decreases archetypes@.len() - a,
    {
        let archetype = &archetypes[a];
        let mut bundles: Vec<usize> = Vec::new();
        let mut last_changed: Vec<u32> = Vec::new();
        let mut b: usize = 0;
        while b < registry.len()
            invariant
                0 <= b <= registry@.len(),
                bundles@ == matching(registry@, archetype.components@, b as int),
                last_changed@ == Seq::new(bundles@.len(), |i: int| 0u32),
            decreases registry@.len() - b,
        {
            if bundle_fits(&registry[b], &archetype.components) {
                bundles.push(b);
                last_changed.push(0);
                assert(last_changed@ =~= Seq::new(bundles@.len(), |i: int| 0u32));
            }
            b += 1;
        }
        let marked = has_component(&archetype.components, markers.identifier);
        let sendable = match ident {
            Identity::Server => true,
            Identity::Client(_) => has_component(&archetype.components, markers.authority),
        };
        if marked && sendable && bundles.len() > 0 {
            let has_owner = has_component(&archetype.components, markers.owner);
            let ghost before = cache.entries();
            let entry = ArchetypeCacheEntry { archetype: archetype.id, has_owner, bundles, last_changed };
            assert(entry@ == entry_of(markers, registry@, *archetype));
            cache.list.push(entry);
            assert(cache.entries() =~= before.push(entry@));
        }
        a += 1;
    }
    if since <= archetypes.len() {
        cache.generation = archetypes.len();
    }
}

} // verus!
