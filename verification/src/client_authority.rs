//! Who may write an object, and who a connection is.

use crate::identifier::{lemma_bits_injective, Entity, Identifier};
use crate::tick::Tick;
use vstd::prelude::*;

verus! {

/// Who holds authority over an object. An object that carries none behaves
/// as if it carried `Server`.
#[derive(Clone, Copy, PartialEq, Eq, Structural, Debug)]
pub enum Authority {
    /// The server holds authority, this is the default
    Server,
    /// The authority is free for anyone to claim
    Free,
    /// Authority is held by a specific client
    Client(u32),
}

impl Default for Authority {
    fn default() -> (r: Authority)
        ensures
            r == Authority::Server,
    {
        Authority::Server
    }
}

impl Authority {
    /// Whether the client may write: the authority is free or already the
    /// client's.
    pub open spec fn claimable_by(self, client_id: u32) -> bool {
        match self {
            Authority::Server => false,
            Authority::Free => true,
            Authority::Client(owner) => owner == client_id,
        }
    }

    /// Check if the client can claim authority
    pub fn can_claim(&self, client_id: u32) -> (r: bool)
        ensures
            r == self.claimable_by(client_id),
    {
        match *self {
            Authority::Server => false,
            Authority::Free => true,
            Authority::Client(owner) => owner == client_id,
        }
    }
}

/// The identity of a connection
#[derive(Clone, Copy, PartialEq, Eq, Structural, Debug, Hash)]
pub enum Identity {
    /// The identity is the server
    Server,
    /// The identity is a client with the specified id
    Client(u32),
}

impl Identity {
    /// Whether this process may send an object that carries `auth`: the
    /// server always, a client only what it holds itself.
    pub open spec fn may_send(self, auth: Option<Authority>) -> bool {
        match self {
            Identity::Server => true,
            Identity::Client(id) => auth == Some(Authority::Client(id)),
        }
    }

    /// Check if an entity can be sent based on our local [Identity] and the entity's [Authority]
    pub fn can_send(self, auth: Option<&Authority>) -> (r: bool)
        ensures
            r == self.may_send(
                match auth {
                    Some(a) => Some(*a),
                    None => None,
                },
            ),
    {
        match self {
            Identity::Server => true,
            Identity::Client(id) => match auth {
                Some(a) => *a == Authority::Client(id),
                None => false,
            },
        }
    }

    /// The identifier of the object that stands for this client.
    pub fn as_identifier(&self) -> (r: Identifier)
        requires
            self is Client,
        ensures
            r == (Identifier { entity_type: 0, id: self->Client_0 }),
    {
        match self {
            Identity::Client(client_id) => Identifier::new(0, *client_id),
            Identity::Server => Identifier::new(0, 0),
        }
    }
}

/// Why an incoming update was not applied.
#[derive(Clone, Copy, PartialEq, Eq, Structural, Debug)]
pub enum UpdateError {
    /// Its tick is not newer than the last update that was applied
    Stale,
    /// Its sender holds no authority over the object
    Unauthorized,
}

/// What becomes of an update that `sender` stamped with `tick`, for an
/// object under `authority` whose group was last updated at `last`: the
/// authority the object has once the update is applied, or why it is dropped.
pub open spec fn update_outcome(
    authority: Authority,
    last: Option<Tick>,
    sender: Identity,
    tick: Tick,
) -> Result<Authority, UpdateError> {
    if last is Some && tick.0 <= last->Some_0.0 {
        Err(UpdateError::Stale)
    } else {
        match sender {
            Identity::Server => Ok(authority),
            Identity::Client(p) => if authority.claimable_by(p) {
                Ok(Authority::Client(p))
            } else {
                Err(UpdateError::Unauthorized)
            },
        }
    }
}

/// Decide whether an update is applied. A stale update is dropped first;
/// the server may always write; a client may write what it holds, and claims
/// what is free by writing it.
pub fn accept_update(authority: Authority, last: Option<Tick>, sender: Identity, tick: Tick) -> (r:
    Result<Authority, UpdateError>)
    ensures
        r == update_outcome(authority, last, sender, tick),
{
    if let Some(l) = last {
        if tick.0 <= l.0 {
            return Err(UpdateError::Stale);
        }
    }
    match sender {
        Identity::Server => Ok(authority),
        Identity::Client(p) => if authority.can_claim(p) {
            Ok(Authority::Client(p))
        } else {
            Err(UpdateError::Unauthorized)
        },
    }
}

/// An attribute group of one object, as the updates to it see it.
pub ghost struct GroupState<V> {
    /// Who holds authority over the object
    pub authority: Authority,
    /// The tick of the last update that was applied
    pub last: Option<Tick>,
    /// What the last applied update wrote
    pub value: V,
}

/// The group after an update arrived: written and stamped where the update
/// is applied, untouched where it is dropped.
pub open spec fn applied<V>(state: GroupState<V>, sender: Identity, tick: Tick, value: V) -> GroupState<V> {
    match update_outcome(state.authority, state.last, sender, tick) {
        Ok(authority) => GroupState { authority, last: Some(tick), value },
        Err(_) => state,
    }
}

/// The newer update wins: when one sender's updates of ticks `t1 < t2`
/// arrive in either order, the group ends as if the update of `t2` had
/// arrived alone. After it, the update of `t1` changes nothing.
pub proof fn lemma_newer_update_wins<V>(
    state: GroupState<V>,
    sender: Identity,
    t1: Tick,
    v1: V,
    t2: Tick,
    v2: V,
)
    requires
        t1.0 < t2.0,
    ensures
        applied(applied(state, sender, t2, v2), sender, t1, v1) == applied(state, sender, t2, v2),
        applied(applied(state, sender, t1, v1), sender, t2, v2) == applied(state, sender, t2, v2),
{
}

/// An update whose tick is not newer than the last applied one changes
/// nothing, whoever sent it: a tie is not newer.
pub proof fn lemma_stale_update_is_dropped<V>(
    state: GroupState<V>,
    sender: Identity,
    tick: Tick,
    value: V,
)
    requires
        state.last is Some,
        tick.0 <= state.last->Some_0.0,
    ensures
        update_outcome(state.authority, state.last, sender, tick) == Err::<Authority, UpdateError>(
            UpdateError::Stale,
        ),
        applied(state, sender, tick, value) == state,
{
}

/// A client's attempt to write an object, and so to claim it where it is
/// free.
pub ghost struct Claim {
    /// The client that writes
    pub peer: u32,
    /// The tick of its update
    pub tick: Tick,
}

/// The authority and the last applied tick after a list of attempts, in the
/// order in which they arrived.
pub open spec fn after_claims(authority: Authority, last: Option<Tick>, claims: Seq<Claim>) -> (
    Authority,
    Option<Tick>,
)
    decreases claims.len(),
{
    if claims.len() == 0 {
        (authority, last)
    } else {
        let before = after_claims(authority, last, claims.drop_last());
        match update_outcome(
            before.0,
            before.1,
            Identity::Client(claims.last().peer),
            claims.last().tick,
        ) {
            Ok(now) => (now, Some(claims.last().tick)),
            Err(_) => before,
        }
    }
}

/// Whether the attempt at `i` is applied when the attempts arrive in order.
pub open spec fn claim_accepted(
    authority: Authority,
    last: Option<Tick>,
    claims: Seq<Claim>,
    i: int,
) -> bool {
    let before = after_claims(authority, last, claims.subrange(0, i));
    update_outcome(before.0, before.1, Identity::Client(claims[i].peer), claims[i].tick) is Ok
}

/// Authority is exclusive: of the attempts of clients to write a free
/// object, the first that is applied makes its client the holder. From
/// then on the holder stays, an attempt of another client is dropped, and
/// one of the holder is applied exactly when its tick is newer than the
/// last applied one.
pub proof fn lemma_first_claim_wins(last: Option<Tick>, claims: Seq<Claim>, first: int, i: int)
    requires
        0 <= first < i <= claims.len(),
        claim_accepted(Authority::Free, last, claims, first),
        forall|j: int| 0 <= j < first ==> !claim_accepted(Authority::Free, last, claims, j),
    ensures
        after_claims(Authority::Free, last, claims.subrange(0, i)).0 == Authority::Client(
            claims[first].peer,
        ),
        after_claims(Authority::Free, last, claims.subrange(0, i)).1 is Some,
        i < claims.len() ==> (claim_accepted(Authority::Free, last, claims, i) <==> (claims[i].peer
            == claims[first].peer && claims[i].tick.0 > after_claims(
            Authority::Free,
            last,
            claims.subrange(0, i),
        ).1->Some_0.0)),
    decreases i,
{
    let prefix = claims.subrange(0, i);
    assert(prefix.drop_last() =~= claims.subrange(0, i - 1));
    assert(prefix.last() == claims[i - 1]);
    if i - 1 == first {
        lemma_unclaimed(last, claims, first);
    } else {
        lemma_first_claim_wins(last, claims, first, i - 1);
    }
}

/// While no attempt has been applied, a free object stays as it was.
proof fn lemma_unclaimed(last: Option<Tick>, claims: Seq<Claim>, n: int)
    requires
        0 <= n <= claims.len(),
        forall|j: int| 0 <= j < n ==> !claim_accepted(Authority::Free, last, claims, j),
    ensures
        after_claims(Authority::Free, last, claims.subrange(0, n)) == (Authority::Free, last),
    decreases n,
{
    if n > 0 {
        let prefix = claims.subrange(0, n);
        assert(prefix.drop_last() =~= claims.subrange(0, n - 1));
        assert(prefix.last() == claims[n - 1]);
        lemma_unclaimed(last, claims, n - 1);
        assert(!claim_accepted(Authority::Free, last, claims, n - 1));
    }
}

/// The handles that a hash set of `bevy::utils` holds, each as its number.
#[verifier::external_body]
pub struct EntitySet {
    inner: bevy::utils::HashSet<u64>,
}

/// The numbers that a set holds.
pub uninterp spec fn entity_set_contents(set: EntitySet) -> Set<u64>;

/// `HashSet::default` of `bevy::utils`: a set that holds nothing.
#[verifier::external_body]
fn entity_set_new() -> (set: EntitySet)
    ensures
        entity_set_contents(set) == Set::<u64>::empty(),
{
    EntitySet { inner: bevy::utils::HashSet::default() }
}

/// `HashSet::insert` of hashbrown: the value is in the set afterwards, and
/// nothing else changes.
#[verifier::external_body]
fn entity_set_insert(set: &mut EntitySet, bits: u64)
    ensures
        entity_set_contents(*final(set)) == entity_set_contents(*old(set)).insert(bits),
{
    set.inner.insert(bits);
}

/// `HashSet::remove` of hashbrown: the value is not in the set afterwards,
/// and nothing else changes.
#[verifier::external_body]
fn entity_set_remove(set: &mut EntitySet, bits: u64)
    ensures
        entity_set_contents(*final(set)) == entity_set_contents(*old(set)).remove(bits),
{
    set.inner.remove(&bits);
}

/// `HashSet::contains` of hashbrown: whether the value is in the set.
#[verifier::external_body]
fn entity_set_contains(set: &EntitySet, bits: u64) -> (r: bool)
    ensures
        r == entity_set_contents(*set).contains(bits),
{
    set.inner.contains(&bits)
}

/// A set keeping track of which entities we hold [Authority] for. Only updated for clients,
/// as the server always has authority to modify things
pub struct HeldAuthority(EntitySet);

impl View for HeldAuthority {
    type V = Set<Entity>;

    closed spec fn view(&self) -> Set<Entity> {
        Set::new(|entity: Entity| entity_set_contents(self.0).contains(entity.bits()))
    }
}

impl Default for HeldAuthority {
    fn default() -> (r: HeldAuthority)
        ensures
            r@ == Set::<Entity>::empty(),
    {
        HeldAuthority::new()
    }
}

impl HeldAuthority {
    /// A set that holds nothing.
    pub fn new() -> (r: HeldAuthority)
        ensures
            r@ == Set::<Entity>::empty(),
    {
        let r = HeldAuthority(entity_set_new());
        assert(r@ =~= Set::<Entity>::empty());
        r
    }

    /// Whether we hold authority over the entity.
    pub fn contains(&self, entity: &Entity) -> (r: bool)
        ensures
            r == self@.contains(*entity),
    {
        entity_set_contains(&self.0, entity.to_bits())
    }

    /// Note that we hold authority over the entity.
    pub fn insert(&mut self, entity: Entity)
        ensures
            final(self)@ == old(self)@.insert(entity),
    {
        entity_set_insert(&mut self.0, entity.to_bits());
        proof {
            assert forall|e: Entity| self@.contains(e) <==> old(self)@.insert(entity).contains(
                e,
            ) by {
                lemma_bits_injective(e, entity);
            }
            assert(self@ =~= old(self)@.insert(entity));
        }
    }

    /// Note that we hold no authority over the entity.
    pub fn remove(&mut self, entity: &Entity)
        ensures
            final(self)@ == old(self)@.remove(*entity),
    {
        entity_set_remove(&mut self.0, entity.to_bits());
        proof {
            assert forall|e: Entity| self@.contains(e) <==> old(self)@.remove(*entity).contains(
                e,
            ) by {
                lemma_bits_injective(e, *entity);
            }
            assert(self@ =~= old(self)@.remove(*entity));
        }
    }
}

/// The held set after the authority of some entities changed, in the order
/// given: an entity that the client can claim is held, another is not.
pub open spec fn held_after(
    held: Set<Entity>,
    changed: Seq<(Entity, Authority)>,
    client_id: u32,
) -> Set<Entity>
    decreases changed.len(),
{
    if changed.len() == 0 {
        held
    } else {
        let before = held_after(held, changed.drop_last(), client_id);
        if changed.last().1.claimable_by(client_id) {
            before.insert(changed.last().0)
        } else {
            before.remove(changed.last().0)
        }
    }
}

/// Keep the held set up to date: `changed` lists the entities whose
/// authority changed, each with its new authority, and `removed` those that
/// lost their authority altogether. The server keeps no such set.
pub fn track_authority(
    changed: &Vec<(Entity, Authority)>,
    removed: &Vec<Entity>,
    held: &mut HeldAuthority,
    our_ident: Identity,
)
    ensures
        our_ident is Server ==> final(held)@ == old(held)@,
        our_ident is Client ==> final(held)@ == held_after(
            old(held)@,
            changed@,
            our_ident->Client_0,
        ).difference(removed@.to_set()),
{
    let client_id = match our_ident {
        Identity::Client(client_id) => client_id,
        Identity::Server => {
            return ;
        },
    };
    let mut i: usize = 0;
    while i < changed.len()
        invariant
            0 <= i <= changed.len(),
            held@ == held_after(old(held)@, changed@.subrange(0, i as int), client_id),
        decreases changed.len() - i,
    {
        proof {
            assert(changed@.subrange(0, i + 1).drop_last() =~= changed@.subrange(0, i as int));
            assert(changed@.subrange(0, i + 1).last() == changed@[i as int]);
        }
        let entity = changed[i].0;
        if changed[i].1.can_claim(client_id) {
            held.insert(entity);
        } else {
            held.remove(&entity);
        }
        i += 1;
    }
    proof {
        assert(changed@.subrange(0, changed.len() as int) =~= changed@);
    }
    let ghost base = held@;
    let mut j: usize = 0;
    while j < removed.len()
        invariant
            0 <= j <= removed.len(),
            held@ == base.difference(removed@.subrange(0, j as int).to_set()),
        decreases removed.len() - j,
    {
        let entity = removed[j];
        held.remove(&entity);
        proof {
            let before = removed@.subrange(0, j as int);
            let now = removed@.subrange(0, j + 1);
            assert forall|e: Entity| now.to_set().contains(e) <==> (before.to_set().contains(e)
                || e == entity) by {
                if before.to_set().contains(e) {
                    let k = choose|k: int| 0 <= k < before.len() && before[k] == e;
                    assert(now[k] == e);
                }
                if e == entity {
                    assert(now[j as int] == e);
                }
                if now.to_set().contains(e) {
                    let k = choose|k: int| 0 <= k < now.len() && now[k] == e;
                    if k < j {
                        assert(before[k] == e);
                    }
                }
            }
            assert(held@ =~= base.difference(now.to_set()));
        }
        j += 1;
    }
    proof {
        assert(removed@.subrange(0, removed.len() as int) =~= removed@);
    }
}

} // verus!
