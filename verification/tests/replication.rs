use std::collections::HashMap;

use bevy::ecs::world::World;
use bevy_bundlication::buffer::{Buffers, SendRule, WriteBuffer};
use bevy_bundlication::bundle_info::LastUpdate;
use bevy_bundlication::client_authority::{
    accept_update, track_authority, Authority, HeldAuthority, Identity,
};
use bevy_bundlication::component_info::Remote;
use bevy_bundlication::despawn::{despawn_target, handle_despawns, send_despawns, DespawnChannel};
use bevy_bundlication::events::send_event;
use bevy_bundlication::identifier::{
    Entity, Identifier, IdentifierManager, IdentifierMap, Owner,
};
use bevy_bundlication::iter::{iterate_world, BundleSnapshot, Connection, EntitySnapshot};
use bevy_bundlication::packet::{Cursor, GroupStep, MessageHead, Step};
use bevy_bundlication::receive::resolve_entity;
use bevy_bundlication::registry::{
    find_bundle, register, RegisteredBundle, Registration, SendMethod,
};
use bevy_bundlication::test_impl::{
    ClientMessages, ServerMessages, TestClientPlugin, TestServerPlugin,
};
use bevy_bundlication::tick::Tick;

/// How a group of the test objects is held and read.
#[derive(Clone)]
struct Group {
    name: &'static str,
    method: SendMethod,
    /// The attributes of the group, each with the number of bytes it takes on the wire
    components: Vec<(usize, usize)>,
    /// Whether an update is added to the value in place of replacing it
    adds: bool,
}

#[derive(Default)]
struct Object {
    id: Option<Identifier>,
    authority: Option<Authority>,
    owner: Option<Owner>,
    /// The bytes of each attribute, with the change tick at which it was written
    values: HashMap<usize, (Vec<u8>, u32)>,
    remote: HashMap<usize, Remote<Vec<u8>>>,
    last: HashMap<u8, LastUpdate<u8>>,
    last_any: Option<LastUpdate<()>>,
}

struct Received {
    tick: Tick,
    sender: Identity,
    packet_id: u8,
    about: Entity,
    value: u16,
}

struct Peer {
    ident: Identity,
    world: World,
    order: Vec<Entity>,
    objects: HashMap<Entity, Object>,
    map: IdentifierMap,
    buffers: Buffers,
    buf: WriteBuffer,
    held: HeldAuthority,
    connections: Vec<Connection>,
    groups: Vec<Group>,
    outgoing: Vec<RegisteredBundle>,
    incoming: Vec<RegisteredBundle>,
    events_in: Vec<u8>,
    received: Vec<Received>,
    removed: Vec<Entity>,
    tick: Tick,
    last_run: u32,
    this_run: u32,
    despawn_channel: DespawnChannel,
}

fn registered(groups: &[Group]) -> Vec<RegisteredBundle> {
    let entries = groups
        .iter()
        .map(|g| Registration {
            name: g.name.as_bytes().to_vec(),
            method: g.method,
            component_ids: g.components.iter().map(|c| c.0).collect(),
        })
        .collect();
    register(entries).unwrap()
}

impl Peer {
    fn new(ident: Identity, despawn_channel: u8) -> Self {
        Peer {
            ident,
            world: World::new(),
            order: Vec::new(),
            objects: HashMap::new(),
            map: IdentifierMap::new(),
            buffers: Buffers::new(),
            buf: WriteBuffer::default(),
            held: HeldAuthority::new(),
            connections: Vec::new(),
            groups: Vec::new(),
            outgoing: Vec::new(),
            incoming: Vec::new(),
            events_in: Vec::new(),
            received: Vec::new(),
            removed: Vec::new(),
            tick: Tick(0),
            last_run: 0,
            this_run: 1,
            despawn_channel: DespawnChannel(despawn_channel),
        }
    }

    fn server(despawn_channel: u8) -> Self {
        Peer::new(Identity::Server, despawn_channel)
    }

    fn client(despawn_channel: u8) -> Self {
        let mut peer = Peer::new(Identity::Client(0), despawn_channel);
        peer.connections.push(Connection {
            ident: Identity::Server,
            new: false,
            replicate: true,
        });
        peer
    }

    fn register_outgoing(&mut self, groups: Vec<Group>) {
        self.outgoing = registered(&groups);
        self.groups = groups;
    }

    fn register_incoming(&mut self, groups: Vec<Group>) {
        self.incoming = registered(&groups);
        self.groups = groups;
    }

    fn connect(&mut self, client_id: u32) {
        self.connections.push(Connection {
            ident: Identity::Client(client_id),
            new: true,
            replicate: true,
        });
    }

    fn spawn_with_id(&mut self, id_type: u8, id: u32) -> Entity {
        let entity = Entity::from_bits(self.world.spawn_empty().id().to_bits());
        let id = Identifier::new(id_type, id);
        self.map.insert(id, entity);
        self.order.push(entity);
        self.objects.insert(
            entity,
            Object {
                id: Some(id),
                ..Default::default()
            },
        );
        entity
    }

    fn spawn_client(&mut self, client_id: u32) -> Entity {
        self.spawn_with_id(0, client_id)
    }

    fn set(&mut self, entity: Entity, component: usize, bytes: Vec<u8>) {
        let now = self.this_run;
        self.objects
            .get_mut(&entity)
            .unwrap()
            .values
            .insert(component, (bytes, now));
    }

    fn value(&self, entity: Entity, component: usize) -> Option<Vec<u8>> {
        self.objects
            .get(&entity)
            .and_then(|o| o.values.get(&component))
            .map(|v| v.0.clone())
    }

    fn despawn(&mut self, entity: Entity) {
        self.world
            .despawn(bevy::ecs::entity::Entity::from_bits(entity.to_bits()));
        self.objects.remove(&entity);
        self.order.retain(|e| *e != entity);
        self.removed.push(entity);
    }

    fn snapshots(&self) -> Vec<EntitySnapshot> {
        let mut list = Vec::new();
        for entity in &self.order {
            let object = &self.objects[entity];
            let Some(id) = object.id else { continue };
            let mut bundles = Vec::new();
            for (group, bundle) in self.groups.iter().zip(self.outgoing.iter()) {
                if !group
                    .components
                    .iter()
                    .all(|c| object.values.contains_key(&c.0))
                {
                    continue;
                }
                let mut payload = Vec::new();
                let mut changes = Vec::new();
                for c in &group.components {
                    let (bytes, changed) = &object.values[&c.0];
                    payload.extend_from_slice(&bytes[..c.1]);
                    changes.push(*changed);
                }
                bundles.push(BundleSnapshot {
                    packet_id: bundle.packet_id,
                    method: bundle.method,
                    changes,
                    payload,
                });
            }
            if bundles.is_empty() {
                continue;
            }
            list.push(EntitySnapshot {
                id,
                authority: object.authority,
                owner: object.owner,
                bundles,
            });
        }
        list
    }

    /// One step of the simulation: what came in is applied, what is due goes out.
    fn update(&mut self, incoming: Vec<(Identity, Vec<u8>)>) {
        for (sender, bytes) in incoming {
            self.process(sender, &bytes);
        }
        let removed = std::mem::take(&mut self.removed);
        send_despawns(
            &removed,
            &mut self.map,
            &mut self.buffers,
            &self.connections,
            &self.held,
            self.ident,
            self.tick,
            &mut self.buf,
            self.despawn_channel,
        );
        let changed: Vec<(Entity, Authority)> = self
            .order
            .iter()
            .filter_map(|e| self.objects[e].authority.map(|a| (*e, a)))
            .collect();
        track_authority(&changed, &removed, &mut self.held, self.ident);
        let entities = self.snapshots();
        iterate_world(
            &self.connections,
            &mut self.buffers,
            &mut self.buf,
            self.tick,
            self.ident,
            self.last_run,
            self.this_run,
            &entities,
        );
        for c in self.connections.iter_mut() {
            c.new = false;
        }
        self.last_run = self.this_run;
        self.this_run += 1;
    }

    fn end_step(&mut self) {
        self.tick = self.tick + 1;
    }

    fn process(&mut self, sender: Identity, bytes: &[u8]) {
        let Some(tick) = Tick::read(bytes) else {
            return;
        };
        let mut cursor = Cursor::new(bytes, 4);
        loop {
            match cursor.next_message() {
                Step::End | Step::Malformed => return,
                Step::Message(MessageHead::Despawn(id)) => {
                    let Some(entity) = despawn_target(&self.map, &id, tick) else {
                        continue;
                    };
                    let object = &self.objects[&entity];
                    let last = object.last_any.as_ref().map(|l| l.tick());
                    if handle_despawns(
                        &mut self.map,
                        sender,
                        tick,
                        &id,
                        &entity,
                        object.authority,
                        last,
                    ) {
                        self.world
                            .despawn(bevy::ecs::entity::Entity::from_bits(entity.to_bits()));
                        self.objects.remove(&entity);
                        self.order.retain(|e| *e != entity);
                    }
                }
                Step::Message(MessageHead::Entity(id)) => {
                    let target = {
                        let mut manager =
                            IdentifierManager::Full(self.world.entities(), &mut self.map);
                        resolve_entity(&mut manager, sender, &id, tick)
                    };
                    self.spawn_reserved();
                    loop {
                        match cursor.next_group() {
                            GroupStep::End => break,
                            GroupStep::Malformed => return,
                            GroupStep::Group(packet_id) => {
                                let Some(place) = find_bundle(&self.incoming, packet_id) else {
                                    return;
                                };
                                let group = self.groups[place].clone();
                                let len: usize = group.components.iter().map(|c| c.1).sum();
                                let payload = cursor.remaining().to_vec();
                                if !cursor.advance(len) {
                                    return;
                                }
                                if let Ok(entity) = target {
                                    self.apply(entity, &group, packet_id, sender, tick, &payload);
                                }
                            }
                        }
                    }
                }
                Step::Message(MessageHead::Event(packet_id)) => {
                    if !self.events_in.contains(&packet_id) {
                        return;
                    }
                    let Ok((entity_type, id, value)) =
                        bincode::deserialize::<(u8, u32, u16)>(cursor.remaining())
                    else {
                        return;
                    };
                    cursor.advance(7);
                    let about = {
                        let mut manager =
                            IdentifierManager::Full(self.world.entities(), &mut self.map);
                        manager.get_alive(&Identifier::new(entity_type, id))
                    };
                    self.spawn_reserved();
                    if let Ok(about) = about {
                        self.received.push(Received {
                            tick,
                            sender,
                            packet_id,
                            about,
                            value,
                        });
                    }
                }
            }
        }
    }

    fn spawn_reserved(&mut self) {
        for (id, entity) in self.map.take_unspawned() {
            self.world
                .get_or_spawn(bevy::ecs::entity::Entity::from_bits(entity.to_bits()))
                .unwrap();
            self.order.push(entity);
            self.objects.insert(
                entity,
                Object {
                    id: Some(id),
                    ..Default::default()
                },
            );
        }
    }

    fn apply(
        &mut self,
        entity: Entity,
        group: &Group,
        packet_id: u8,
        sender: Identity,
        tick: Tick,
        payload: &[u8],
    ) {
        let now = self.this_run;
        let object = self.objects.get_mut(&entity).unwrap();
        let last = object.last.get(&packet_id).map(|l| l.tick());
        let authority = object.authority.unwrap_or_default();
        let Ok(authority) = accept_update(authority, last, sender, tick) else {
            return;
        };
        if object.authority.is_some() {
            object.authority = Some(authority);
        }
        let mut at = 0;
        for (component, len) in &group.components {
            let bytes = payload[at..at + len].to_vec();
            at += len;
            if let Some(remote) = object.remote.get_mut(component) {
                *remote.update(tick) = bytes;
            } else if group.adds && object.values.contains_key(component) {
                let held = &mut object.values.get_mut(component).unwrap();
                held.0[0] += bytes[0];
                held.1 = now;
            } else {
                object.values.insert(*component, (bytes, now));
            }
        }
        object.last.insert(packet_id, LastUpdate::new(tick));
        match &mut object.last_any {
            Some(l) => l.touch(tick),
            None => object.last_any = Some(LastUpdate::new(tick)),
        }
    }
}

const NUMBER: usize = 10;
const COORDINATES: usize = 11;
const HP: usize = 12;
const TRANSFORM: usize = 13;
const MARKER: usize = 14;

fn number_bundle(method: SendMethod) -> Group {
    Group {
        name: "replication::NumberBundle",
        method,
        components: vec![(NUMBER, 1)],
        adds: false,
    }
}

fn server_step(peer: &mut Peer, msgs: &mut ServerMessages) {
    let incoming = TestServerPlugin.receive_messages(msgs);
    peer.update(incoming);
    TestServerPlugin.send_buffers(&mut peer.buffers, peer.tick, msgs);
    peer.end_step();
}

fn client_step(peer: &mut Peer, msgs: &mut ClientMessages) {
    let incoming = TestClientPlugin.receive_messages(msgs);
    peer.update(incoming);
    TestClientPlugin.send_buffers(&mut peer.buffers, peer.tick, msgs);
    peer.end_step();
}

#[test]
fn test_client_authority() {
    let mut app = Peer::server(0);
    app.register_incoming(vec![number_bundle(SendMethod::All)]);

    let e1 = app.spawn_client(1);
    app.objects.get_mut(&e1).unwrap().authority = Some(Authority::Client(1));
    let e2 = app.spawn_client(2);
    app.objects.get_mut(&e2).unwrap().authority = Some(Authority::Client(2));
    let e3 = app.spawn_with_id(1, 1);
    app.objects.get_mut(&e3).unwrap().authority = Some(Authority::Client(2));
    let e4 = app.spawn_with_id(1, 2);
    app.objects.get_mut(&e4).unwrap().authority = Some(Authority::Free);
    let e5 = app.spawn_with_id(1, 3);
    app.objects.get_mut(&e5).unwrap().authority = Some(Authority::Server);

    let mut msgs = ServerMessages::default();
    msgs.input.push((
        1,
        vec![
            1, 0, 0, 0, // Tick
            1, 0, 1, 0, 0, 0, 1, 5, 0, // 1
            1, 0, 2, 0, 0, 0, 1, 6, 0, // 2
            1, 1, 1, 0, 0, 0, 1, 7, 0, // 3
            1, 1, 2, 0, 0, 0, 1, 8, 0, // 4
            1, 1, 3, 0, 0, 0, 1, 9, 0, // 5
        ],
    ));
    server_step(&mut app, &mut msgs);

    assert_eq!(app.value(e1, NUMBER), Some(vec![5]));
    assert_eq!(app.value(e2, NUMBER), None);
    assert_eq!(app.value(e3, NUMBER), None);
    assert_eq!(app.value(e4, NUMBER), Some(vec![8]));
    assert_eq!(app.objects[&e4].authority, Some(Authority::Client(1)));
    assert_eq!(app.value(e5, NUMBER), None);

    let mut msgs = ServerMessages::default();
    msgs.input.push((
        2,
        vec![
            2, 0, 0, 0, // Tick
            1, 1, 1, 0, 0, 0, 1, 1, 0, // 1
            1, 1, 2, 0, 0, 0, 1, 2, 0, // 2
            1, 1, 3, 0, 0, 0, 1, 3, 0, // 3
        ],
    ));
    server_step(&mut app, &mut msgs);

    assert_eq!(app.value(e3, NUMBER), Some(vec![1]));
    assert_eq!(app.value(e4, NUMBER), Some(vec![8]));
    assert_eq!(app.value(e5, NUMBER), None);
}

#[test]
fn test_client_authority_despawn() {
    let mut app = Peer::server(13);

    let e1 = app.spawn_client(1);
    app.objects.get_mut(&e1).unwrap().authority = Some(Authority::Client(1));
    let e2 = app.spawn_client(2);
    app.objects.get_mut(&e2).unwrap().authority = Some(Authority::Client(2));
    let e3 = app.spawn_with_id(1, 1);
    app.objects.get_mut(&e3).unwrap().authority = Some(Authority::Free);
    let e4 = app.spawn_with_id(1, 2);
    app.objects.get_mut(&e4).unwrap().authority = Some(Authority::Server);

    let mut msgs = ServerMessages::default();
    msgs.input.push((
        1,
        vec![
            1, 0, 0, 0, // Tick
            0, 0, 1, 0, 0, 0, // e1
            0, 0, 2, 0, 0, 0, // e2
            0, 1, 1, 0, 0, 0, // e4
            0, 1, 2, 0, 0, 0, // e4
        ],
    ));
    server_step(&mut app, &mut msgs);

    assert!(!app.objects.contains_key(&e1));
    assert!(app.objects.contains_key(&e2));
    assert!(!app.objects.contains_key(&e3));
    assert!(app.objects.contains_key(&e4));
    assert_eq!(app.map.n_alive(), 2);
    assert_eq!(app.map.n_total(), 4);
}

#[test]
fn test_client_sends_only_right_despawns() {
    let mut app = Peer::client(13);
    app.ident = Identity::Client(1);

    let e1 = app.spawn_client(1);
    app.objects.get_mut(&e1).unwrap().authority = Some(Authority::Client(1));
    let e2 = app.spawn_client(2);
    app.objects.get_mut(&e2).unwrap().authority = Some(Authority::Client(2));
    let e3 = app.spawn_with_id(1, 1);
    app.objects.get_mut(&e3).unwrap().authority = Some(Authority::Free);
    let e4 = app.spawn_with_id(1, 2);
    app.objects.get_mut(&e4).unwrap().authority = Some(Authority::Server);
    let e5 = app.spawn_with_id(1, 3);
    app.objects.get_mut(&e5).unwrap().authority = Some(Authority::Free);

    // We ignore the initial data
    let mut msgs = ClientMessages::default();
    client_step(&mut app, &mut msgs);

    // We despawn entities 1-4
    for entity in [e1, e2, e3, e4] {
        app.despawn(entity);
    }

    let mut msgs = ClientMessages::default();
    client_step(&mut app, &mut msgs);

    assert_eq!(msgs.output.len(), 1);
    assert_eq!(
        msgs.output[0],
        (
            13,
            vec![
                1, 0, 0, 0, //Tick
                0, 0, 1, 0, 0, 0, //e1
                0, 1, 1, 0, 0, 0, //e3
            ]
        )
    );
}

#[test]
fn test_early_despawn() {
    let mut app = Peer::client(13);
    app.register_incoming(vec![number_bundle(SendMethod::All)]);

    let e1 = app.spawn_client(1);

    let mut msgs = ClientMessages::default();
    msgs.input.extend_from_slice(&[
        vec![
            1, 0, 0, 0, // Tick
            1, 0, 1, 0, 0, 0, 1, 1, 0, // update e1
        ],
        vec![
            5, 0, 0, 0, // Tick
            0, 0, 1, 0, 0, 0, // despawn e1
        ],
        vec![
            2, 0, 0, 0, // Tick
            1, 0, 1, 0, 0, 0, 1, 2, 0, // update e1
        ],
    ]);
    client_step(&mut app, &mut msgs);

    assert!(!app.objects.contains_key(&e1));
    assert_eq!(app.map.n_alive(), 0);
    assert_eq!(app.map.n_total(), 1);
}

#[test]
fn test_late_despawn() {
    let mut app = Peer::client(13);
    app.register_incoming(vec![number_bundle(SendMethod::All)]);

    app.spawn_client(1);

    let mut msgs = ClientMessages::default();
    msgs.input.extend_from_slice(&[
        vec![
            27, 0, 0, 0, // Tick
            1, 0, 1, 0, 0, 0, 1, 2, 0, // update e1
        ],
        vec![
            5, 0, 0, 0, // Tick
            0, 0, 1, 0, 0, 0, // despawn e1
        ],
    ]);
    client_step(&mut app, &mut msgs);

    assert_eq!(app.map.n_alive(), 1);
    assert_eq!(app.map.n_total(), 1);
}

fn event_bytes(about: Identifier, value: u16) -> Vec<u8> {
    bincode::serialize(&(about.entity_type(), about.id(), value)).unwrap()
}

#[test]
fn test_send_events() {
    let mut app = Peer::server(0);
    // BroadcastEvent is numbered 1 and TargetedEvent 2, by their names
    let ids = register(vec![
        Registration {
            name: b"events::TargetedEvent".to_vec(),
            method: SendMethod::All,
            component_ids: vec![],
        },
        Registration {
            name: b"events::BroadcastEvent".to_vec(),
            method: SendMethod::All,
            component_ids: vec![],
        },
    ])
    .unwrap();
    let targeted = ids[0].packet_id;
    let broadcast = ids[1].packet_id;

    app.connect(1);
    app.connect(2);

    let e1 = app.spawn_client(1);
    let e2 = app.spawn_client(2);

    let mut msgs = ServerMessages::default();
    server_step(&mut app, &mut msgs);
    assert_eq!(msgs.output.len(), 0);

    let about1 = app.map.from_entity(&e1).unwrap();
    let about2 = app.map.from_entity(&e2).unwrap();
    send_event(
        &mut app.buffers,
        &app.connections,
        app.tick,
        17,
        SendRule::Only(1),
        targeted,
        &event_bytes(about1, 10),
        &mut app.buf,
    );
    send_event(
        &mut app.buffers,
        &app.connections,
        app.tick,
        18,
        SendRule::Only(2),
        targeted,
        &event_bytes(about2, 11),
        &mut app.buf,
    );
    send_event(
        &mut app.buffers,
        &app.connections,
        app.tick,
        23,
        SendRule::All,
        broadcast,
        &event_bytes(about1, 30),
        &mut app.buf,
    );
    send_event(
        &mut app.buffers,
        &app.connections,
        app.tick,
        23,
        SendRule::All,
        broadcast,
        &event_bytes(about1, 31),
        &mut app.buf,
    );

    server_step(&mut app, &mut msgs);

    assert_eq!(msgs.output.len(), 4);

    assert!(msgs.output.contains(&(
        17,
        Identity::Client(1),
        vec![
            1, 0, 0, 0, // Tick
            2, 2, 0, 1, 0, 0, 0, 10, 0, // Event 1
        ]
    )));
    assert!(msgs.output.contains(&(
        18,
        Identity::Client(2),
        vec![
            1, 0, 0, 0, //Tick
            2, 2, 0, 2, 0, 0, 0, 11, 0, // Event 2
        ],
    )));
    for client_id in [1, 2] {
        assert!(msgs.output.contains(&(
            23,
            Identity::Client(client_id),
            vec![
                1, 0, 0, 0, // Tick
                2, 1, 0, 1, 0, 0, 0, 30, 0, // Event 4
                2, 1, 0, 1, 0, 0, 0, 31, 0, // Event 5
            ]
        )));
    }
    msgs.output.clear();
}

#[test]
fn test_receive_events() {
    let mut app = Peer::server(0);
    app.events_in = vec![1, 2];

    let e1 = app.spawn_client(1);
    let e2 = app.spawn_client(2);

    let mut msgs = ServerMessages::default();
    msgs.input.push((
        1,
        vec![
            2, 0, 0, 0, // Tick
            2, 2, 0, 2, 0, 0, 0, 10, 0, // Event 1
        ],
    ));
    msgs.input.push((
        2,
        vec![
            3, 0, 0, 0, //Tick
            2, 2, 0, 1, 0, 0, 0, 11, 0, // Event 2
        ],
    ));
    msgs.input.push((
        1,
        vec![
            7, 0, 0, 0, // Tick
            2, 1, 0, 1, 0, 0, 0, 12, 0, // Event 3
            2, 1, 0, 3, 0, 0, 0, 13, 0, // Event 4
        ],
    ));
    server_step(&mut app, &mut msgs);

    let has = |app: &Peer, packet_id: u8, tick: u32, sender: u32, about: Entity, value: u16| {
        app.received.iter().any(|r| {
            r.packet_id == packet_id
                && r.tick == Tick(tick)
                && r.sender == Identity::Client(sender)
                && r.about == about
                && r.value == value
        })
    };

    assert_eq!(app.received.iter().filter(|r| r.packet_id == 2).count(), 2);
    assert!(has(&app, 2, 2, 1, e2, 10));
    assert!(has(&app, 2, 3, 2, e1, 11));

    assert_eq!(app.received.iter().filter(|r| r.packet_id == 1).count(), 2);
    assert!(has(&app, 1, 7, 1, e1, 12));
    let e3 = app.map.get_client(3).unwrap();
    assert!(has(&app, 1, 7, 1, e3, 13));
}

#[test]
fn test_many_entities() {
    let mut app = Peer::server(0);
    app.register_outgoing(vec![number_bundle(SendMethod::All)]);

    // We spawn 25k entities
    for i in 0..25000u32 {
        let e = app.spawn_client(i);
        app.set(e, NUMBER, vec![(i % 255) as u8]);
    }
    app.connect(0);

    let mut msgs = ServerMessages::default();
    server_step(&mut app, &mut msgs);

    // We have 25k entities, each at 9 bytes (packet type (1), Identifier (5), bundle id (1), Number (1), entity end (1))
    // Packets can be at most 1200 bytes, that means we need over 188 packets
    println!("{}", msgs.output.len());
    assert!(msgs.output.len() == 204);

    let mut client_msgs = ClientMessages::default();
    for msg in msgs.output.drain(..) {
        client_msgs.input.push(msg.2)
    }

    let mut app = Peer::client(0);
    app.register_incoming(vec![number_bundle(SendMethod::All)]);
    client_step(&mut app, &mut client_msgs);

    assert_eq!(app.world.entities().len(), 25000);
}

#[test]
fn test_new_client() {
    let mut app = Peer::server(0);
    app.tick = Tick(1);
    app.register_outgoing(vec![number_bundle(SendMethod::All)]);
    let mut msgs = ServerMessages::default();

    let e = app.spawn_client(1);
    app.set(e, NUMBER, vec![2]);
    let e2 = app.spawn_with_id(1, 1);
    app.set(e2, NUMBER, vec![5]);
    let e3 = app.spawn_with_id(1, 2);
    app.set(e3, NUMBER, vec![7]);

    // We don't care about the initial updates, so we just reset those
    server_step(&mut app, &mut msgs);
    let mut msgs = ServerMessages::default();

    // We up the tick, change one element and connect a new client
    app.tick = Tick(2);
    app.set(e, NUMBER, vec![3]);
    app.connect(13);

    server_step(&mut app, &mut msgs);

    // Now we expect the changed entity to get broadcast, while the new clients also gets updated
    // about the other two entities
    assert_eq!(msgs.output.len(), 1);
    assert!(msgs.output.contains(&(
        0,
        Identity::Client(13),
        vec![
            2, 0, 0, 0, //Tick
            1, // Entity
            0, 1, 0, 0, 0, 1, 3, // 1
            0, 1, // end, entity
            1, 1, 0, 0, 0, 1, 5, // 2
            0, 1, // end, entity
            1, 2, 0, 0, 0, 1, 7, // 3
            0, // end
        ]
    ),));
}

#[test]
fn test_no_old_changes() {
    let mut app = Peer::client(0);
    app.register_incoming(vec![number_bundle(SendMethod::All)]);

    let e1 = app.spawn_with_id(1, 1);
    let e2 = app.spawn_with_id(1, 2);
    app.objects
        .get_mut(&e2)
        .unwrap()
        .last
        .insert(1, LastUpdate::new(Tick(3)));

    let mut msgs = ClientMessages::default();
    msgs.input.extend_from_slice(&[
        vec![1, 0, 0, 0, 1, 1, 1, 0, 0, 0, 1, 1, 0],
        vec![5, 0, 0, 0, 1, 1, 1, 0, 0, 0, 1, 5, 0],
        vec![2, 0, 0, 0, 1, 1, 2, 0, 0, 0, 1, 2, 0],
        vec![3, 0, 0, 0, 1, 1, 2, 0, 0, 0, 1, 3, 0],
        vec![7, 0, 0, 0, 1, 1, 3, 0, 0, 0, 1, 7, 0],
    ]);
    client_step(&mut app, &mut msgs);

    assert_eq!(app.value(e1, NUMBER), Some(vec![5]));
    assert_eq!(app.objects[&e1].last.get(&1), Some(&LastUpdate::new(Tick(5))));
    assert_eq!(app.value(e2, NUMBER), None);
    assert_eq!(app.objects[&e2].last.get(&1), Some(&LastUpdate::new(Tick(3))));
    let e3 = app.map.get_id(1, 3).unwrap();
    assert_eq!(app.value(e3, NUMBER), Some(vec![7]));
    assert_eq!(app.objects[&e3].last.get(&1), Some(&LastUpdate::new(Tick(7))));
}

#[test]
fn test_overlapping_bundles() {
    let mut app = Peer::server(0);
    let mut msgs = ServerMessages::default();

    let entity1 = app.spawn_client(1);
    app.set(entity1, COORDINATES, vec![5, 10]);
    app.set(entity1, HP, 3000u16.to_le_bytes().to_vec());
    // This is another entity type from client, so client 1 should be considered separate
    let entity2 = app.spawn_with_id(1, 1);
    app.set(entity2, COORDINATES, vec![3, 2]);
    app.set(entity2, HP, 500u16.to_le_bytes().to_vec());
    let entity7 = app.spawn_client(7);
    app.set(entity7, COORDINATES, vec![2, 90]);
    app.set(entity7, HP, 0u16.to_le_bytes().to_vec());
    app.connect(1);
    app.connect(7);

    app.register_outgoing(vec![
        Group {
            name: "overlapping_bundles::Test2Bundle",
            method: SendMethod::Owner,
            components: vec![(COORDINATES, 2), (HP, 2)],
            adds: false,
        },
        Group {
            name: "overlapping_bundles::Test1Bundle",
            method: SendMethod::Observer,
            components: vec![(COORDINATES, 2)],
            adds: false,
        },
    ]);
    server_step(&mut app, &mut msgs);

    assert_eq!(msgs.output.len(), 2);
    assert!(msgs.output.contains(&(
        0,
        Identity::Client(1),
        vec![
            0, 0, 0, 0, // Tick
            1, // Entity message
            0, 1, 0, 0, 0, // Identifier
            2, // Bundle
            5, 10, 184, 11, // Data
            0,  // End of Entity
            1,  // Entity message
            1, 1, 0, 0, 0, // Identifier
            1, // Bundle
            3, 2, // Data
            0, // End of Entity
            1, // Entity message
            0, 7, 0, 0, 0, // Identifier
            1, // Bundle
            2, 90, // Data
            0,  // End of Entity
        ]
    )));
    assert!(msgs.output.contains(&(
        0,
        Identity::Client(7),
        vec![
            0, 0, 0, 0, // Tick
            1, // Entity message
            0, 1, 0, 0, 0, // Identifier
            1, // Bundle
            5, 10, //Data
            0,  // End of Entity
            1,  // Entity message
            1, 1, 0, 0, 0, // Identifier
            1, // Bundle
            3, 2, // Data
            0, // End of Entity
            1, // Entity message
            0, 7, 0, 0, 0, // Identifier
            2, // Bundle
            2, 90, 0, 0, // Data
            0, // End of Entity
        ]
    )));
    msgs.output.clear();

    // Edit the HP of Player 7, should create a message for player 7 with coordinates and HP
    app.set(entity7, HP, 5u16.to_le_bytes().to_vec());
    server_step(&mut app, &mut msgs);

    assert_eq!(msgs.output.len(), 1);
    assert!(msgs.output.contains(&(
        0,
        Identity::Client(7),
        vec![
            1, 0, 0, 0, // Tick
            1, // Entity message
            0, 7, 0, 0, 0, // Identifier
            2, // Packet
            2, 90, 5, 0, // Data
            0, // End of Entity
        ]
    )));
    msgs.output.clear();

    // Edit the Coordinates of Player 1, should create a message for player 1 with coordinates
    // and HP, and a message for all others with only the new coordinates
    app.set(entity1, COORDINATES, vec![5 + 7, 10]);
    server_step(&mut app, &mut msgs);

    assert!(msgs.output.contains(&(
        0,
        Identity::Client(1),
        vec![
            2, 0, 0, 0, // Tick
            1, // Entity message
            0, 1, 0, 0, 0, // Identifier
            2, // Packet
            12, 10, 184, 11, // Data
            0,  // End of Entity
        ]
    )));
    assert!(msgs.output.contains(&(
        0,
        Identity::Client(7),
        vec![
            2, 0, 0, 0, // Tick
            1, // Entity message
            0, 1, 0, 0, 0, // Identifier
            1, // Packet
            12, 10, // Data
            0,  // End of Entity
        ]
    )));
    msgs.output.clear();

    // Edit the HP of the non-player entity, this should generate no messages
    app.set(entity2, HP, 1234u16.to_le_bytes().to_vec());
    server_step(&mut app, &mut msgs);

    assert_eq!(msgs.output.len(), 0);

    // Edit the Coordinates of the non-player entity, this should send the new coordinates to
    // everyone
    app.set(entity2, COORDINATES, vec![3, 2 + 6]);
    server_step(&mut app, &mut msgs);

    assert_eq!(msgs.output.len(), 2);
    for client in [1, 7] {
        assert!(msgs.output.contains(&(
            0,
            Identity::Client(client),
            vec![
                4, 0, 0, 0, // Tick
                1, // Entity message
                1, 1, 0, 0, 0, // Identifier
                1, // Packet
                3, 8, // Data
                0, // End of Entity
            ]
        )));
    }
    msgs.output.clear();
}

#[test]
fn test_remote_components() {
    let mut app = Peer::client(0);
    app.register_incoming(vec![number_bundle(SendMethod::All)]);

    let e1 = app.spawn_client(1);
    app.set(e1, NUMBER, vec![5]);
    let e2 = app.spawn_client(2);
    app.set(e2, NUMBER, vec![6]);
    app.objects
        .get_mut(&e2)
        .unwrap()
        .remote
        .insert(NUMBER, Remote::new(vec![2]));

    let mut msgs = ClientMessages::default();
    msgs.input.push(vec![
        1, 0, 0, 0, // Tick
        1, 0, 1, 0, 0, 0, 1, 12, 0, // 1
        1, 0, 2, 0, 0, 0, 1, 13, 0, // 2
    ]);
    client_step(&mut app, &mut msgs);

    assert_eq!(app.value(e1, NUMBER), Some(vec![12]));
    assert_eq!(app.value(e2, NUMBER), Some(vec![6]));
    assert_eq!(
        app.objects[&e2].remote.get(&NUMBER).map(|n| n.get().clone()),
        Some(vec![13])
    );
    assert_eq!(
        app.objects[&e2].remote.get(&NUMBER).map(|n| n.tick()),
        Some(Tick(1))
    );
}

#[test]
fn test_spawn() {
    let mut app = Peer::server(0);
    app.tick = Tick(1);
    let bundle = Group {
        name: "spawn::SpawnTestBundle",
        method: SendMethod::All,
        components: vec![(TRANSFORM, 3), (MARKER, 0)],
        adds: false,
    };
    app.register_outgoing(vec![bundle.clone()]);
    app.connect(1);

    // This entity has the complete bundle
    let e = app.spawn_client(1);
    app.set(e, TRANSFORM, vec![1, 2, 3]);
    app.set(e, MARKER, vec![]);
    let e = app.spawn_with_id(1, 1);
    app.set(e, TRANSFORM, vec![4, 0, 4]);
    app.set(e, MARKER, vec![]);
    let e = app.spawn_with_id(1, 2);
    app.set(e, TRANSFORM, vec![0, 0, 0]);
    app.set(e, MARKER, vec![]);

    let mut server_msgs = ServerMessages::default();
    server_step(&mut app, &mut server_msgs);

    let mut msgs = ClientMessages::default();
    for msg in server_msgs.output.iter() {
        msgs.input.push(msg.2.clone());
    }

    let mut app = Peer::client(0);
    app.register_incoming(vec![bundle]);

    let entity = app.spawn_client(1);
    app.set(entity, TRANSFORM, vec![0, 0, 0]);

    client_step(&mut app, &mut msgs);

    assert_eq!(app.world.entities().len(), 3);
    let entity1 = app.map.get_client(1).unwrap();
    assert_eq!(entity, entity1);
    let entity2 = app.map.get_id(1, 1).unwrap();
    let entity3 = app.map.get_id(1, 2).unwrap();

    assert_eq!(app.value(entity1, TRANSFORM), Some(vec![1, 2, 3]));
    assert!(app.value(entity1, MARKER).is_some());
    assert_eq!(app.value(entity2, TRANSFORM), Some(vec![4, 0, 4]));
    assert!(app.value(entity2, MARKER).is_some());
    assert_eq!(app.value(entity3, TRANSFORM), Some(vec![0, 0, 0]));
    assert!(app.value(entity3, MARKER).is_some());
}

#[test]
fn test_update() {
    let mut app = Peer::client(0);
    app.register_incoming(vec![Group {
        name: "update::SumBundle",
        method: SendMethod::All,
        components: vec![(NUMBER, 1)],
        adds: true,
    }]);

    let e1 = app.spawn_client(1);
    let e2 = app.spawn_client(2);
    app.set(e2, NUMBER, vec![2]);

    let mut msgs = ClientMessages::default();
    msgs.input.push(vec![
        1, 0, 0, 0, // Tick
        1, 0, 1, 0, 0, 0, 1, 5, 0, // 1
        1, 0, 2, 0, 0, 0, 1, 5, 0, // 2
    ]);
    client_step(&mut app, &mut msgs);

    assert_eq!(app.value(e1, NUMBER), Some(vec![5]));
    assert_eq!(app.value(e2, NUMBER), Some(vec![7]));
}

/// What is left of the object (0, 1) after the server's packets came in, in the given order:
/// the value that it holds, if it is alive.
fn after_packets(packets: &[Vec<u8>]) -> Option<Vec<u8>> {
    let mut app = Peer::client(13);
    app.register_incoming(vec![number_bundle(SendMethod::All)]);
    app.spawn_client(1);

    let mut msgs = ClientMessages::default();
    msgs.input.extend_from_slice(packets);
    client_step(&mut app, &mut msgs);

    assert_eq!(app.map.n_total(), 1);
    match app.map.get_client(1) {
        Ok(entity) => {
            assert_eq!(app.map.n_alive(), 1);
            assert_eq!(app.objects.len(), 1);
            Some(app.value(entity, NUMBER).unwrap())
        }
        Err(_) => {
            assert_eq!(app.map.n_alive(), 0);
            assert_eq!(app.objects.len(), 0);
            None
        }
    }
}

fn update_at(tick: u8, value: u8) -> Vec<u8> {
    vec![tick, 0, 0, 0, 1, 0, 1, 0, 0, 0, 1, value, 0]
}

fn despawn_at(tick: u8) -> Vec<u8> {
    vec![tick, 0, 0, 0, 0, 0, 1, 0, 0, 0]
}

#[test]
fn a_despawn_and_an_older_update_despawn_in_either_order() {
    assert_eq!(after_packets(&[update_at(3, 9), despawn_at(5)]), None);
    assert_eq!(after_packets(&[despawn_at(5), update_at(3, 9)]), None);
}

#[test]
fn a_despawn_and_an_update_of_one_tick_despawn_in_either_order() {
    assert_eq!(after_packets(&[update_at(5, 9), despawn_at(5)]), None);
    assert_eq!(after_packets(&[despawn_at(5), update_at(5, 9)]), None);
}

#[test]
fn a_despawn_and_a_newer_update_leave_the_object_alive_in_either_order() {
    assert_eq!(after_packets(&[update_at(7, 9), despawn_at(5)]), Some(vec![9]));
    assert_eq!(after_packets(&[despawn_at(5), update_at(7, 9)]), Some(vec![9]));
}

#[test]
fn a_packet_that_ends_badly_keeps_what_was_applied() {
    let mut packet = update_at(2, 4);
    packet.extend_from_slice(&[1, 0, 1, 0, 0]);
    assert_eq!(after_packets(&[packet]), Some(vec![4]));
    let mut packet = update_at(2, 4);
    packet.extend_from_slice(&[7, 1, 2, 3]);
    packet.extend_from_slice(&update_at(3, 5)[4..]);
    assert_eq!(after_packets(&[packet, update_at(1, 6)]), Some(vec![4]));
}
