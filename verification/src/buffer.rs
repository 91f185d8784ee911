//! Buffers of outgoing bytes, one for each channel and recipient, and the
//! cutting of those bytes into packets.

use crate::client_authority::Identity;
use crate::tick::{le_bytes, Tick};
use vstd::prelude::*;

verus! {

/// The rule for which client receives a message
#[derive(Debug, Clone, PartialEq, Eq, PartialOrd, Ord, Hash)]
pub enum SendRule {
    /// Send the message to all connections
    All,
    /// Send the message to all connections, except the one for specified client id
    Except(u32),
    /// Send the message to only the one for specified client id
    Only(u32),
    /// Send the message to the connections of the listed client ids
    List(Vec<u32>),
}

/// Whether a list of client ids holds a client id.
fn is_listed(client_ids: &Vec<u32>, client_id: u32) -> (r: bool)
    ensures
        r == client_ids@.contains(client_id),
{
    let mut i: usize = 0;
    while i < client_ids.len()
        invariant
            0 <= i <= client_ids@.len(),
            forall|j: int| 0 <= j < i ==> client_ids@[j] != client_id,
        decreases client_ids@.len() - i,
    {
        if client_ids[i] == client_id {
            return true;
        }
        i += 1;
    }
    false
}

impl SendRule {
    /// Whether the rule names the given connection.
    pub open spec fn admits(self, ident: Identity) -> bool {
        match self {
            SendRule::All => true,
            SendRule::Except(client_id) => ident != Identity::Client(client_id),
            SendRule::Only(client_id) => ident == Identity::Client(client_id),
            SendRule::List(client_ids) => ident is Client && client_ids@.contains(
                ident->Client_0,
            ),
        }
    }

    /// Check if the [SendRule] includes the given [Identity]
    pub fn includes(&self, ident: Identity) -> (r: bool)
        ensures
            r == self.admits(ident),
    {
        match self {
            SendRule::All => true,
            SendRule::Except(client_id) => ident != Identity::Client(*client_id),
            SendRule::Only(client_id) => ident == Identity::Client(*client_id),
            SendRule::List(client_ids) => match ident {
                Identity::Server => false,
                Identity::Client(client_id) => is_listed(client_ids, client_id),
            },
        }
    }
}

/// A buffer at or above this length is cut into packets.
pub const THRESHOLD: usize = 1100;

/// A packet that holds more than one message stays below this length, the
/// tick not counted.
pub const CAP: usize = 1198;

/// The room that a new buffer starts with.
const PREALLOC: usize = 1500;

/// The key of a buffer, contains information about where to send the data
#[derive(Clone, Copy, Hash, PartialEq, Eq, Structural, Debug)]
pub struct BufferKey {
    /// The ID of the client the buffer is for
    pub destination: Identity,
    /// The channel the message needs to be sent on
    pub channel: u8,
}

impl BufferKey {
    /// The key as one number: the channel above the destination.
    pub open spec fn code(self) -> u64 {
        (self.channel as u64 * 0x2_0000_0000 + match self.destination {
            Identity::Server => 0u64,
            Identity::Client(c) => (0x1_0000_0000 + c as u64) as u64,
        }) as u64
    }

    /// The key that a number stands for.
    pub open spec fn of_code(code: u64) -> BufferKey {
        let low = code % 0x2_0000_0000;
        BufferKey {
            destination: if low >= 0x1_0000_0000 {
                Identity::Client((low - 0x1_0000_0000) as u32)
            } else {
                Identity::Server
            },
            channel: ((code / 0x2_0000_0000) % 256) as u8,
        }
    }

    /// True of the numbers that stand for a key.
    pub open spec fn is_code(code: u64) -> bool {
        Self::of_code(code).code() == code
    }

    fn encode(self) -> (r: u64)
        ensures
            r == self.code(),
            Self::of_code(r) == self,
    {
        let low: u64 = match self.destination {
            Identity::Server => 0,
            Identity::Client(c) => 0x1_0000_0000 + c as u64,
        };
        self.channel as u64 * 0x2_0000_0000 + low
    }

    fn decode(code: u64) -> (r: BufferKey)
        ensures
            r == Self::of_code(code),
    {
        let low: u64 = code % 0x2_0000_0000;
        BufferKey {
            destination: if low >= 0x1_0000_0000 {
                Identity::Client((low - 0x1_0000_0000) as u32)
            } else {
                Identity::Server
            },
            channel: ((code / 0x2_0000_0000) % 256) as u8,
        }
    }
}

/// Each key has a number of its own.
pub proof fn lemma_code_injective(a: BufferKey, b: BufferKey)
    ensures
        BufferKey::of_code(a.code()) == a,
        a.code() == b.code() ==> a == b,
{
}

/// A buffer used to write messages before adding them to the correct buffers
pub struct WriteBuffer(Vec<u8>);

impl View for WriteBuffer {
    type V = Seq<u8>;

    closed spec fn view(&self) -> Seq<u8> {
        self.0@
    }
}

impl Default for WriteBuffer {
    fn default() -> (r: WriteBuffer)
        ensures
            r@ == Seq::<u8>::empty(),
    {
        WriteBuffer(Vec::with_capacity(4096))
    }
}

impl WriteBuffer {
    /// The number of bytes written and not yet sent.
    pub fn len(&self) -> (r: usize)
        ensures
            r == self@.len(),
    {
        self.0.len()
    }

    /// The bytes written and not yet sent.
    pub fn as_slice(&self) -> (r: &[u8])
        ensures
            r@ == self@,
    {
        self.0.as_slice()
    }

    /// Write one byte.
    pub fn push(&mut self, byte: u8)
        ensures
            final(self)@ == old(self)@.push(byte),
    {
        self.0.push(byte);
    }

    /// Write the bytes of a slice.
    pub fn extend_from_slice(&mut self, bytes: &[u8])
        ensures
            final(self)@ == old(self)@ + bytes@,
    {
        self.0.extend_from_slice(bytes);
    }

    /// Write the bytes of a slice, all of them, and say how many they were.
    pub fn write(&mut self, buf: &[u8]) -> (r: usize)
        ensures
            final(self)@ == old(self)@ + buf@,
            r == buf@.len(),
    {
        self.0.extend_from_slice(buf);
        buf.len()
    }

    /// Nothing is held back, so there is nothing to flush.
    pub fn flush(&mut self)
        ensures
            final(self)@ == old(self)@,
    {
    }

    /// Forget what was written.
    pub fn clear(&mut self)
        ensures
            final(self)@ == Seq::<u8>::empty(),
    {
        self.0.clear();
    }
}

/// The buffers that wait in a hash map of `bevy::utils`, each under the
/// number of its key.
#[verifier::external_body]
pub struct BufferTable {
    inner: bevy::utils::HashMap<u64, Vec<u8>>,
}

/// The bytes that a table holds, by the number of their key.
pub uninterp spec fn buffer_table_contents(table: BufferTable) -> Map<u64, Seq<u8>>;

/// `HashMap::default` of `bevy::utils`: a map that holds nothing.
#[verifier::external_body]
fn buffer_table_new() -> (table: BufferTable)
    ensures
        buffer_table_contents(table) == (Map::<u64, Seq<u8>>::empty()),
{
    BufferTable { inner: bevy::utils::HashMap::default() }
}

/// `HashMap::insert` of hashbrown: the value stands under the key
/// afterwards, in place of an earlier one; no other key changes.
#[verifier::external_body]
fn buffer_table_insert(table: &mut BufferTable, code: u64, bytes: Vec<u8>)
    ensures
        buffer_table_contents(*final(table)) == buffer_table_contents(*old(table)).insert(
            code,
            bytes@,
        ),
{
    table.inner.insert(code, bytes);
}

/// `HashMap::remove` of hashbrown: the key is gone afterwards and no other
/// key changes; what stood under it is returned.
#[verifier::external_body]
fn buffer_table_remove(table: &mut BufferTable, code: u64) -> (r: Option<Vec<u8>>)
    ensures
        buffer_table_contents(*final(table)) == buffer_table_contents(*old(table)).remove(code),
        r is Some == buffer_table_contents(*old(table)).dom().contains(code),
        r is Some ==> r->Some_0@ == buffer_table_contents(*old(table))[code],
{
    table.inner.remove(&code)
}

/// `HashMap::keys` of hashbrown: every key of the map once, in an order
/// that is not stated.
#[verifier::external_body]
fn buffer_table_keys(table: &BufferTable) -> (r: Vec<u64>)
    ensures
        r@.no_duplicates(),
        r@.to_set() == buffer_table_contents(*table).dom(),
{
    table.inner.keys().copied().collect()
}

/// A packet of `tick` that carries `payload`.
pub open spec fn packet_bytes(tick: Tick, payload: Seq<u8>) -> Seq<u8> {
    le_bytes(tick.0) + payload
}

/// A packet that is ready to be sent, as the contracts see it.
pub open spec fn packet_view(packet: (BufferKey, Vec<u8>)) -> (BufferKey, Seq<u8>) {
    (packet.0, packet.1@)
}

/// The packets of a list, as the contracts see them.
pub open spec fn packets_view(packets: Seq<(BufferKey, Vec<u8>)>) -> Seq<(BufferKey, Seq<u8>)> {
    packets.map_values(|p: (BufferKey, Vec<u8>)| packet_view(p))
}

/// What draining hands out: first one packet for each key whose buffer
/// holds bytes, the tick and then those bytes, in an order that is not
/// stated; then the packets that were cut before, oldest first.
pub open spec fn drained(
    pending: Map<BufferKey, Seq<u8>>,
    filled: Seq<(BufferKey, Seq<u8>)>,
    tick: Tick,
    out: Seq<(BufferKey, Seq<u8>)>,
) -> bool {
    let n = out.len() - filled.len();
    &&& n >= 0
    &&& out.subrange(n, out.len() as int) == filled
    &&& forall|i: int|
        0 <= i < n ==> {
            &&& pending.dom().contains((#[trigger] out[i]).0)
            &&& pending[out[i].0].len() > 0
            &&& out[i].1 == packet_bytes(tick, pending[out[i].0])
        }
    &&& forall|i: int, j: int| 0 <= i < j < n ==> (#[trigger] out[i]).0 != (#[trigger] out[j]).0
    &&& forall|k: BufferKey| #[trigger]
        pending.dom().contains(k) && pending[k].len() > 0 ==> exists|i: int|
            0 <= i < n && (#[trigger] out[i]).0 == k
}

/// Append the four bytes of a tick to a packet.
fn push_tick(packet: &mut Vec<u8>, tick: &[u8; 4])
    ensures
        final(packet)@ == old(packet)@ + tick@,
{
    packet.push(tick[0]);
    packet.push(tick[1]);
    packet.push(tick[2]);
    packet.push(tick[3]);
    assert(packet@ =~= old(packet)@ + tick@);
}

/// A resource holding buffers with data that needs to be sent
pub struct Buffers {
    current: BufferTable,
    filled: Vec<(BufferKey, Vec<u8>)>,
}

impl Default for Buffers {
    fn default() -> (r: Buffers)
        ensures
            r.wf(),
            r.pending() == (Map::<BufferKey, Seq<u8>>::empty()),
            r.filled() == (Seq::<(BufferKey, Seq<u8>)>::empty()),
    {
        Buffers::new()
    }
}

impl Buffers {
    /// Every buffer stands under the number of a key.
    pub closed spec fn wf(&self) -> bool {
        forall|code: u64| #[trigger]
            buffer_table_contents(self.current).dom().contains(code) ==> BufferKey::is_code(code)
    }

    /// The bytes that wait for each key.
    pub closed spec fn pending(&self) -> Map<BufferKey, Seq<u8>> {
        Map::new(
            |k: BufferKey| buffer_table_contents(self.current).dom().contains(k.code()),
            |k: BufferKey| buffer_table_contents(self.current)[k.code()],
        )
    }

    /// The packets that were cut and wait to be drained, oldest first.
    pub closed spec fn filled(&self) -> Seq<(BufferKey, Seq<u8>)> {
        packets_view(self.filled@)
    }

    /// Buffers that hold nothing.
    pub fn new() -> (r: Buffers)
        ensures
            r.wf(),
            r.pending() == (Map::<BufferKey, Seq<u8>>::empty()),
            r.filled() == (Seq::<(BufferKey, Seq<u8>)>::empty()),
    {
        let r = Buffers { current: buffer_table_new(), filled: Vec::new() };
        assert(r.pending() =~= Map::<BufferKey, Seq<u8>>::empty());
        assert(r.filled() =~= Seq::<(BufferKey, Seq<u8>)>::empty());
        r
    }

    /// Remove all registered buffers for the given [`Identity`]
    pub fn remove(&mut self, ident: Identity)
        requires
            old(self).wf(),
        ensures
            final(self).wf(),
            final(self).filled() == old(self).filled(),
            final(self).pending() == old(self).pending().restrict(
                Set::new(|k: BufferKey| k.destination != ident),
            ),
    {
        let keys = buffer_table_keys(&self.current);
        let ghost before = buffer_table_contents(self.current);
        let mut i: usize = 0;
        while i < keys.len()
            invariant
                0 <= i <= keys.len(),
                keys@.no_duplicates(),
                keys@.to_set() == before.dom(),
                self.filled == old(self).filled,
                before == buffer_table_contents(old(self).current),
                forall|code: u64| #[trigger]
                    before.dom().contains(code) ==> BufferKey::is_code(code),
                forall|code: u64| #[trigger]
                    buffer_table_contents(self.current).dom().contains(code) <==> (
                    before.dom().contains(code) && !(exists|j: int|
                        0 <= j < i && keys@[j] == code && BufferKey::of_code(code).destination
                            == ident)),
                forall|code: u64| #[trigger]
                    buffer_table_contents(self.current).dom().contains(code)
                        ==> buffer_table_contents(self.current)[code] == before[code],
            decreases keys.len() - i,
        {
            let code = keys[i];
            let key = BufferKey::decode(code);
            if key.destination == ident {
                let _ = buffer_table_remove(&mut self.current, code);
            }
            i += 1;
        }
        proof {
            let after = self.pending();
            let want = old(self).pending().restrict(
                Set::new(|k: BufferKey| k.destination != ident),
            );
            assert forall|k: BufferKey| after.dom().contains(k) <==> want.dom().contains(k) by {
                lemma_code_injective(k, k);
                if before.dom().contains(k.code()) {
                    assert(keys@.to_set().contains(k.code()));
                    let j = choose|j: int| 0 <= j < keys@.len() && keys@[j] == k.code();
                    assert(keys@[j] == k.code());
                }
            }
            assert(after =~= want);
        }
    }

    /// Drain all available packets
    pub fn drain(&mut self, tick: Tick) -> (r: Vec<(BufferKey, Vec<u8>)>)
        requires
            old(self).wf(),
        ensures
            final(self).wf(),
            final(self).filled() == (Seq::<(BufferKey, Seq<u8>)>::empty()),
            final(self).pending().dom() == old(self).pending().dom(),
            forall|k: BufferKey| #[trigger]
                final(self).pending().dom().contains(k) ==> final(self).pending()[k] == (Seq::<
                    u8,
                >::empty()),
            drained(old(self).pending(), old(self).filled(), tick, packets_view(r@)),
    {
        let keys = buffer_table_keys(&self.current);
        let tick_bytes = tick.to_le_bytes();
        let ghost before = buffer_table_contents(self.current);
        let ghost mut src: Seq<int> = Seq::empty();
        let mut out: Vec<(BufferKey, Vec<u8>)> = Vec::new();
        let mut i: usize = 0;
        while i < keys.len()
            invariant
                0 <= i <= keys.len(),
                keys@.no_duplicates(),
                keys@.to_set() == before.dom(),
                tick_bytes@ == le_bytes(tick.0),
                self.filled == old(self).filled,
                before == buffer_table_contents(old(self).current),
                buffer_table_contents(self.current).dom() == before.dom(),
                forall|j: int|
                    0 <= j < i ==> buffer_table_contents(self.current)[#[trigger] keys@[j]].len()
                        == 0,
                forall|j: int|
                    i <= j < keys.len() ==> buffer_table_contents(self.current)[#[trigger] keys@[j]]
                        == before[keys@[j]],
                src.len() == out.len(),
                forall|m: int|
                    0 <= m < src.len() ==> {
                        &&& 0 <= #[trigger] src[m] < i
                        &&& out@[m].0.code() == keys@[src[m]]
                        &&& out@[m].0 == BufferKey::of_code(keys@[src[m]])
                        &&& before[keys@[src[m]]].len() > 0
                        &&& out@[m].1@ == packet_bytes(tick, before[keys@[src[m]]])
                    },
                forall|m: int, n: int| 0 <= m < n < src.len() ==> src[m] < src[n],
                forall|j: int|
                    0 <= j < i && before[#[trigger] keys@[j]].len() > 0 ==> exists|m: int|
                        0 <= m < src.len() && #[trigger] src[m] == j,
                forall|code: u64| #[trigger]
                    before.dom().contains(code) ==> BufferKey::is_code(code),
            decreases keys.len() - i,
        {
            let code = keys[i];
            let key = BufferKey::decode(code);
            proof {
                assert(keys@.to_set().contains(keys@[i as int]));
                assert(before.dom().contains(code));
                assert(BufferKey::is_code(code));
            }
            let got = buffer_table_remove(&mut self.current, code);
            match got {
                Some(mut buf) => {
                    if buf.len() > 0 {
                        let mut packet: Vec<u8> = Vec::new();
                        push_tick(&mut packet, &tick_bytes);
                        packet.append(&mut buf);
                        out.push((key, packet));
                        proof {
                            let ghost old_src = src;
                            src = src.push(i as int);
                            assert forall|j: int|
                                0 <= j < i + 1 && before[#[trigger] keys@[j]].len()
                                    > 0 implies exists|m: int|
                                0 <= m < src.len() && #[trigger] src[m] == j by {
                                if j < i {
                                    let m = choose|m: int|
                                        0 <= m < old_src.len() && #[trigger] old_src[m] == j;
                                    assert(src[m] == j);
                                } else {
                                    assert(src[src.len() - 1] == j);
                                }
                            }
                        }
                    }
                    buffer_table_insert(&mut self.current, code, buf);
                },
                None => {},
            }
            proof {
                assert(buffer_table_contents(self.current).dom() =~= before.dom());
            }
            i += 1;
        }
        let ghost cut = out@;
        out.append(&mut self.filled);
        proof {
            let pending = old(self).pending();
            let filled = old(self).filled();
            let res = packets_view(out@);
            let n = res.len() - filled.len();
            assert(n == cut.len());
            assert(res.subrange(n, res.len() as int) =~= filled);
            assert forall|a: int| 0 <= a < n implies {
                &&& pending.dom().contains((#[trigger] res[a]).0)
                &&& pending[res[a].0].len() > 0
                &&& res[a].1 == packet_bytes(tick, pending[res[a].0])
            } by {
                assert(res[a] == packet_view(cut[a]));
                let s = src[a];
                assert(keys@.to_set().contains(keys@[s]));
            }
            assert forall|a: int, b: int| 0 <= a < b < n implies (#[trigger] res[a]).0 != (
            #[trigger] res[b]).0 by {
                assert(res[a] == packet_view(cut[a]));
                assert(res[b] == packet_view(cut[b]));
                assert(src[a] < src[b]);
            }
            assert forall|k: BufferKey| #[trigger]
                pending.dom().contains(k) && pending[k].len() > 0 implies exists|a: int|
                0 <= a < n && (#[trigger] res[a]).0 == k by {
                lemma_code_injective(k, k);
                assert(keys@.to_set().contains(k.code()));
                let j = choose|j: int| 0 <= j < keys@.len() && keys@[j] == k.code();
                let m = choose|m: int| 0 <= m < src.len() && #[trigger] src[m] == j;
                assert(res[m] == packet_view(cut[m]));
                assert(res[m].0 == k);
            }
            assert(self.filled() =~= Seq::<(BufferKey, Seq<u8>)>::empty());
            assert(self.pending().dom() =~= old(self).pending().dom());
            assert forall|k: BufferKey| #[trigger]
                self.pending().dom().contains(k) implies self.pending()[k] == Seq::<u8>::empty() by {
                assert(keys@.to_set().contains(k.code()));
                let j = choose|j: int| 0 <= j < keys@.len() && keys@[j] == k.code();
                assert(buffer_table_contents(self.current)[keys@[j]].len() == 0);
                assert(self.pending()[k] =~= Seq::<u8>::empty());
            }
        }
        out
    }
}

/// The age beyond which two change ticks are no longer told apart.
pub const MAX_CHANGE_AGE: u32 = 3_258_167_296;

/// How many steps `earlier` lies before `now` on a counter that wraps
/// around, but no more than `MAX_CHANGE_AGE`.
pub open spec fn change_age(now: u32, earlier: u32) -> int {
    let age = if now >= earlier {
        now - earlier
    } else {
        now + 0x1_0000_0000 - earlier
    };
    if age <= MAX_CHANGE_AGE {
        age
    } else {
        MAX_CHANGE_AGE as int
    }
}

/// Whether a change at `changed` is newer than `last_run`, both seen from
/// `this_run`.
pub open spec fn newer_than(changed: u32, last_run: u32, this_run: u32) -> bool {
    change_age(this_run, last_run) > change_age(this_run, changed)
}

/// `Tick::is_newer_than` of `bevy::ecs::component`, on the change ticks with
/// the given counters: it compares how far `last_run` and `changed` lie
/// behind `this_run` on the wrapping counter, each capped at the largest
/// age that bevy tells apart.
#[verifier::external_body]
pub(crate) fn is_newer_than(changed: u32, last_run: u32, this_run: u32) -> (r: bool)
    ensures
        r == newer_than(changed, last_run, this_run),
{
    bevy::ecs::component::Tick::new(changed).is_newer_than(
        bevy::ecs::component::Tick::new(last_run),
        bevy::ecs::component::Tick::new(this_run),
    )
}

/// Data about recipient
#[derive(Clone, Copy, Debug)]
pub struct RecipientData {
    /// The last acknowledged change tick for this recipient; none for a
    /// recipient that has to be sent everything
    pub last_ack: Option<u32>,
}

impl Default for RecipientData {
    fn default() -> (r: RecipientData)
        ensures
            r.last_ack is None,
    {
        RecipientData { last_ack: None }
    }
}

/// Filters used when writing a message
pub struct WriteFilters {
    /// The rule for who receives the message
    pub rule: SendRule,
    /// The change tick for this message
    pub changed: u32,
}

/// Whether a message under `rule`, of data last changed at `changed`, goes
/// to a recipient: the rule names it, and it has acknowledged nothing yet or
/// the change is newer than what it acknowledged.
pub open spec fn receives(
    rule: SendRule,
    changed: u32,
    this_run: u32,
    destination: Identity,
    last_ack: Option<u32>,
) -> bool {
    rule.admits(destination) && (last_ack is None || newer_than(
        changed,
        last_ack->Some_0,
        this_run,
    ))
}

/// One recipient's buffer while it is taken, as the contracts see it.
pub ghost struct TakenView {
    /// Who the bytes are for
    pub destination: Identity,
    /// What the recipient has acknowledged
    pub last_ack: Option<u32>,
    /// The bytes that wait
    pub bytes: Seq<u8>,
    /// Where the message in progress begins: the bytes before it are whole
    /// messages
    pub mark: nat,
}

impl TakenView {
    /// The key under which the bytes wait.
    pub open spec fn key(self, channel: u8) -> BufferKey {
        BufferKey { destination: self.destination, channel }
    }

    /// The recipient after a message was offered to it.
    pub open spec fn sent(self, rule: SendRule, changed: u32, this_run: u32, message: Seq<u8>) -> TakenView {
        if receives(rule, changed, this_run, self.destination, self.last_ack) {
            TakenView { bytes: self.bytes + message, ..self }
        } else {
            self
        }
    }

    /// The payloads of the packets that are cut when the message in progress
    /// ends. A message of no more than `overhead` bytes is dropped. Below
    /// the threshold nothing is cut. Below the cap, or where the buffer is
    /// one message, everything goes into one packet. Else the whole
    /// messages go, and the last message goes alone if it reaches the
    /// threshold itself.
    pub open spec fn cut(self, overhead: nat) -> Seq<Seq<u8>> {
        let len = self.bytes.len();
        if len - self.mark <= overhead || len < THRESHOLD {
            Seq::empty()
        } else if len < CAP || self.mark == 0 {
            seq![self.bytes]
        } else if len - self.mark >= THRESHOLD {
            seq![self.bytes.subrange(0, self.mark as int), self.bytes.subrange(self.mark as int, len as int)]
        } else {
            seq![self.bytes.subrange(0, self.mark as int)]
        }
    }

    /// The recipient after the message in progress ended: what `cut` did
    /// not hand out, with the mark at its end.
    pub open spec fn fragmented(self, overhead: nat) -> TakenView {
        let len = self.bytes.len();
        if len - self.mark <= overhead {
            TakenView { bytes: self.bytes.subrange(0, self.mark as int), ..self }
        } else if len < THRESHOLD {
            TakenView { mark: len, ..self }
        } else if len < CAP || self.mark == 0 || len - self.mark >= THRESHOLD {
            TakenView { bytes: Seq::empty(), mark: 0, ..self }
        } else {
            TakenView {
                bytes: self.bytes.subrange(self.mark as int, len as int),
                mark: (len - self.mark) as nat,
                ..self
            }
        }
    }

    /// The packets that are cut for this recipient.
    pub open spec fn packets(self, overhead: nat, tick: Tick, channel: u8) -> Seq<(BufferKey, Seq<u8>)> {
        self.cut(overhead).map_values(|payload: Seq<u8>| (self.key(channel), packet_bytes(tick, payload)))
    }
}

/// A buffer that was taken from [`Buffers`]
pub struct TakenBuffer {
    destination: Identity,
    info: RecipientData,
    buffer: Vec<u8>,
    last_fragment: usize,
}

impl View for TakenBuffer {
    type V = TakenView;

    closed spec fn view(&self) -> TakenView {
        TakenView {
            destination: self.destination,
            last_ack: self.info.last_ack,
            bytes: self.buffer@,
            mark: self.last_fragment as nat,
        }
    }
}

impl TakenBuffer {
    /// End the message in progress: cut what is due into packets of
    /// `tick`, and append them to `filled`.
    fn fragment(&mut self, overhead: u8, tick: Tick, channel: u8, filled: &mut Vec<(BufferKey, Vec<u8>)>)
        requires
            old(self)@.mark <= old(self)@.bytes.len(),
        ensures
            final(self)@ == old(self)@.fragmented(overhead as nat),
            final(self)@.mark <= final(self)@.bytes.len(),
            packets_view(final(filled)@) == packets_view(old(filled)@) + old(self)@.packets(
                overhead as nat,
                tick,
                channel,
            ),
    {
        let ghost before = self@;
        let ghost filled_before = packets_view(filled@);
        let key = BufferKey { destination: self.destination, channel };
        let tick_bytes = tick.to_le_bytes();
        let len = self.buffer.len();
        if len - self.last_fragment <= overhead as usize {
            self.buffer.truncate(self.last_fragment);
            assert(self@.bytes =~= before.bytes.subrange(0, before.mark as int));
            assert(packets_view(filled@) =~= filled_before + before.packets(overhead as nat, tick, channel));
            return ;
        }
        if len < THRESHOLD {
            self.last_fragment = len;
            assert(packets_view(filled@) =~= filled_before + before.packets(overhead as nat, tick, channel));
            return ;
        }
        if len < CAP || self.last_fragment == 0 {
            let mut packet: Vec<u8> = Vec::new();
            push_tick(&mut packet, &tick_bytes);
            packet.append(&mut self.buffer);
            filled.push((key, packet));
            self.last_fragment = 0;
            assert(self@.bytes =~= Seq::<u8>::empty());
            assert(packets_view(filled@) =~= filled_before + before.packets(overhead as nat, tick, channel));
            return ;
        }
        let mut rest = self.buffer.split_off(self.last_fragment);
        let mut packet: Vec<u8> = Vec::new();
        push_tick(&mut packet, &tick_bytes);
        packet.append(&mut self.buffer);
        filled.push((key, packet));
        if rest.len() >= THRESHOLD {
            let mut second: Vec<u8> = Vec::new();
            push_tick(&mut second, &tick_bytes);
            second.append(&mut rest);
            filled.push((key, second));
            self.last_fragment = 0;
            assert(self@.bytes =~= Seq::<u8>::empty());
        } else {
            self.last_fragment = rest.len();
            self.buffer = rest;
        }
        assert(packets_view(filled@) =~= filled_before + before.packets(overhead as nat, tick, channel));
    }
}

/// The recipient that `take` makes of the target at `i`: it gets the bytes
/// that wait under its key, unless an earlier target has the same
/// destination and got them; the mark stands at their end.
pub open spec fn taken_at(
    pending: Map<BufferKey, Seq<u8>>,
    channel: u8,
    targets: Seq<(Identity, RecipientData)>,
    i: int,
) -> TakenView {
    let key = BufferKey { destination: targets[i].0, channel };
    let first = forall|j: int| 0 <= j < i ==> targets[j].0 != targets[i].0;
    let bytes = if pending.dom().contains(key) && first {
        pending[key]
    } else {
        Seq::empty()
    };
    TakenView {
        destination: targets[i].0,
        last_ack: targets[i].1.last_ack,
        bytes,
        mark: bytes.len(),
    }
}

/// The keys that `take` empties: those of the channel whose destination is
/// among the targets.
pub open spec fn taken_keys(channel: u8, targets: Seq<(Identity, RecipientData)>) -> Set<BufferKey> {
    Set::new(
        |k: BufferKey|
            k.channel == channel && exists|j: int|
                0 <= j < targets.len() && (#[trigger] targets[j]).0 == k.destination,
    )
}

/// The waiting bytes once the recipients' buffers are back, each under its
/// key; of two recipients with one destination the later one stays.
pub open spec fn returned(
    pending: Map<BufferKey, Seq<u8>>,
    recipients: Seq<TakenView>,
    channel: u8,
) -> Map<BufferKey, Seq<u8>>
    decreases recipients.len(),
{
    if recipients.len() == 0 {
        pending
    } else {
        returned(pending, recipients.drop_last(), channel).insert(
            recipients.last().key(channel),
            recipients.last().bytes,
        )
    }
}

/// The packets that are cut when the message in progress ends, recipient
/// by recipient.
pub open spec fn cut_packets(
    recipients: Seq<TakenView>,
    overhead: nat,
    tick: Tick,
    channel: u8,
) -> Seq<(BufferKey, Seq<u8>)>
    decreases recipients.len(),
{
    if recipients.len() == 0 {
        Seq::empty()
    } else {
        cut_packets(recipients.drop_last(), overhead, tick, channel) + recipients.last().packets(
            overhead,
            tick,
            channel,
        )
    }
}

/// The buffers of one send cycle, as the contracts see them.
pub ghost struct TakenBuffersView {
    /// The change tick of this cycle
    pub this_run: u32,
    /// The tick that the packets of this cycle carry
    pub tick: Tick,
    /// The channel of the buffers
    pub channel: u8,
    /// How many bytes of the message in progress are framing
    pub overhead: nat,
    /// The recipients, in the order of the targets
    pub recipients: Seq<TakenView>,
    /// The bytes that stayed behind, for other channels and recipients
    pub pending: Map<BufferKey, Seq<u8>>,
    /// The packets that were cut and wait to be drained
    pub filled: Seq<(BufferKey, Seq<u8>)>,
}

impl TakenBuffersView {
    /// The buffers after more overhead was registered.
    pub open spec fn with_overhead(self, overhead: nat) -> TakenBuffersView {
        TakenBuffersView { overhead: self.overhead + overhead, ..self }
    }

    /// The buffers after a message was offered to every recipient.
    pub open spec fn sent(self, rule: SendRule, changed: u32, message: Seq<u8>) -> TakenBuffersView {
        TakenBuffersView {
            recipients: self.recipients.map_values(
                |t: TakenView| t.sent(rule, changed, self.this_run, message),
            ),
            ..self
        }
    }

    /// The buffers after the message in progress ended: every recipient's
    /// buffer is cut where it is due, the packets are queued, and no
    /// overhead is registered any more.
    pub open spec fn fragmented(self) -> TakenBuffersView {
        TakenBuffersView {
            overhead: 0,
            recipients: self.recipients.map_values(|t: TakenView| t.fragmented(self.overhead)),
            filled: self.filled + cut_packets(
                self.recipients,
                self.overhead,
                self.tick,
                self.channel,
            ),
            ..self
        }
    }

    /// The waiting bytes once the buffers are released.
    pub open spec fn released(self) -> Map<BufferKey, Seq<u8>> {
        returned(self.pending, self.recipients, self.channel)
    }
}

/// The buffers of a send cycle as `take` hands them out.
pub open spec fn taken_view(
    pending: Map<BufferKey, Seq<u8>>,
    filled: Seq<(BufferKey, Seq<u8>)>,
    tick: Tick,
    channel: u8,
    this_run: u32,
    targets: Seq<(Identity, RecipientData)>,
) -> TakenBuffersView {
    TakenBuffersView {
        this_run,
        tick,
        channel,
        overhead: 0,
        recipients: Seq::new(targets.len(), |i: int| taken_at(pending, channel, targets, i)),
        pending: pending.remove_keys(taken_keys(channel, targets)),
        filled,
    }
}

/// A collection of buffers that was taken from [`Buffers`], can be used to write data to the
/// clients these buffers are for
pub struct TakenBuffers<'a> {
    /// The change tick of this cycle
    pub this_run: u32,
    /// The tick that the packets of this cycle carry
    pub tick: Tick,
    /// The channel of the buffers
    pub channel: u8,
    /// The buffers that these were taken from, and to which they go back
    pub buffers: &'a mut Buffers,
    /// The recipients' buffers, in the order of the targets
    pub taken: Vec<TakenBuffer>,
    /// How many bytes of the message in progress are framing
    pub overhead: u8,
}

impl<'a> View for TakenBuffers<'a> {
    type V = TakenBuffersView;

    open spec fn view(&self) -> TakenBuffersView {
        TakenBuffersView {
            this_run: self.this_run,
            tick: self.tick,
            channel: self.channel,
            overhead: self.overhead as nat,
            recipients: self.taken@.map_values(|t: TakenBuffer| t@),
            pending: self.buffers.pending(),
            filled: self.buffers.filled(),
        }
    }
}

impl<'a> TakenBuffers<'a> {
    /// The buffers stand under their keys and every mark lies within its
    /// buffer.
    pub open spec fn wf(&self) -> bool {
        &&& self.buffers.wf()
        &&& forall|i: int|
            0 <= i < self.taken.len() ==> (#[trigger] self.taken[i])@.mark <= self.taken[i]@.bytes.len()
    }

}

impl Buffers {
    /// Take or create buffers for the provided channel and clients and get a
    /// value to write messages with
    pub fn take<'a>(
        &'a mut self,
        tick: Tick,
        channel: u8,
        this_run: u32,
        targets: Vec<(Identity, RecipientData)>,
    ) -> (r: TakenBuffers<'a>)
        requires
            old(self).wf(),
        ensures
            r.wf(),
            r@ == taken_view(
                old(self).pending(),
                old(self).filled(),
                tick,
                channel,
                this_run,
                targets@,
            ),
            *final(self) == *final(r.buffers),
    {
        let ghost before = self.pending();
        let mut taken: Vec<TakenBuffer> = Vec::new();
        let mut i: usize = 0;
        while i < targets.len()
            invariant
                0 <= i <= targets.len(),
                self.wf(),
                self.filled() == old(self).filled(),
                before == old(self).pending(),
                taken.len() == i,
                forall|j: int|
                    0 <= j < i ==> (#[trigger] taken[j])@ == taken_at(before, channel, targets@, j),
                self.pending() == before.remove_keys(
                    taken_keys(channel, targets@.subrange(0, i as int)),
                ),
            decreases targets.len() - i,
        {
            let destination = targets[i].0;
            let info = targets[i].1;
            let key = BufferKey { destination, channel };
            let ghost prev = self.pending();
            let ghost prev_table = buffer_table_contents(self.current);
            let got = buffer_table_remove(&mut self.current, key.encode());
            let buffer = match got {
                Some(b) => b,
                None => Vec::with_capacity(PREALLOC),
            };
            proof {
                lemma_code_injective(key, key);
                let earlier = targets@.subrange(0, i as int);
                let now = targets@.subrange(0, i + 1);
                assert forall|k: BufferKey|
                    taken_keys(channel, now).contains(k) <==> (taken_keys(channel, earlier).contains(
                        k,
                    ) || k == key) by {
                    if taken_keys(channel, earlier).contains(k) {
                        let j = choose|j: int|
                            0 <= j < earlier.len() && (#[trigger] earlier[j]).0 == k.destination;
                        assert(now[j].0 == k.destination);
                    }
                    if k == key {
                        assert(now[i as int].0 == k.destination);
                    }
                    if taken_keys(channel, now).contains(k) {
                        let j = choose|j: int|
                            0 <= j < now.len() && (#[trigger] now[j]).0 == k.destination;
                        if j < i {
                            assert(earlier[j].0 == k.destination);
                        }
                    }
                }
                assert forall|k: BufferKey|
                    self.pending().dom().contains(k) <==> (prev.dom().contains(k) && k
                        != key) by {
                    lemma_code_injective(k, key);
                }
                assert forall|k: BufferKey| self.pending().dom().contains(k) implies #[trigger]
                    self.pending()[k] == prev[k] by {
                    lemma_code_injective(k, key);
                }
                assert(self.pending() =~= prev.remove(key));
                assert(prev.remove(key) =~= before.remove_keys(taken_keys(channel, now)));
                let first = forall|j: int| 0 <= j < i ==> targets@[j].0 != targets@[i as int].0;
                if first {
                    assert(!taken_keys(channel, earlier).contains(key)) by {
                        if taken_keys(channel, earlier).contains(key) {
                            let j = choose|j: int|
                                0 <= j < earlier.len() && (#[trigger] earlier[j]).0
                                    == key.destination;
                            assert(targets@[j].0 == targets@[i as int].0);
                        }
                    }
                    assert(prev.dom().contains(key) == before.dom().contains(key));
                    if prev.dom().contains(key) {
                        assert(prev[key] == before[key]);
                        assert(buffer@ == before[key]);
                    }
                } else {
                    let j = choose|j: int| 0 <= j < i && targets@[j].0 == targets@[i as int].0;
                    assert(earlier[j].0 == key.destination);
                    assert(taken_keys(channel, earlier).contains(key));
                    assert(!prev.dom().contains(key));
                }
                assert(self.wf()) by {
                    assert forall|code: u64| #[trigger]
                        buffer_table_contents(self.current).dom().contains(
                            code,
                        ) implies BufferKey::is_code(code) by {
                        assert(prev_table.dom().contains(code));
                    }
                }
            }
            let last_fragment = buffer.len();
            let entry = TakenBuffer { destination, info, buffer, last_fragment };
            assert(entry@ == taken_at(before, channel, targets@, i as int));
            taken.push(entry);
            i += 1;
        }
        proof {
            assert(targets@.subrange(0, targets.len() as int) =~= targets@);
        }
        let r = TakenBuffers { this_run, tick, channel, buffers: self, taken, overhead: 0 };
        proof {
            assert(r@.recipients.len() == targets.len());
            assert forall|j: int| 0 <= j < targets.len() implies #[trigger] r@.recipients[j]
                == taken_at(before, channel, targets@, j) by {
                assert(r@.recipients[j] == r.taken[j]@);
            }
            assert(r@.recipients =~= Seq::new(
                targets@.len(),
                |i: int| taken_at(before, channel, targets@, i),
            ));
        }
        r
    }
}

impl<'a> TakenBuffers<'a> {
    /// Increase the amount of registered overhead: a message in progress
    /// that holds no more bytes than that when it ends is dropped
    pub fn overhead(&mut self, overhead: u8)
        requires
            old(self)@.overhead + overhead <= u8::MAX,
        ensures
            final(self)@ == old(self)@.with_overhead(overhead as nat),
            old(self).wf() ==> final(self).wf(),
            *final(final(self).buffers) == *final(old(self).buffers),
    {
        self.overhead = self.overhead + overhead;
    }

    /// Send a message
    pub fn send(&mut self, rule: SendRule, buf: &mut WriteBuffer)
        requires
            old(self).wf(),
        ensures
            final(self).wf(),
            *final(final(self).buffers) == *final(old(self).buffers),
            final(buf)@ == Seq::<u8>::empty(),
            final(self)@ == old(self)@.sent(rule, old(self)@.this_run, old(buf)@),
    {
        let changed = self.this_run;
        self.send_filtered(WriteFilters { rule, changed }, buf);
    }

    /// Send a message with filters
    pub fn send_filtered(&mut self, filter: WriteFilters, buf: &mut WriteBuffer)
        requires
            old(self).wf(),
        ensures
            final(self).wf(),
            *final(final(self).buffers) == *final(old(self).buffers),
            final(buf)@ == Seq::<u8>::empty(),
            final(self)@ == old(self)@.sent(filter.rule, filter.changed, old(buf)@),
            forall|i: int|
                0 <= i < old(self)@.recipients.len() && old(self)@.recipients[i].last_ack is Some
                    && !newer_than(
                    filter.changed,
                    old(self)@.recipients[i].last_ack->Some_0,
                    old(self)@.this_run,
                ) ==> (#[trigger] final(self)@.recipients[i]).bytes == old(self)@.recipients[i].bytes,
    {
        let ghost message = buf@;
        let n = self.taken.len();
        let mut i: usize = 0;
        while i < n
            invariant
                0 <= i <= n,
                n == self.taken.len(),
                n == old(self).taken.len(),
                buf@ == message,
                self.this_run == old(self).this_run,
                self.tick == old(self).tick,
                self.channel == old(self).channel,
                self.overhead == old(self).overhead,
                *self.buffers == *old(self).buffers,
                *final(self.buffers) == *final(old(self).buffers),
                forall|j: int|
                    0 <= j < i ==> (#[trigger] self.taken[j])@ == old(self).taken[j]@.sent(
                        filter.rule,
                        filter.changed,
                        self.this_run,
                        message,
                    ),
                forall|j: int| i <= j < n ==> (#[trigger] self.taken[j]) == old(self).taken[j],
            decreases n - i,
        {
            let destination = self.taken[i].destination;
            let wanted = filter.rule.includes(destination) && match self.taken[i].info.last_ack {
                None => true,
                Some(last_ack) => is_newer_than(filter.changed, last_ack, self.this_run),
            };
            let ghost entry = self.taken[i as int];
            assert(entry == old(self).taken[i as int]);
            if wanted {
                self.taken[i].buffer.extend_from_slice(buf.as_slice());
                assert(self.taken[i as int].buffer@ == entry.buffer@ + message);
            }
            assert(self.taken[i as int]@ == entry@.sent(
                filter.rule,
                filter.changed,
                self.this_run,
                message,
            ));
            i += 1;
        }
        buf.clear();
        proof {
            let want = old(self)@.recipients.map_values(
                |t: TakenView| t.sent(filter.rule, filter.changed, old(self)@.this_run, message),
            );
            assert forall|j: int| 0 <= j < n implies #[trigger] self@.recipients[j] == want[j] by {
                assert(self@.recipients[j] == self.taken[j]@);
                assert(old(self)@.recipients[j] == old(self).taken[j]@);
            }
            assert(self@.recipients =~= want);
            assert forall|j: int| 0 <= j < self.taken.len() implies (#[trigger] self.taken[j])@.mark
                <= self.taken[j]@.bytes.len() by {
                assert(old(self).taken[j]@.mark <= old(self).taken[j]@.bytes.len());
            }
        }
    }

    /// Mark the position of the next fragment, moves filled buffers if necessary
    pub fn fragment(&mut self)
        requires
            old(self).wf(),
        ensures
            final(self).wf(),
            *final(final(self).buffers) == *final(old(self).buffers),
            final(self)@ == old(self)@.fragmented(),
    {
        let ghost before = old(self)@.recipients;
        let n = self.taken.len();
        let mut i: usize = 0;
        while i < n
            invariant
                0 <= i <= n,
                n == self.taken.len(),
                n == old(self).taken.len(),
                before == old(self)@.recipients,
                self.this_run == old(self).this_run,
                self.tick == old(self).tick,
                self.channel == old(self).channel,
                self.overhead == old(self).overhead,
                self.buffers.current == old(self).buffers.current,
                *final(self.buffers) == *final(old(self).buffers),
                self.buffers.filled() == old(self).buffers.filled() + cut_packets(
                    before.subrange(0, i as int),
                    self.overhead as nat,
                    self.tick,
                    self.channel,
                ),
                forall|j: int|
                    0 <= j < i ==> (#[trigger] self.taken[j])@ == old(self).taken[j]@.fragmented(
                        self.overhead as nat,
                    ),
                forall|j: int|
                    0 <= j < i ==> (#[trigger] self.taken[j])@.mark <= self.taken[j]@.bytes.len(),
                forall|j: int| i <= j < n ==> (#[trigger] self.taken[j]) == old(self).taken[j],
                forall|j: int|
                    0 <= j < n ==> (#[trigger] old(self).taken[j])@.mark <= old(
                        self,
                    ).taken[j]@.bytes.len(),
            decreases n - i,
        {
            let overhead = self.overhead;
            let tick = self.tick;
            let channel = self.channel;
            proof {
                assert(before.subrange(0, i + 1).drop_last() =~= before.subrange(0, i as int));
                assert(before.subrange(0, i + 1).last() == old(self).taken[i as int]@);
            }
            self.taken[i].fragment(overhead, tick, channel, &mut self.buffers.filled);
            i += 1;
        }
        self.overhead = 0;
        proof {
            assert(before.subrange(0, n as int) =~= before);
            let want = before.map_values(|t: TakenView| t.fragmented(old(self)@.overhead));
            assert forall|j: int| 0 <= j < n implies #[trigger] self@.recipients[j] == want[j] by {
                assert(self@.recipients[j] == self.taken[j]@);
                assert(before[j] == old(self).taken[j]@);
            }
            assert(self@.recipients =~= want);
        }
    }

    /// Give the buffers back to where they were taken from, each under its
    /// key. The message in progress, if any, stays in its buffer.
    pub fn release(self)
        requires
            self.wf(),
        ensures
            final(self.buffers).wf(),
            final(self.buffers).filled() == self@.filled,
            final(self.buffers).pending() == self@.released(),
    {
        let ghost recipients = self@.recipients;
        let ghost start = self@.pending;
        let TakenBuffers { this_run: _, tick: _, channel, buffers, mut taken, overhead: _ } = self;
        let n = taken.len();
        let mut i: usize = 0;
        while i < n
            invariant
                0 <= i <= n,
                n == taken.len(),
                recipients.len() == n,
                buffers.wf(),
                buffers.filled() == old(self.buffers).filled(),
                forall|j: int| i <= j < n ==> (#[trigger] taken[j])@ == recipients[j],
                buffers.pending() == returned(start, recipients.subrange(0, i as int), channel),
            decreases n - i,
        {
            let key = BufferKey { destination: taken[i].destination, channel };
            let mut bytes: Vec<u8> = Vec::new();
            core::mem::swap(&mut bytes, &mut taken[i].buffer);
            let ghost prev = buffers.pending();
            let ghost prev_table = buffer_table_contents(buffers.current);
            buffer_table_insert(&mut buffers.current, key.encode(), bytes);
            proof {
                lemma_code_injective(key, key);
                assert(recipients.subrange(0, i + 1).drop_last() =~= recipients.subrange(
                    0,
                    i as int,
                ));
                assert(recipients.subrange(0, i + 1).last() == recipients[i as int]);
                assert forall|k: BufferKey|
                    buffers.pending().dom().contains(k) <==> (prev.dom().contains(k) || k
                        == key) by {
                    lemma_code_injective(k, key);
                }
                assert forall|k: BufferKey| buffers.pending().dom().contains(k) implies #[trigger]
                    buffers.pending()[k] == prev.insert(key, bytes@)[k] by {
                    lemma_code_injective(k, key);
                }
                assert(buffers.pending() =~= prev.insert(key, bytes@));
                assert forall|code: u64| #[trigger]
                    buffer_table_contents(buffers.current).dom().contains(
                        code,
                    ) implies BufferKey::is_code(code) by {
                    if code != key.code() {
                        assert(prev_table.dom().contains(code));
                    }
                }
            }
            i += 1;
        }
        proof {
            assert(recipients.subrange(0, n as int) =~= recipients);
        }
    }
}

} // verus!
