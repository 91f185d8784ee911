//! The logical clock that stamps every packet and every stored update.

use vstd::prelude::*;

verus! {

/// The four bytes of `x`, least significant first.
pub open spec fn le_bytes(x: u32) -> Seq<u8> {
    seq![
        (x % 256) as u8,
        ((x / 256) % 256) as u8,
        ((x / 65536) % 256) as u8,
        ((x / 16777216) % 256) as u8,
    ]
}

/// The number whose four bytes, least significant first, open `s`.
pub open spec fn from_le_bytes(s: Seq<u8>) -> u32
    recommends
        s.len() >= 4,
{
    (s[0] as int + s[1] as int * 256 + s[2] as int * 65536 + s[3] as int * 16777216) as u32
}

/// Reading back the bytes of a number gives that number.
pub proof fn lemma_le_bytes_roundtrip(x: u32)
    ensures
        le_bytes(x).len() == 4,
        from_le_bytes(le_bytes(x)) == x,
{
    let n = x as int;
    assert(n == n % 256 + (n / 256) * 256);
    assert(n / 256 == (n / 256) % 256 + (n / 65536) * 256);
    assert(n / 65536 == (n / 65536) % 256 + (n / 16777216) * 256);
    assert(n / 16777216 < 256);
}

/// Any four bytes are the bytes of the number they read as.
pub proof fn lemma_from_le_bytes_roundtrip(s: Seq<u8>)
    requires
        s.len() == 4,
    ensures
        le_bytes(from_le_bytes(s)) == s,
{
    let a = s[0] as int;
    let b = s[1] as int;
    let c = s[2] as int;
    let d = s[3] as int;
    let x = a + b * 256 + c * 65536 + d * 16777216;
    assert(x % 256 == a);
    assert(x / 256 == b + c * 256 + d * 65536);
    assert(x / 65536 == c + d * 256);
    assert(x / 16777216 == d);
    assert(le_bytes(from_le_bytes(s)) =~= s);
}

/// The current tick of the networked simulation.
#[derive(Clone, Copy, Debug, PartialEq, Eq, Structural, PartialOrd, Ord, Hash)]
pub struct Tick(pub u32);

impl Default for Tick {
    fn default() -> (r: Tick)
        ensures
            r == Tick(0),
    {
        Tick(0)
    }
}

impl Tick {
    /// The counter behind the tick.
    pub fn get(self) -> (r: u32)
        ensures
            r == self.0,
    {
        self.0
    }

    /// True when this tick lies strictly after `other`.
    pub fn is_after(self, other: Tick) -> (r: bool)
        ensures
            r == (self.0 > other.0),
    {
        self.0 > other.0
    }

    /// The bytes that open every packet of this tick.
    pub fn to_le_bytes(self) -> (r: [u8; 4])
        ensures
            r@ == le_bytes(self.0),
    {
        let x: u32 = self.0;
        let r: [u8; 4] = [
            (x % 256) as u8,
            ((x / 256) % 256) as u8,
            ((x / 65536) % 256) as u8,
            ((x / 16777216) % 256) as u8,
        ];
        assert(r@ =~= le_bytes(x));
        r
    }

    /// The tick that a packet opens with, if the packet holds one.
    pub fn read(bytes: &[u8]) -> (r: Option<Tick>)
        ensures
            r == (if bytes@.len() >= 4 {
                Some(Tick(from_le_bytes(bytes@)))
            } else {
                None
            }),
    {
        if bytes.len() < 4 {
            return None;
        }
        let b0: u32 = bytes[0] as u32;
        let b1: u32 = bytes[1] as u32;
        let b2: u32 = bytes[2] as u32;
        let b3: u32 = bytes[3] as u32;
        Some(Tick(b0 + b1 * 256 + b2 * 65536 + b3 * 16777216))
    }
}

impl core::ops::Add<u32> for Tick {
    type Output = Tick;

    fn add(self, rhs: u32) -> (r: Tick) {
        Tick(self.0 + rhs)
    }
}

impl vstd::std_specs::ops::AddSpecImpl<u32> for Tick {
    open spec fn obeys_add_spec() -> bool {
        true
    }

    open spec fn add_req(self, rhs: u32) -> bool {
        self.0 + rhs <= u32::MAX
    }

    open spec fn add_spec(self, rhs: u32) -> Tick {
        Tick((self.0 + rhs) as u32)
    }
}

impl core::ops::Sub<Tick> for Tick {
    type Output = u32;

    fn sub(self, rhs: Tick) -> (r: u32) {
        self.0 - rhs.0
    }
}

impl vstd::std_specs::ops::SubSpecImpl<Tick> for Tick {
    open spec fn obeys_sub_spec() -> bool {
        true
    }

    open spec fn sub_req(self, rhs: Tick) -> bool {
        rhs.0 <= self.0
    }

    open spec fn sub_spec(self, rhs: Tick) -> u32 {
        (self.0 - rhs.0) as u32
    }
}

impl core::ops::Sub<u32> for Tick {
    type Output = Tick;

    fn sub(self, rhs: u32) -> (r: Tick) {
        Tick(self.0 - rhs)
    }
}

impl vstd::std_specs::ops::SubSpecImpl<u32> for Tick {
    open spec fn obeys_sub_spec() -> bool {
        true
    }

    open spec fn sub_req(self, rhs: u32) -> bool {
        rhs <= self.0
    }

    open spec fn sub_spec(self, rhs: u32) -> Tick {
        Tick((self.0 - rhs) as u32)
    }
}

} // verus!
