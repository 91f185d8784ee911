use bevy_bundlication::buffer::{BufferKey, Buffers, RecipientData, SendRule, WriteBuffer};
use bevy_bundlication::client_authority::Identity;
use bevy_bundlication::tick::Tick;

#[test]
fn drain_prefixes_the_tick() {
    let mut buffers = Buffers::new();
    let mut buf = WriteBuffer::default();
    let mut taken = buffers.take(
        Tick(0x0102_0304),
        3,
        1,
        vec![(Identity::Client(7), RecipientData::default())],
    );
    buf.extend_from_slice(&[9, 8, 7]);
    taken.send(SendRule::All, &mut buf);
    taken.fragment();
    taken.release();
    assert_eq!(buf.len(), 0);
    let out = buffers.drain(Tick(0x0102_0304));
    assert_eq!(
        out,
        vec![(
            BufferKey { destination: Identity::Client(7), channel: 3 },
            vec![4, 3, 2, 1, 9, 8, 7]
        )]
    );
    assert_eq!(buffers.drain(Tick(5)), vec![]);
}
