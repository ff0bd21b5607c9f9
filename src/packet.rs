//! Wire format of the reliable datagram protocol and its 16-bit sequence
//! arithmetic.

use vstd::prelude::*;

verus! {

/// Largest payload that one datagram may carry, so that the datagram with
/// its three header bytes fits in 64 KiB.
pub const MAX_PAYLOAD: usize = 0xFFFC;

/// Length of the packet header: two bytes of sequence, one byte of kind.
pub const HEADER_LEN: usize = 3;

/// Size of the forward window: an id is ahead of the expected id when it
/// lies fewer than this many steps after it, modulo 2^16.
pub const FORWARD_WINDOW: u16 = 0xC000;

/// The kind byte of a packet.
#[derive(Clone, Copy, Debug, PartialEq, Eq, Structural)]
pub enum PacketKind {
    Write,
    Ack,
    ResendRequest,
    End,
}

/// The byte that stands for a kind on the wire.
pub open spec fn kind_code(k: PacketKind) -> u8 {
    match k {
        PacketKind::Write => 0,
        PacketKind::Ack => 1,
        PacketKind::ResendRequest => 2,
        PacketKind::End => 3,
    }
}

impl PacketKind {
    /// The byte that stands for this kind on the wire.
    pub fn code(&self) -> (r: u8)
        ensures
            r == kind_code(*self),
    {
        match self {
            PacketKind::Write => 0,
            PacketKind::Ack => 1,
            PacketKind::ResendRequest => 2,
            PacketKind::End => 3,
        }
    }
}

/// Big-endian bytes of a 16-bit sequence number.
pub open spec fn seq_bytes(seq: u16) -> Seq<u8> {
    seq![(seq / 256) as u8, (seq % 256) as u8]
}

/// A whole datagram: sequence, kind, payload.
pub open spec fn packet_bytes(seq: u16, kind: PacketKind, payload: Seq<u8>) -> Seq<u8> {
    seq_bytes(seq) + seq![kind_code(kind)] + payload
}

/// The sequence number that the first two bytes of a datagram carry.
pub open spec fn seq_of(d: Seq<u8>) -> u16 {
    (d[0] as int * 256 + d[1] as int) as u16
}

/// The payload of a datagram: what follows the header.
pub open spec fn payload_of(d: Seq<u8>) -> Seq<u8> {
    d.subrange(HEADER_LEN as int, d.len() as int)
}

/// `id` is newer than `expected`: distinct from it and fewer than
/// `FORWARD_WINDOW` steps after it, modulo 2^16.
pub open spec fn ahead(id: u16, expected: u16) -> bool {
    id != expected && (id - expected) % 0x10000 < FORWARD_WINDOW
}

/// Decoding the header of an encoded packet gives back its sequence,
/// kind byte and payload.
pub proof fn lemma_packet_fields(seq: u16, kind: PacketKind, payload: Seq<u8>)
    ensures
        packet_bytes(seq, kind, payload).len() == payload.len() + 3,
        seq_of(packet_bytes(seq, kind, payload)) == seq,
        packet_bytes(seq, kind, payload)[2] == kind_code(kind),
        payload_of(packet_bytes(seq, kind, payload)) == payload,
{
    let d = packet_bytes(seq, kind, payload);
    assert(d[0] == (seq / 256) as u8);
    assert(d[1] == (seq % 256) as u8);
    assert(d[2] == kind_code(kind));
    assert(payload_of(d) =~= payload);
}

/// Builds the datagram for one packet.
pub fn encode_packet(seq: u16, kind: PacketKind, payload: &[u8]) -> (r: Vec<u8>)
    requires
        payload@.len() <= MAX_PAYLOAD,
    ensures
        r@ == packet_bytes(seq, kind, payload@),
{
    let mut v: Vec<u8> = Vec::with_capacity(payload.len() + HEADER_LEN);
    v.push((seq / 256) as u8);
    v.push((seq % 256) as u8);
    v.push(kind.code());
    let ghost header = seq_bytes(seq) + seq![kind_code(kind)];
    assert(v@ =~= header);
    let mut i: usize = 0;
    while i < payload.len()
        invariant
            i <= payload@.len(),
            v@ =~= header + payload@.subrange(0, i as int),
        decreases payload@.len() - i,
    {
        v.push(payload[i]);
        i += 1;
        assert(v@ =~= header + payload@.subrange(0, i as int));
    }
    assert(payload@.subrange(0, i as int) =~= payload@);
    v
}

/// The three-byte control packet (an acknowledgement or a resend request)
/// for a sequence number.
pub fn control_packet(seq: u16, kind: PacketKind) -> (r: Vec<u8>)
    ensures
        r@ == packet_bytes(seq, kind, Seq::empty()),
{
    let mut v: Vec<u8> = Vec::with_capacity(HEADER_LEN);
    v.push((seq / 256) as u8);
    v.push((seq % 256) as u8);
    v.push(kind.code());
    assert(v@ =~= packet_bytes(seq, kind, Seq::empty()));
    v
}

/// The sequence number in a datagram's first two bytes.
pub fn packet_seq(d: &[u8]) -> (r: u16)
    requires
        d@.len() >= 2,
    ensures
        r == seq_of(d@),
{
    d[0] as u16 * 256 + d[1] as u16
}

/// Whether `id` is newer than `expected` in the forward window.
pub fn is_ahead(id: u16, expected: u16) -> (r: bool)
    ensures
        r == ahead(id, expected),
{
    let diff = id.wrapping_sub(expected);
    proof {
        if id >= expected {
            assert((id - expected) % 0x10000 == id - expected);
        } else {
            assert((id - expected) % 0x10000 == id - expected + 0x10000);
        }
    }
    id != expected && diff < FORWARD_WINDOW
}

} // verus!
