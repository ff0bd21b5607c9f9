//! What the receiver delivers over whole runs of datagrams: each packet of
//! the sender's stream at most once, in stream order, across sequence
//! wraps; and a single resend request for each gap.

use vstd::prelude::*;
use crate::packet::{kind_code, seq_of, PacketKind, HEADER_LEN};
use crate::safe_read_write::{
    delivery_of, in_order, recv_next, recv_reply, DeliveryModel, Inbound,
};

verus! {

/// Receiver state after a run of datagrams.
pub open spec fn recv_after(s: Inbound, ds: Seq<Seq<u8>>) -> Inbound
    decreases ds.len(),
{
    if ds.len() == 0 {
        s
    } else {
        recv_after(recv_next(s, ds[0]), ds.drop_first())
    }
}

/// What a run of datagrams delivers, in order, leaving out the datagrams
/// that deliver nothing.
pub open spec fn delivered(s: Inbound, ds: Seq<Seq<u8>>) -> Seq<DeliveryModel>
    decreases ds.len(),
{
    if ds.len() == 0 {
        Seq::empty()
    } else {
        let rest = delivered(recv_next(s, ds[0]), ds.drop_first());
        if in_order(s, ds[0]) {
            seq![delivery_of(ds[0])] + rest
        } else {
            rest
        }
    }
}

/// The receiver answers this datagram with a resend request.
pub open spec fn asks_resend(s: Inbound, d: Seq<u8>) -> bool {
    match recv_reply(s, d) {
        Some(r) => r[2] == kind_code(PacketKind::ResendRequest),
        None => false,
    }
}

/// How many resend requests the receiver sends during a run.
pub open spec fn resend_requests(s: Inbound, ds: Seq<Seq<u8>>) -> nat
    decreases ds.len(),
{
    if ds.len() == 0 {
        0
    } else {
        (if asks_resend(s, ds[0]) {
            1nat
        } else {
            0nat
        }) + resend_requests(recv_next(s, ds[0]), ds.drop_first())
    }
}

/// Between two in-order deliveries the receiver asks for a resend at most
/// once, and not at all if it has already asked since the last delivery.
pub proof fn lemma_one_resend_request_per_gap(s: Inbound, ds: Seq<Seq<u8>>)
    requires
        delivered(s, ds).len() == 0,
    ensures
        resend_requests(s, ds) <= if s.catching_up {
            0nat
        } else {
            1nat
        },
    decreases ds.len(),
{
    if ds.len() > 0 {
        let d = ds[0];
        let t = recv_next(s, d);
        if in_order(s, d) {
            assert(delivered(s, ds).len() > 0);
        }
        lemma_one_resend_request_per_gap(t, ds.drop_first());
        if asks_resend(s, d) {
            let r = recv_reply(s, d).unwrap();
            if !crate::packet::ahead(seq_of(d), s.expected as u16) {
                assert(r[2] == kind_code(PacketKind::Ack));
            }
            assert(!s.catching_up && t.catching_up);
        } else if !s.catching_up {
            assert(t.catching_up ==> asks_resend(s, d)) by {
                if t.catching_up {
                    assert(d.len() >= HEADER_LEN);
                    assert(crate::packet::ahead(seq_of(d), s.expected as u16));
                    assert(recv_reply(s, d) == Some(
                        crate::packet::packet_bytes(
                            s.expected as u16,
                            PacketKind::ResendRequest,
                            Seq::empty(),
                        ),
                    ));
                }
            }
        } else {
            assert(t.catching_up);
        }
    }
}

/// The sender's stream: the datagram with counter `i` carries sequence
/// `i` modulo 2^16.
pub open spec fn is_stream(packets: Seq<Seq<u8>>) -> bool {
    forall|i: int|
        0 <= i < packets.len() ==> #[trigger] packets[i].len() >= HEADER_LEN && seq_of(packets[i])
            == (i % 0x10000) as u16
}

/// The datagrams that arrive, given by their counters in the stream.
pub open spec fn arrivals(packets: Seq<Seq<u8>>, idx: Seq<int>) -> Seq<Seq<u8>> {
    idx.map_values(|i: int| packets[i])
}

/// Each datagram arrives while the receiver expects a counter fewer than
/// 2^16 away from its own: no datagram outlives a whole turn of the
/// sequence space in flight.
pub open spec fn within_window(s: Inbound, packets: Seq<Seq<u8>>, idx: Seq<int>) -> bool
    decreases idx.len(),
{
    idx.len() == 0 || {
        &&& s.expected - 0x10000 < idx[0] < s.expected + 0x10000
        &&& within_window(recv_next(s, packets[idx[0]]), packets, idx.drop_first())
    }
}

/// What each packet of a stretch of the stream delivers.
pub open spec fn deliveries_of(packets: Seq<Seq<u8>>) -> Seq<DeliveryModel> {
    packets.map_values(|d: Seq<u8>| delivery_of(d))
}

proof fn lemma_same_residue(a: int, b: int)
    requires
        0 <= a,
        0 <= b,
        a % 0x10000 == b % 0x10000,
        a - 0x10000 < b < a + 0x10000,
    ensures
        a == b,
{
    vstd::arithmetic::div_mod::lemma_fundamental_div_mod(a, 0x10000);
    vstd::arithmetic::div_mod::lemma_fundamental_div_mod(b, 0x10000);
    let q = a / 0x10000 - b / 0x10000;
    assert(a - b == 0x10000 * q) by (nonlinear_arith)
        requires
            a == 0x10000 * (a / 0x10000) + a % 0x10000,
            b == 0x10000 * (b / 0x10000) + b % 0x10000,
            a % 0x10000 == b % 0x10000,
            q == a / 0x10000 - b / 0x10000,
    ;
    assert(q == 0) by (nonlinear_arith)
        requires
            a - b == 0x10000 * q,
            -0x10000 < a - b < 0x10000,
    ;
}

/// Whatever datagrams of the stream arrive, duplicated or reordered, as
/// long as none outlives a turn of the sequence space, the receiver
/// delivers exactly the stream's packets from the one it expected on, each
/// once and in stream order, across any number of sequence wraps.
pub proof fn lemma_delivers_stream_in_order(s: Inbound, packets: Seq<Seq<u8>>, idx: Seq<int>)
    requires
        is_stream(packets),
        packets.len() < u64::MAX,
        s.expected <= packets.len(),
        forall|j: int| 0 <= j < idx.len() ==> 0 <= #[trigger] idx[j] < packets.len(),
        within_window(s, packets, idx),
    ensures
        s.expected <= recv_after(s, arrivals(packets, idx)).expected <= packets.len(),
        delivered(s, arrivals(packets, idx)) == deliveries_of(
            packets.subrange(
                s.expected as int,
                recv_after(s, arrivals(packets, idx)).expected as int,
            ),
        ),
    decreases idx.len(),
{
    let ds = arrivals(packets, idx);
    if idx.len() == 0 {
        assert(deliveries_of(packets.subrange(s.expected as int, s.expected as int)) =~= Seq::<
            DeliveryModel,
        >::empty());
    } else {
        let i = idx[0];
        let d = packets[i];
        assert(ds[0] == d);
        assert(ds.drop_first() =~= arrivals(packets, idx.drop_first()));
        let t = recv_next(s, d);
        let rest = idx.drop_first();
        assert forall|j: int| 0 <= j < rest.len() implies 0 <= #[trigger] rest[j] < packets.len() by {
            assert(rest[j] == idx[j + 1]);
        }
        if in_order(s, d) {
            let e = s.expected;
            assert(e as u16 == e % 0x10000) by (bit_vector);
            assert(seq_of(d) == (i % 0x10000) as u16);
            assert(i % 0x10000 == e % 0x10000);
            lemma_same_residue(e as int, i);
            assert(t.expected == e + 1);
            lemma_delivers_stream_in_order(t, packets, rest);
            let f = recv_after(t, arrivals(packets, rest)).expected;
            assert(deliveries_of(packets.subrange(e as int, f as int)) =~= seq![delivery_of(d)]
                + deliveries_of(packets.subrange(e + 1, f as int)));
        } else {
            assert(t.expected == s.expected);
            lemma_delivers_stream_in_order(t, packets, rest);
        }
    }
}

/// Over a link that loses, duplicates and reorders nothing, the receiver
/// delivers the whole stream from the packet it expected on, in order.
pub proof fn lemma_lossless_in_order(s: Inbound, packets: Seq<Seq<u8>>)
    requires
        is_stream(packets),
        packets.len() < u64::MAX,
        s.expected <= packets.len(),
    ensures
        delivered(s, packets.skip(s.expected as int)) == deliveries_of(
            packets.skip(s.expected as int),
        ),
    decreases packets.len() - s.expected,
{
    let j = s.expected as int;
    let ds = packets.skip(j);
    if j == packets.len() {
        assert(ds =~= Seq::<Seq<u8>>::empty());
        assert(deliveries_of(ds) =~= Seq::<DeliveryModel>::empty());
    } else {
        let d = packets[j];
        assert(ds[0] == d);
        let e = s.expected;
        assert(e as u16 == e % 0x10000) by (bit_vector);
        assert(in_order(s, d));
        let t = recv_next(s, d);
        assert(t.expected == e + 1);
        assert(ds.drop_first() =~= packets.skip(j + 1));
        lemma_lossless_in_order(t, packets);
        assert(deliveries_of(ds) =~= seq![delivery_of(d)] + deliveries_of(packets.skip(j + 1)));
    }
}

} // verus!
