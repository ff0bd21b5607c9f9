//! The reliable ordered datagram channel: the state that each peer keeps,
//! and what it does on each event that the socket driver hands it.

use std::collections::HashMap;
use vstd::prelude::*;
use crate::packet::{
    ahead, control_packet, encode_packet, is_ahead, lemma_packet_fields, kind_code, packet_bytes, packet_seq, payload_of, seq_of,
    PacketKind, HEADER_LEN, MAX_PAYLOAD,
};

verus! {

broadcast use vstd::std_specs::hash::group_hash_axioms;

/// How many unacknowledged datagrams force the sender to wait for an
/// acknowledgement before it goes on.
pub const BACK_PRESSURE_LIMIT: usize = 256;

/// Silence, in milliseconds, after which the latest datagram is sent again.
pub const RESEND_AFTER_MILLIS: u64 = 10000;

/// Silence, in milliseconds, after which a closing sender gives up waiting.
pub const GIVE_UP_AFTER_MILLIS: u64 = 5000;

/// Read timeout, in milliseconds, of a non-blocking acknowledgement phase.
pub const SHORT_POLL_MILLIS: u64 = 1;

/// Read timeout, in milliseconds, outside a non-blocking phase.
pub const LONG_POLL_MILLIS: u64 = 1000;

/// The 64-bit counter after one more packet; it wraps at 2^64.
pub open spec fn next_count(n: u64) -> u64 {
    if n == u64::MAX {
        0
    } else {
        (n + 1) as u64
    }
}

/// The receiving half of a channel.
#[derive(Clone, Copy, Debug, PartialEq, Eq, Structural)]
pub struct Inbound {
    /// Counter of the next packet to deliver; its low 16 bits are the
    /// sequence number expected on the wire.
    pub expected: u64,
    /// A resend request went out since the last in-order delivery.
    pub catching_up: bool,
}

/// What one datagram delivers to the reader.
#[derive(Debug, PartialEq, Eq)]
pub enum Delivery {
    Nothing,
    Data(Vec<u8>),
    EndOfStream,
}

/// The mathematical value of a [`Delivery`].
pub enum DeliveryModel {
    Nothing,
    Data(Seq<u8>),
    EndOfStream,
}

impl View for Delivery {
    type V = DeliveryModel;

    open spec fn view(&self) -> DeliveryModel {
        match self {
            Delivery::Nothing => DeliveryModel::Nothing,
            Delivery::Data(v) => DeliveryModel::Data(v@),
            Delivery::EndOfStream => DeliveryModel::EndOfStream,
        }
    }
}

/// The receiver's answer to one datagram.
pub struct ReadStep {
    /// Control packet to send back, if any.
    pub reply: Option<Vec<u8>>,
    /// What the reader gets.
    pub delivery: Delivery,
    /// The delivered packet carried sequence 0xFFFF: the wire sequence wraps.
    pub wrapped: bool,
}

/// The datagram is in order for the receiver.
pub open spec fn in_order(s: Inbound, d: Seq<u8>) -> bool {
    d.len() >= HEADER_LEN && seq_of(d) == s.expected as u16
}

/// Receiver state after one datagram.
pub open spec fn recv_next(s: Inbound, d: Seq<u8>) -> Inbound {
    if d.len() < HEADER_LEN {
        s
    } else if in_order(s, d) {
        Inbound { expected: next_count(s.expected), catching_up: false }
    } else if ahead(seq_of(d), s.expected as u16) {
        Inbound { catching_up: true, ..s }
    } else {
        s
    }
}

/// The control packet that the receiver sends back for one datagram: an
/// acknowledgement of anything not ahead, a resend request for the
/// expected packet on the first gap of an episode.
pub open spec fn recv_reply(s: Inbound, d: Seq<u8>) -> Option<Seq<u8>> {
    if d.len() < HEADER_LEN {
        None
    } else if !ahead(seq_of(d), s.expected as u16) {
        Some(packet_bytes(seq_of(d), PacketKind::Ack, Seq::empty()))
    } else if !s.catching_up {
        Some(packet_bytes(s.expected as u16, PacketKind::ResendRequest, Seq::empty()))
    } else {
        None
    }
}

/// What a packet delivers once it is in order.
pub open spec fn delivery_of(d: Seq<u8>) -> DeliveryModel {
    if d[2] == kind_code(PacketKind::End) {
        DeliveryModel::EndOfStream
    } else {
        DeliveryModel::Data(payload_of(d))
    }
}

/// What one datagram delivers to the reader.
pub open spec fn recv_delivery(s: Inbound, d: Seq<u8>) -> DeliveryModel {
    if in_order(s, d) {
        delivery_of(d)
    } else {
        DeliveryModel::Nothing
    }
}

/// The reliable channel's state on one peer.
pub struct SafeReadWrite {
    last_transmitted: HashMap<u16, Vec<u8>>,
    packet_count_out: u64,
    inbound: Inbound,
}

impl SafeReadWrite {
    /// Sent datagrams not yet acknowledged, by sequence number.
    pub closed spec fn outstanding(&self) -> Map<u16, Seq<u8>> {
        self.last_transmitted@.map_values(|v: Vec<u8>| v@)
    }

    /// Counter of the next packet to send.
    pub closed spec fn count_out(&self) -> u64 {
        self.packet_count_out
    }

    /// The receiving half.
    pub closed spec fn inbound_state(&self) -> Inbound {
        self.inbound
    }

    /// Every stored datagram is a whole packet filed under its own
    /// sequence number.
    pub open spec fn wf(&self) -> bool {
        &&& self.outstanding().dom().finite()
        &&& forall|k: u16| #[trigger]
            self.outstanding().contains_key(k) ==> {
                &&& self.outstanding()[k].len() >= HEADER_LEN
                &&& self.outstanding()[k].len() <= MAX_PAYLOAD + HEADER_LEN
                &&& seq_of(self.outstanding()[k]) == k
            }
    }

    /// Every unacknowledged sequence lies below the next one to send, in
    /// plain 16-bit order: the sender waits out each wrap of the sequence
    /// space until everything before it is acknowledged, so nothing older
    /// than the last 0xFFFF sends is kept.
    pub open spec fn keys_below_next(&self) -> bool {
        forall|k: u16| #[trigger] self.outstanding().contains_key(k) ==> k < self.count_out() as u16
    }

    /// How the state stands during the acknowledgement phase of the latest
    /// datagram: the phase is for the sequence just sent; that datagram is
    /// still stored unless everything was acknowledged; no stored sequence
    /// lies above it; and the phase for sequence 0xFFFF stops waiting only
    /// once everything is acknowledged.
    pub open spec fn phase_consistent(&self, phase: AckPhase) -> bool {
        &&& phase.seq == (self.count_out() as int + 0xFFFF) % 0x10000
        &&& (self.outstanding().contains_key(phase.seq) || self.outstanding()
            == Map::<u16, Seq<u8>>::empty())
        &&& forall|k: u16| #[trigger] self.outstanding().contains_key(k) ==> k <= phase.seq
        &&& (phase.seq == 0xFFFF && !phase.exit_on_lost && !phase.wait) ==> self.outstanding()
            == Map::<u16, Seq<u8>>::empty()
    }

    /// Between acknowledgement phases, every unacknowledged sequence is that
    /// of one of the last 0xFFFF packets sent.
    pub proof fn lemma_outstanding_window(&self)
        requires
            self.keys_below_next(),
        ensures
            forall|k: u16|
                #[trigger] self.outstanding().contains_key(k) ==> exists|n: int|
                    self.count_out() - 0xFFFF <= n < self.count_out() && #[trigger] (n % 0x10000)
                        == k,
    {
        let c = self.count_out();
        assert(c as u16 == c % 0x10000) by (bit_vector);
        assert forall|k: u16| #[trigger] self.outstanding().contains_key(k) implies exists|n: int|
            c - 0xFFFF <= n < c && #[trigger] (n % 0x10000) == k by {
            let n = c - (c as u16 - k);
            vstd::arithmetic::div_mod::lemma_fundamental_div_mod(c as int, 0x10000);
            assert(n == 0x10000 * (c as int / 0x10000) + k);
            vstd::arithmetic::div_mod::lemma_mod_multiples_vanish(c as int / 0x10000, k as int, 0x10000);
            assert(n % 0x10000 == k);
        }
    }

    /// A fresh channel: nothing sent, nothing received.
    pub fn new() -> (r: SafeReadWrite)
        ensures
            r.wf(),
            r.outstanding() == Map::<u16, Seq<u8>>::empty(),
            r.count_out() == 0,
            r.keys_below_next(),
            r.inbound_state() == (Inbound { expected: 0, catching_up: false }),
    {
        let r = SafeReadWrite {
            last_transmitted: HashMap::new(),
            packet_count_out: 0,
            inbound: Inbound { expected: 0, catching_up: false },
        };
        assert(r.outstanding() =~= Map::<u16, Seq<u8>>::empty());
        r
    }

    /// Handles one datagram that arrived while reading: acknowledges it,
    /// asks for a resend on a gap, and delivers it when it is in order.
    pub fn read_datagram(&mut self, d: &[u8]) -> (r: ReadStep)
        ensures
            final(self).inbound_state() == recv_next(old(self).inbound_state(), d@),
            final(self).outstanding() == old(self).outstanding(),
            final(self).count_out() == old(self).count_out(),
            match r.reply {
                Some(v) => recv_reply(old(self).inbound_state(), d@) == Some(v@),
                None => recv_reply(old(self).inbound_state(), d@) is None,
            },
            r.delivery@ == recv_delivery(old(self).inbound_state(), d@),
            r.wrapped == (in_order(old(self).inbound_state(), d@) && seq_of(d@) == 0xFFFF),
    {
        if d.len() < HEADER_LEN {
            return ReadStep { reply: None, delivery: Delivery::Nothing, wrapped: false };
        }
        let id = packet_seq(d);
        let expected = self.inbound.expected as u16;
        let newer = is_ahead(id, expected);
        let reply = if !newer {
            Some(control_packet(id, PacketKind::Ack))
        } else if !self.inbound.catching_up {
            self.inbound.catching_up = true;
            Some(control_packet(expected, PacketKind::ResendRequest))
        } else {
            None
        };
        if id == expected {
            self.inbound = Inbound { expected: self.inbound.expected.wrapping_add(1), catching_up: false };
            let delivery = if d[2] == PacketKind::End.code() {
                Delivery::EndOfStream
            } else {
                Delivery::Data(copy_tail(d, HEADER_LEN))
            };
            ReadStep { reply, delivery, wrapped: id == 0xFFFF }
        } else {
            ReadStep { reply, delivery: Delivery::Nothing, wrapped: false }
        }
    }
}

/// The sender's acknowledgement phase after one datagram went out.
#[derive(Clone, Copy, Debug, PartialEq, Eq, Structural)]
pub struct AckPhase {
    /// Sequence number of the datagram just sent.
    pub seq: u16,
    /// The phase lasts until that datagram is acknowledged.
    pub wait: bool,
    /// Silence ends the phase (closing mode).
    pub exit_on_lost: bool,
    /// A resend request came in during this phase.
    pub catching_up: bool,
    /// Clock reading, in milliseconds, since which nothing has come in.
    pub silence_since: u64,
    /// Read timeout, in milliseconds, that the driver polls with.
    pub poll_millis: u64,
}

/// The sender's answer to one event of an acknowledgement phase.
pub struct PhaseStep {
    /// Datagrams to send again, in this order.
    pub resend: Vec<Vec<u8>>,
    /// The phase is over.
    pub done: bool,
    /// The datagram with sequence 0xFFFF was acknowledged: the wrap is done.
    pub wrapped: bool,
    /// The first resend request of this phase came in.
    pub drop_noticed: bool,
}

/// The stored datagrams for `from`, `from + 1`, ... up to `last`, in plain
/// 16-bit order, stopping at the first one that is no longer stored.
pub open spec fn resend_run(m: Map<u16, Seq<u8>>, from: u16, last: u16) -> Seq<Seq<u8>>
    decreases last - from,
{
    if from > last || !m.contains_key(from) {
        Seq::empty()
    } else if from == last {
        seq![m[from]]
    } else {
        seq![m[from]] + resend_run(m, (from + 1) as u16, last)
    }
}

/// Milliseconds from `since` to `now`, zero if the clock went back.
pub open spec fn elapsed(since: u64, now: u64) -> int {
    if now >= since {
        now - since
    } else {
        0
    }
}

/// The views of a list of datagrams.
pub open spec fn views(v: Seq<Vec<u8>>) -> Seq<Seq<u8>> {
    v.map_values(|d: Vec<u8>| d@)
}

impl SafeReadWrite {
    /// Encodes the next packet, files it as outstanding and opens the
    /// acknowledgement phase; the driver sends the datagram returned.
    pub fn begin_write(
        &mut self,
        payload: &[u8],
        kind: PacketKind,
        flush: bool,
        exit_on_lost: bool,
        now: u64,
    ) -> (r: (Vec<u8>, AckPhase))
        requires
            old(self).wf(),
            payload@.len() <= MAX_PAYLOAD,
        ensures
            final(self).wf(),
            r.0@ == packet_bytes(old(self).count_out() as u16, kind, payload@),
            final(self).outstanding() == old(self).outstanding().insert(
                old(self).count_out() as u16,
                r.0@,
            ),
            final(self).count_out() == next_count(old(self).count_out()),
            final(self).inbound_state() == old(self).inbound_state(),
            old(self).keys_below_next() ==> final(self).phase_consistent(r.1),
            r.1 == (AckPhase {
                seq: old(self).count_out() as u16,
                wait: old(self).count_out() as u16 == 0xFFFF || flush
                    || final(self).outstanding().len() >= BACK_PRESSURE_LIMIT,
                exit_on_lost,
                catching_up: false,
                silence_since: now,
                poll_millis: if final(self).outstanding().len() < BACK_PRESSURE_LIMIT {
                    SHORT_POLL_MILLIS
                } else {
                    LONG_POLL_MILLIS
                },
            }),
    {
        let seq = self.packet_count_out as u16;
        self.packet_count_out = self.packet_count_out.wrapping_add(1);
        let datagram = encode_packet(seq, kind, payload);
        let stored = copy_tail(datagram.as_slice(), 0);
        assert(stored@ =~= datagram@);
        proof {
            lemma_packet_fields(seq, kind, payload@);
        }
        self.last_transmitted.insert(seq, stored);
        assert(self.outstanding() =~= old(self).outstanding().insert(seq, datagram@));
        assert(self.outstanding().dom() =~= self.last_transmitted@.dom());
        let pending = self.last_transmitted.len();
        proof {
            lemma_count_step(old(self).packet_count_out);
            if old(self).keys_below_next() {
                assert forall|k: u16| #[trigger] self.outstanding().contains_key(k) implies k
                    <= seq by {
                    if k != seq {
                        assert(old(self).outstanding().contains_key(k));
                    }
                }
            }
        }
        let phase = AckPhase {
            seq,
            wait: seq == 0xFFFF || flush || pending >= BACK_PRESSURE_LIMIT,
            exit_on_lost,
            catching_up: false,
            silence_since: now,
            poll_millis: if pending < BACK_PRESSURE_LIMIT {
                SHORT_POLL_MILLIS
            } else {
                LONG_POLL_MILLIS
            },
        };
        (datagram, phase)
    }

    /// Handles one datagram that arrived during an acknowledgement phase.
    /// Any arrival ends the silence; an acknowledgement of the datagram
    /// just sent acknowledges all and ends the phase; a resend request sends
    /// the stored run from the requested sequence on.
    pub fn phase_datagram(&mut self, phase: &mut AckPhase, d: &[u8], now: u64) -> (r: PhaseStep)
        requires
            old(self).wf(),
        ensures
            final(self).wf(),
            final(self).count_out() == old(self).count_out(),
            final(self).inbound_state() == old(self).inbound_state(),
            final(phase).silence_since == now,
            final(phase).seq == old(phase).seq,
            final(phase).exit_on_lost == old(phase).exit_on_lost,
            final(phase).poll_millis == old(phase).poll_millis,
            old(self).phase_consistent(*old(phase)) ==> final(self).phase_consistent(*final(phase)),
            old(self).phase_consistent(*old(phase)) && r.done && !old(phase).exit_on_lost
                ==> final(self).keys_below_next(),
            old(self).phase_consistent(*old(phase)) && r.done && !old(phase).exit_on_lost
                && old(phase).seq == 0xFFFF ==> final(self).outstanding() == Map::<
                u16,
                Seq<u8>,
            >::empty(),
            d@.len() != HEADER_LEN || (d@[2] != kind_code(PacketKind::Ack) && d@[2]
                != kind_code(PacketKind::ResendRequest)) ==> {
                &&& final(self).outstanding() == old(self).outstanding()
                &&& final(phase).wait == old(phase).wait
                &&& final(phase).catching_up == old(phase).catching_up
                &&& r.resend@.len() == 0
                &&& !r.done && !r.wrapped && !r.drop_noticed
            },
            d@.len() == HEADER_LEN && d@[2] == kind_code(PacketKind::Ack) ==> {
                let n = seq_of(d@);
                &&& final(self).outstanding() == if n == old(phase).seq {
                    Map::<u16, Seq<u8>>::empty()
                } else {
                    old(self).outstanding().remove(n)
                }
                &&& final(phase).wait == (old(phase).wait && n != old(phase).seq)
                &&& final(phase).catching_up == old(phase).catching_up
                &&& r.resend@.len() == 0
                &&& r.done == (n == old(phase).seq)
                &&& r.wrapped == (n == old(phase).seq && n == 0xFFFF)
                &&& !r.drop_noticed
            },
            d@.len() == HEADER_LEN && d@[2] == kind_code(PacketKind::ResendRequest) ==> {
                &&& final(self).outstanding() == old(self).outstanding()
                &&& final(phase).wait
                &&& final(phase).catching_up
                &&& views(r.resend@) == resend_run(old(self).outstanding(), seq_of(d@), old(phase).seq)
                &&& !r.done && !r.wrapped
                &&& r.drop_noticed == !old(phase).catching_up
            },
    {
        proof {
            lemma_seq_after(self.packet_count_out, phase.seq);
        }
        phase.silence_since = now;
        let mut step = PhaseStep { resend: Vec::new(), done: false, wrapped: false, drop_noticed: false };
        if d.len() != HEADER_LEN {
            return step;
        }
        let n = packet_seq(d);
        if d[2] == PacketKind::Ack.code() {
            if n == phase.seq {
                self.last_transmitted.clear();
                assert(self.outstanding() =~= Map::<u16, Seq<u8>>::empty());
                phase.wait = false;
                step.done = true;
                step.wrapped = n == 0xFFFF;
            } else {
                self.last_transmitted.remove(&n);
                assert(self.outstanding() =~= old(self).outstanding().remove(n));
                proof {
                    if old(self).outstanding() == Map::<u16, Seq<u8>>::empty() {
                        assert(self.outstanding() =~= Map::<u16, Seq<u8>>::empty());
                    }
                }
            }
            assert(self.outstanding().dom() =~= self.last_transmitted@.dom());
        } else if d[2] == PacketKind::ResendRequest.code() {
            phase.wait = true;
            step.drop_noticed = !phase.catching_up;
            phase.catching_up = true;
            step.resend = self.resend_from(n, phase.seq);
        }
        step
    }

    /// The stored run from `from` up to `last`, copied out.
    fn resend_from(&self, from: u16, last: u16) -> (r: Vec<Vec<u8>>)
        ensures
            views(r@) == resend_run(self.outstanding(), from, last),
    {
        let mut out: Vec<Vec<u8>> = Vec::new();
        if from > last {
            assert(views(out@) =~= resend_run(self.outstanding(), from, last));
            return out;
        }
        let mut m: u16 = from;
        loop
            invariant
                from <= m <= last,
                views(out@) + resend_run(self.outstanding(), m, last) == resend_run(
                    self.outstanding(),
                    from,
                    last,
                ),
            decreases last - m,
        {
            match self.last_transmitted.get(&m) {
                Some(d) => {
                    let c = copy_tail(d.as_slice(), 0);
                    assert(c@ =~= d@);
                    let ghost before = out@;
                    out.push(c);
                    assert(views(out@) =~= views(before) + seq![self.outstanding()[m]]);
                },
                None => {
                    assert(views(out@) + Seq::<Seq<u8>>::empty() =~= views(out@));
                    return out;
                },
            }
            if m == last {
                assert(views(out@) =~= resend_run(self.outstanding(), from, last));
                return out;
            }
            m = m + 1;
        }
    }

    /// Handles a read timeout during an acknowledgement phase. In closing
    /// mode a silence over five seconds ends the phase; a silence over ten
    /// seconds sends the latest datagram again, or ends the phase if it was
    /// already acknowledged; otherwise a phase that need not wait ends.
    pub fn phase_silence(&mut self, phase: &mut AckPhase, now: u64) -> (r: PhaseStep)
        requires
            old(self).wf(),
        ensures
            final(self).wf(),
            final(self).outstanding() == old(self).outstanding(),
            final(self).count_out() == old(self).count_out(),
            final(self).inbound_state() == old(self).inbound_state(),
            final(phase).seq == old(phase).seq,
            final(phase).wait == old(phase).wait,
            final(phase).exit_on_lost == old(phase).exit_on_lost,
            final(phase).catching_up == old(phase).catching_up,
            final(phase).poll_millis == old(phase).poll_millis,
            !r.wrapped && !r.drop_noticed,
            old(self).phase_consistent(*old(phase)) ==> final(self).phase_consistent(*final(phase)),
            old(self).phase_consistent(*old(phase)) && r.done && !old(phase).exit_on_lost
                ==> final(self).keys_below_next(),
            old(self).phase_consistent(*old(phase)) && r.done && !old(phase).exit_on_lost
                && old(phase).seq == 0xFFFF ==> final(self).outstanding() == Map::<
                u16,
                Seq<u8>,
            >::empty(),
            ({
                let t = elapsed(old(phase).silence_since, now);
                let latest = old(self).outstanding().contains_key(old(phase).seq);
                if t > GIVE_UP_AFTER_MILLIS && old(phase).exit_on_lost {
                    r.done && r.resend@.len() == 0 && final(phase).silence_since
                        == old(phase).silence_since
                } else if t > RESEND_AFTER_MILLIS && latest {
                    &&& views(r.resend@) == seq![old(self).outstanding()[old(phase).seq]]
                    &&& final(phase).silence_since == now
                    &&& r.done == !old(phase).wait
                } else if t > RESEND_AFTER_MILLIS {
                    r.done && r.resend@.len() == 0 && final(phase).silence_since
                        == old(phase).silence_since
                } else {
                    r.done == !old(phase).wait && r.resend@.len() == 0 && final(phase).silence_since
                        == old(phase).silence_since
                }
            }),
    {
        proof {
            lemma_seq_after(self.packet_count_out, phase.seq);
        }
        let mut step = PhaseStep { resend: Vec::new(), done: false, wrapped: false, drop_noticed: false };
        let t = now.saturating_sub(phase.silence_since);
        if t > GIVE_UP_AFTER_MILLIS && phase.exit_on_lost {
            step.done = true;
            return step;
        }
        if t > RESEND_AFTER_MILLIS {
            match self.last_transmitted.get(&phase.seq) {
                Some(d) => {
                    let c = copy_tail(d.as_slice(), 0);
                    assert(c@ =~= d@);
                    step.resend.push(c);
                    assert(views(step.resend@) =~= seq![self.outstanding()[phase.seq]]);
                    phase.silence_since = now;
                },
                None => {
                    step.done = true;
                    return step;
                },
            }
        }
        step.done = !phase.wait;
        step
    }
}

/// The sequence just sent, from the counter after it.
proof fn lemma_count_step(n: u64)
    ensures
        (next_count(n) as int + 0xFFFF) % 0x10000 == n as u16,
{
    assert(n as u16 == n % 0x10000) by (bit_vector);
    if n == u64::MAX {
        assert(n as u16 == 0xFFFF) by (bit_vector)
            requires
                n == u64::MAX,
        ;
    }
}

/// The sequence after `seq`, for a counter one past it.
proof fn lemma_seq_after(c: u64, seq: u16)
    ensures
        (c as int + 0xFFFF) % 0x10000 == seq ==> c as u16 == if seq == 0xFFFF {
            0
        } else {
            seq + 1
        },
{
    assert(c as u16 == c % 0x10000) by (bit_vector);
}

/// The bytes of `s` from index `start` on.
fn copy_tail(s: &[u8], start: usize) -> (r: Vec<u8>)
    requires
        start <= s@.len(),
    ensures
        r@ == s@.subrange(start as int, s@.len() as int),
{
    let mut v: Vec<u8> = Vec::with_capacity(s.len() - start);
    let mut i: usize = start;
    while i < s.len()
        invariant
            start <= i <= s@.len(),
            v@ =~= s@.subrange(start as int, i as int),
        decreases s@.len() - i,
    {
        v.push(s[i]);
        i += 1;
        assert(v@ =~= s@.subrange(start as int, i as int));
    }
    v
}

} // verus!
