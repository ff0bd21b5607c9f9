//! The file transfer carried over the reliable channel: an 8-byte
//! big-endian length first, then the file's bytes in chunks, then an end
//! marker.

use vstd::prelude::*;
use crate::packet::{lemma_packet_fields, packet_bytes, seq_of, PacketKind, HEADER_LEN, MAX_PAYLOAD};
use crate::safe_read_write::{
    Delivery, DeliveryModel, Inbound,
};
use crate::ordering::{
    arrivals, deliveries_of, delivered, is_stream, lemma_delivers_stream_in_order,
    lemma_lossless_in_order, recv_after, within_window,
};

verus! {

/// Length of the file-length header.
pub const LENGTH_HEADER_LEN: usize = 8;

/// Big-endian bytes of a file length.
pub open spec fn length_bytes(n: u64) -> Seq<u8> {
    seq![
        (n >> 56) as u8,
        (n >> 48) as u8,
        (n >> 40) as u8,
        (n >> 32) as u8,
        (n >> 24) as u8,
        (n >> 16) as u8,
        (n >> 8) as u8,
        n as u8,
    ]
}

/// The file length that eight big-endian bytes stand for.
pub open spec fn length_of(b: Seq<u8>) -> u64 {
    (b[0] as u64) << 56 | (b[1] as u64) << 48 | (b[2] as u64) << 40 | (b[3] as u64) << 32 | (
    b[4] as u64) << 24 | (b[5] as u64) << 16 | (b[6] as u64) << 8 | (b[7] as u64)
}

/// Reading back the bytes of a length gives the length.
pub proof fn lemma_length_round_trip(n: u64)
    ensures
        length_bytes(n).len() == LENGTH_HEADER_LEN,
        length_of(length_bytes(n)) == n,
{
    let b = length_bytes(n);
    let (b0, b1, b2, b3, b4, b5, b6, b7) = (b[0], b[1], b[2], b[3], b[4], b[5], b[6], b[7]);
    assert(b0 == (n >> 56) as u8 && b1 == (n >> 48) as u8 && b2 == (n >> 40) as u8 && b3 == (n
        >> 32) as u8 && b4 == (n >> 24) as u8 && b5 == (n >> 16) as u8 && b6 == (n >> 8) as u8
        && b7 == n as u8);
    assert((b0 as u64) << 56 | (b1 as u64) << 48 | (b2 as u64) << 40 | (b3 as u64) << 32 | (
    b4 as u64) << 24 | (b5 as u64) << 16 | (b6 as u64) << 8 | (b7 as u64) == n) by (bit_vector)
        requires
            b0 == (n >> 56) as u8,
            b1 == (n >> 48) as u8,
            b2 == (n >> 40) as u8,
            b3 == (n >> 32) as u8,
            b4 == (n >> 24) as u8,
            b5 == (n >> 16) as u8,
            b6 == (n >> 8) as u8,
            b7 == n as u8,
    ;
}

/// The first payload of a transfer: the file length, big-endian.
pub fn length_header(n: u64) -> (r: Vec<u8>)
    ensures
        r@ == length_bytes(n),
{
    let mut v: Vec<u8> = Vec::with_capacity(LENGTH_HEADER_LEN);
    v.push((n >> 56) as u8);
    v.push((n >> 48) as u8);
    v.push((n >> 40) as u8);
    v.push((n >> 32) as u8);
    v.push((n >> 24) as u8);
    v.push((n >> 16) as u8);
    v.push((n >> 8) as u8);
    v.push(n as u8);
    assert(v@ =~= length_bytes(n));
    v
}

/// The file length in a header payload, if the payload is exactly eight
/// bytes.
pub fn read_length_header(b: &[u8]) -> (r: Option<u64>)
    ensures
        r == if b@.len() == LENGTH_HEADER_LEN {
            Some(length_of(b@))
        } else {
            None::<u64>
        },
{
    if b.len() != LENGTH_HEADER_LEN {
        return None;
    }
    Some(
        (b[0] as u64) << 56 | (b[1] as u64) << 48 | (b[2] as u64) << 40 | (b[3] as u64) << 32 | (
        b[4] as u64) << 24 | (b[5] as u64) << 16 | (b[6] as u64) << 8 | (b[7] as u64),
    )
}

/// The sender ends the transfer when the file is exhausted, unless it
/// streams on past the end.
pub fn ends_transfer(read_len: usize, stream_mode: bool) -> (r: bool)
    ensures
        r == (read_len == 0 && !stream_mode),
{
    read_len == 0 && !stream_mode
}

/// Whether a progress line is due after `total` bytes: once every twenty
/// chunks.
pub fn progress_due(total: u64, chunk: u64) -> (r: bool)
    requires
        1 <= chunk <= MAX_PAYLOAD,
    ensures
        r == ((total as int) % (20 * chunk as int) < chunk),
{
    total % (20 * chunk) < chunk
}

/// Where the receiving side of a transfer stands.
#[derive(Clone, Copy, Debug, PartialEq, Eq, Structural)]
pub enum FileStage {
    AwaitLength,
    Receiving,
    Done,
}

/// What the receiving side does with one delivery.
#[derive(Debug, PartialEq, Eq)]
pub enum FileAction {
    /// Nothing arrived.
    Idle,
    /// The file is this long: size the output.
    SetLength(u64),
    /// Append these bytes to the output.
    WriteData(Vec<u8>),
    /// The transfer is complete.
    Finish,
    /// The first payload was not an 8-byte length.
    BadLength,
}

/// The mathematical value of a [`FileAction`].
pub enum FileActionModel {
    Idle,
    SetLength(u64),
    WriteData(Seq<u8>),
    Finish,
    BadLength,
}

impl View for FileAction {
    type V = FileActionModel;

    open spec fn view(&self) -> FileActionModel {
        match self {
            FileAction::Idle => FileActionModel::Idle,
            FileAction::SetLength(n) => FileActionModel::SetLength(*n),
            FileAction::WriteData(v) => FileActionModel::WriteData(v@),
            FileAction::Finish => FileActionModel::Finish,
            FileAction::BadLength => FileActionModel::BadLength,
        }
    }
}

/// The receiving side of a transfer.
#[derive(Clone, Copy, Debug, PartialEq, Eq, Structural)]
pub struct FileReceiver {
    pub stage: FileStage,
    /// The announced file length, once known.
    pub length: u64,
}

/// The receiving side after one delivery.
pub open spec fn file_next(r: FileReceiver, d: DeliveryModel) -> FileReceiver {
    match (r.stage, d) {
        (_, DeliveryModel::Nothing) => r,
        (FileStage::AwaitLength, DeliveryModel::Data(p)) => if p.len() == LENGTH_HEADER_LEN {
            FileReceiver { stage: FileStage::Receiving, length: length_of(p) }
        } else {
            FileReceiver { stage: FileStage::Done, ..r }
        },
        (FileStage::Receiving, DeliveryModel::Data(p)) => if p.len() > 0 {
            r
        } else {
            FileReceiver { stage: FileStage::Done, ..r }
        },
        (FileStage::Done, _) => r,
        (_, DeliveryModel::EndOfStream) => FileReceiver { stage: FileStage::Done, ..r },
    }
}

/// What the receiving side does with one delivery.
pub open spec fn file_action(r: FileReceiver, d: DeliveryModel) -> FileActionModel {
    match (r.stage, d) {
        (_, DeliveryModel::Nothing) => FileActionModel::Idle,
        (FileStage::Done, _) => FileActionModel::Idle,
        (FileStage::AwaitLength, DeliveryModel::Data(p)) => if p.len() == LENGTH_HEADER_LEN {
            FileActionModel::SetLength(length_of(p))
        } else {
            FileActionModel::BadLength
        },
        (FileStage::AwaitLength, DeliveryModel::EndOfStream) => FileActionModel::BadLength,
        (FileStage::Receiving, DeliveryModel::Data(p)) => if p.len() > 0 {
            FileActionModel::WriteData(p)
        } else {
            FileActionModel::Finish
        },
        (FileStage::Receiving, DeliveryModel::EndOfStream) => FileActionModel::Finish,
    }
}

impl FileReceiver {
    /// Waiting for the file length.
    pub fn new() -> (r: FileReceiver)
        ensures
            r == (FileReceiver { stage: FileStage::AwaitLength, length: 0 }),
    {
        FileReceiver { stage: FileStage::AwaitLength, length: 0 }
    }

    /// Takes one delivery of the channel: the first must be the 8-byte
    /// length; data after it is appended; an empty delivery or the end
    /// marker completes the transfer.
    pub fn on_delivery(&mut self, d: Delivery) -> (r: FileAction)
        ensures
            *final(self) == file_next(*old(self), d@),
            r@ == file_action(*old(self), d@),
    {
        match self.stage {
            FileStage::Done => FileAction::Idle,
            FileStage::AwaitLength => match d {
                Delivery::Nothing => FileAction::Idle,
                Delivery::Data(p) => match read_length_header(p.as_slice()) {
                    Some(n) => {
                        self.stage = FileStage::Receiving;
                        self.length = n;
                        FileAction::SetLength(n)
                    },
                    None => {
                        self.stage = FileStage::Done;
                        FileAction::BadLength
                    },
                },
                Delivery::EndOfStream => {
                    self.stage = FileStage::Done;
                    FileAction::BadLength
                },
            },
            FileStage::Receiving => match d {
                Delivery::Nothing => FileAction::Idle,
                Delivery::Data(p) => {
                    if p.len() > 0 {
                        FileAction::WriteData(p)
                    } else {
                        self.stage = FileStage::Done;
                        FileAction::Finish
                    }
                },
                Delivery::EndOfStream => {
                    self.stage = FileStage::Done;
                    FileAction::Finish
                },
            },
        }
    }
}

/// The file cut into chunks of `c` bytes, the last one possibly shorter.
pub open spec fn chunks(f: Seq<u8>, c: nat) -> Seq<Seq<u8>>
    decreases f.len(),
{
    if f.len() == 0 || c == 0 {
        Seq::empty()
    } else if f.len() <= c {
        seq![f]
    } else {
        seq![f.take(c as int)] + chunks(f.skip(c as int), c)
    }
}

/// The payloads of a transfer: the file length, then the file in chunks.
pub open spec fn transfer_payloads(f: Seq<u8>, c: nat) -> Seq<Seq<u8>> {
    seq![length_bytes(f.len() as u64)] + chunks(f, c)
}

/// The datagrams that a sender emits for a file, by counter from zero:
/// each payload as a write, then the end marker.
pub open spec fn transfer_packets(f: Seq<u8>, c: nat) -> Seq<Seq<u8>> {
    let p = transfer_payloads(f, c);
    Seq::new(
        p.len() + 1,
        |i: int|
            if i < p.len() {
                packet_bytes((i % 0x10000) as u16, PacketKind::Write, p[i])
            } else {
                packet_bytes((i % 0x10000) as u16, PacketKind::End, Seq::empty())
            },
    )
}

/// The receiving side after a run of deliveries.
pub open spec fn file_after(r: FileReceiver, ds: Seq<DeliveryModel>) -> FileReceiver
    decreases ds.len(),
{
    if ds.len() == 0 {
        r
    } else {
        file_after(file_next(r, ds[0]), ds.drop_first())
    }
}

/// The bytes that a run of deliveries appends to the output.
pub open spec fn written(r: FileReceiver, ds: Seq<DeliveryModel>) -> Seq<u8>
    decreases ds.len(),
{
    if ds.len() == 0 {
        Seq::empty()
    } else {
        (match file_action(r, ds[0]) {
            FileActionModel::WriteData(p) => p,
            _ => Seq::empty(),
        }) + written(file_next(r, ds[0]), ds.drop_first())
    }
}

/// Deliveries of data, one for each payload.
pub open spec fn data_deliveries(ps: Seq<Seq<u8>>) -> Seq<DeliveryModel> {
    ps.map_values(|p: Seq<u8>| DeliveryModel::Data(p))
}

proof fn lemma_chunks(f: Seq<u8>, c: nat)
    requires
        c >= 1,
    ensures
        chunks(f, c).flatten() == f,
        forall|i: int| 0 <= i < chunks(f, c).len() ==> 1 <= #[trigger] chunks(f, c)[i].len() <= c,
        chunks(f, c).len() <= f.len(),
    decreases f.len(),
{
    if f.len() == 0 {
    } else if f.len() <= c {
        let cs = chunks(f, c);
        assert(cs.drop_first() =~= Seq::<Seq<u8>>::empty());
        assert(cs.drop_first().flatten() == Seq::<u8>::empty());
        assert(cs.flatten() =~= f);
    } else {
        let rest = f.skip(c as int);
        lemma_chunks(rest, c);
        let cs = chunks(f, c);
        assert(cs.first() == f.take(c as int));
        assert(cs.drop_first() =~= chunks(rest, c));
        assert(f.take(c as int) + rest =~= f);
        assert forall|i: int| 0 <= i < cs.len() implies 1 <= #[trigger] cs[i].len() <= c by {
            if i > 0 {
                assert(cs[i] == chunks(rest, c)[i - 1]);
            }
        }
    }
}

proof fn lemma_receive_chunks(r: FileReceiver, cs: Seq<Seq<u8>>)
    requires
        r.stage == FileStage::Receiving,
        forall|i: int| 0 <= i < cs.len() ==> #[trigger] cs[i].len() >= 1,
    ensures
        file_after(r, data_deliveries(cs) + seq![DeliveryModel::EndOfStream]) == (FileReceiver {
            stage: FileStage::Done,
            ..r
        }),
        written(r, data_deliveries(cs) + seq![DeliveryModel::EndOfStream]) == cs.flatten(),
    decreases cs.len(),
{
    let ds = data_deliveries(cs) + seq![DeliveryModel::EndOfStream];
    if cs.len() == 0 {
        assert(ds.len() == 1 && ds[0] == DeliveryModel::EndOfStream);
        assert(ds.drop_first() =~= Seq::<DeliveryModel>::empty());
        let n = file_next(r, ds[0]);
        assert(file_after(n, ds.drop_first()) == n);
        assert(written(n, ds.drop_first()) == Seq::<u8>::empty());
        assert(written(r, ds) =~= Seq::<u8>::empty());
        assert(cs.flatten() == Seq::<u8>::empty());
    } else {
        let rest = cs.drop_first();
        assert forall|i: int| 0 <= i < rest.len() implies #[trigger] rest[i].len() >= 1 by {
            assert(rest[i] == cs[i + 1]);
        }
        lemma_receive_chunks(r, rest);
        assert(ds[0] == DeliveryModel::Data(cs[0]));
        assert(cs[0].len() >= 1);
        assert(ds.drop_first() =~= data_deliveries(rest) + seq![DeliveryModel::EndOfStream]);
        assert(file_next(r, ds[0]) == r);
        assert(cs.flatten() == cs[0] + rest.flatten());
        assert(written(r, ds) == cs[0] + written(r, ds.drop_first()));
    }
}

/// The datagrams of a transfer form a stream that delivers the length,
/// then each chunk, then the end marker; every payload fits a datagram.
proof fn lemma_transfer_deliveries(f: Seq<u8>, c: nat)
    requires
        1 <= c <= MAX_PAYLOAD,
        f.len() + 2 < u64::MAX,
    ensures
        is_stream(transfer_packets(f, c)),
        transfer_packets(f, c).len() < u64::MAX,
        transfer_packets(f, c).len() == chunks(f, c).len() + 2,
        forall|i: int|
            0 <= i < transfer_payloads(f, c).len() ==> #[trigger] transfer_payloads(f, c)[i].len()
                <= MAX_PAYLOAD,
        forall|i: int| 0 <= i < chunks(f, c).len() ==> #[trigger] chunks(f, c)[i].len() >= 1,
        chunks(f, c).flatten() == f,
        deliveries_of(transfer_packets(f, c)) == seq![
            DeliveryModel::Data(length_bytes(f.len() as u64)),
        ] + (data_deliveries(chunks(f, c)) + seq![DeliveryModel::EndOfStream]),
{
    let cs = chunks(f, c);
    let ps = transfer_payloads(f, c);
    let packets = transfer_packets(f, c);
    lemma_chunks(f, c);
    assert forall|i: int| 0 <= i < ps.len() implies #[trigger] ps[i].len() <= MAX_PAYLOAD by {
        if i > 0 {
            assert(ps[i] == cs[i - 1]);
        }
    }
    assert(is_stream(packets)) by {
        assert forall|i: int| 0 <= i < packets.len() implies #[trigger] packets[i].len()
            >= HEADER_LEN && seq_of(packets[i]) == (i % 0x10000) as u16 by {
            if i < ps.len() {
                lemma_packet_fields((i % 0x10000) as u16, PacketKind::Write, ps[i]);
            } else {
                lemma_packet_fields((i % 0x10000) as u16, PacketKind::End, Seq::empty());
            }
        }
    }
    let expected = seq![DeliveryModel::Data(length_bytes(f.len() as u64))] + (data_deliveries(cs)
        + seq![DeliveryModel::EndOfStream]);
    assert(deliveries_of(packets) =~= expected) by {
        assert forall|i: int| 0 <= i < packets.len() implies #[trigger] deliveries_of(packets)[i]
            == expected[i] by {
            if i < ps.len() {
                lemma_packet_fields((i % 0x10000) as u16, PacketKind::Write, ps[i]);
                if i > 0 {
                    assert(ps[i] == cs[i - 1]);
                }
            } else {
                lemma_packet_fields((i % 0x10000) as u16, PacketKind::End, Seq::empty());
            }
        }
    }
}

/// A file sent in chunks of any size from 1 to `MAX_PAYLOAD` over a
/// loss-free link arrives whole: every chunk fits a datagram, the receiver
/// learns the exact length, writes exactly the file's bytes, and finishes.
pub proof fn lemma_transfer_round_trip(f: Seq<u8>, c: nat)
    requires
        1 <= c <= MAX_PAYLOAD,
        f.len() + 2 < u64::MAX,
    ensures
        forall|i: int|
            0 <= i < transfer_payloads(f, c).len() ==> #[trigger] transfer_payloads(f, c)[i].len()
                <= MAX_PAYLOAD,
        ({
            let ds = delivered(Inbound { expected: 0, catching_up: false }, transfer_packets(f, c));
            &&& file_after(FileReceiver { stage: FileStage::AwaitLength, length: 0 }, ds) == (
            FileReceiver { stage: FileStage::Done, length: f.len() as u64 })
            &&& written(FileReceiver { stage: FileStage::AwaitLength, length: 0 }, ds) == f
        }),
{
    let s0 = Inbound { expected: 0, catching_up: false };
    let r0 = FileReceiver { stage: FileStage::AwaitLength, length: 0 };
    let cs = chunks(f, c);
    let packets = transfer_packets(f, c);
    lemma_transfer_deliveries(f, c);
    lemma_length_round_trip(f.len() as u64);
    lemma_lossless_in_order(s0, packets);
    assert(packets.skip(0) =~= packets);
    let expected = deliveries_of(packets);
    let r1 = FileReceiver { stage: FileStage::Receiving, length: f.len() as u64 };
    assert(file_next(r0, expected[0]) == r1);
    assert(expected.drop_first() =~= data_deliveries(cs) + seq![DeliveryModel::EndOfStream]);
    lemma_receive_chunks(r1, cs);
    assert(written(r0, expected) =~= written(r1, expected.drop_first()));
}

proof fn lemma_receive_chunks_prefix(r: FileReceiver, cs: Seq<Seq<u8>>, j: int)
    requires
        r.stage == FileStage::Receiving,
        forall|i: int| 0 <= i < cs.len() ==> #[trigger] cs[i].len() >= 1,
        0 <= j <= cs.len() + 1,
    ensures
        written(r, (data_deliveries(cs) + seq![DeliveryModel::EndOfStream]).take(j)) == cs.take(
            if j <= cs.len() {
                j
            } else {
                cs.len() as int
            },
        ).flatten(),
        file_after(r, (data_deliveries(cs) + seq![DeliveryModel::EndOfStream]).take(j)) == if j
            == cs.len() + 1 {
            FileReceiver { stage: FileStage::Done, ..r }
        } else {
            r
        },
    decreases cs.len(),
{
    let ds = (data_deliveries(cs) + seq![DeliveryModel::EndOfStream]).take(j);
    if j == 0 {
        assert(ds =~= Seq::<DeliveryModel>::empty());
        assert(cs.take(0) =~= Seq::<Seq<u8>>::empty());
        assert(cs.take(0).flatten() == Seq::<u8>::empty());
    } else if cs.len() == 0 {
        assert(ds.len() == 1 && ds[0] == DeliveryModel::EndOfStream);
        assert(ds.drop_first() =~= Seq::<DeliveryModel>::empty());
        let n = file_next(r, ds[0]);
        assert(file_after(n, ds.drop_first()) == n);
        assert(written(n, ds.drop_first()) == Seq::<u8>::empty());
        assert(written(r, ds) =~= Seq::<u8>::empty());
        assert(cs.take(0) =~= Seq::<Seq<u8>>::empty());
        assert(cs.take(0).flatten() == Seq::<u8>::empty());
    } else {
        let rest = cs.drop_first();
        assert forall|i: int| 0 <= i < rest.len() implies #[trigger] rest[i].len() >= 1 by {
            assert(rest[i] == cs[i + 1]);
        }
        lemma_receive_chunks_prefix(r, rest, j - 1);
        assert(ds[0] == DeliveryModel::Data(cs[0]));
        assert(cs[0].len() >= 1);
        assert(ds.drop_first() =~= (data_deliveries(rest) + seq![DeliveryModel::EndOfStream]).take(
            j - 1,
        ));
        assert(file_next(r, ds[0]) == r);
        let m = if j <= cs.len() {
            j
        } else {
            cs.len() as int
        };
        let t = cs.take(m);
        assert(t.first() == cs[0]);
        assert(t.drop_first() =~= rest.take(m - 1));
        assert(t.flatten() == cs[0] + rest.take(m - 1).flatten());
        assert(written(r, ds) == cs[0] + written(r, ds.drop_first()));
    }
}

/// Whatever datagrams of a transfer arrive, duplicated or reordered, as
/// long as none outlives a turn of the sequence space: the bytes written
/// so far are the start of the file, each written once and in order, across
/// any number of sequence wraps; once the transfer finishes they are the
/// whole file, and the announced length is the file's.
pub proof fn lemma_transfer_any_arrivals(f: Seq<u8>, c: nat, idx: Seq<int>)
    requires
        1 <= c <= MAX_PAYLOAD,
        f.len() + 2 < u64::MAX,
        forall|j: int| 0 <= j < idx.len() ==> 0 <= #[trigger] idx[j] < transfer_packets(f, c).len(),
        within_window(Inbound { expected: 0, catching_up: false }, transfer_packets(f, c), idx),
    ensures
        ({
            let ds = delivered(
                Inbound { expected: 0, catching_up: false },
                arrivals(transfer_packets(f, c), idx),
            );
            let w = written(FileReceiver { stage: FileStage::AwaitLength, length: 0 }, ds);
            let fin = file_after(FileReceiver { stage: FileStage::AwaitLength, length: 0 }, ds);
            &&& w.len() <= f.len()
            &&& w == f.take(w.len() as int)
            &&& fin.stage == FileStage::Done ==> w == f && fin.length == f.len()
        }),
{
    let s0 = Inbound { expected: 0, catching_up: false };
    let r0 = FileReceiver { stage: FileStage::AwaitLength, length: 0 };
    let cs = chunks(f, c);
    let packets = transfer_packets(f, c);
    lemma_transfer_deliveries(f, c);
    lemma_length_round_trip(f.len() as u64);
    lemma_delivers_stream_in_order(s0, packets, idx);
    let e = recv_after(s0, arrivals(packets, idx)).expected as int;
    let ds = delivered(s0, arrivals(packets, idx));
    let all = deliveries_of(packets);
    assert(ds =~= all.take(e));
    let tail = data_deliveries(cs) + seq![DeliveryModel::EndOfStream];
    if e == 0 {
        assert(ds =~= Seq::<DeliveryModel>::empty());
        assert(f.take(0) =~= Seq::<u8>::empty());
    } else {
        let r1 = FileReceiver { stage: FileStage::Receiving, length: f.len() as u64 };
        assert(ds[0] == all[0]);
        assert(file_next(r0, ds[0]) == r1);
        assert(ds.drop_first() =~= tail.take(e - 1));
        lemma_receive_chunks_prefix(r1, cs, e - 1);
        assert(written(r0, ds) =~= written(r1, ds.drop_first()));
        let m = if e - 1 <= cs.len() {
            e - 1
        } else {
            cs.len() as int
        };
        vstd::seq_lib::lemma_flatten_concat(cs.take(m), cs.skip(m));
        assert(cs.take(m) + cs.skip(m) =~= cs);
        let w = cs.take(m).flatten();
        assert(f =~= w + cs.skip(m).flatten());
        assert(w =~= f.take(w.len() as int));
        if e - 1 == cs.len() + 1 {
            assert(cs.take(m) =~= cs);
        }
    }
}

} // verus!
