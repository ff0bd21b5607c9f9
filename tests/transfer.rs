use quad::packet::{control_packet, PacketKind};
use quad::safe_read_write::{AckPhase, SafeReadWrite};
use quad::transfer::{
    ends_transfer, length_header, progress_due, read_length_header, FileAction, FileReceiver,
    FileStage,
};

/// What a run over an in-memory link produced.
struct Run {
    output: Vec<u8>,
    length: Option<u64>,
    sender_datagrams: Vec<Vec<u8>>,
    receiver_replies: Vec<Vec<u8>>,
    receiver_wraps: usize,
    sender_wraps: usize,
}

/// Runs a whole transfer of `file` in chunks of `chunk` bytes. `drop_tx`
/// and `drop_rx` pick, by their index among all datagrams of that
/// direction, the datagrams the link loses once.
fn run(file: &[u8], chunk: usize, drop_tx: &[usize], drop_rx: &[usize]) -> Run {
    let mut tx = SafeReadWrite::new();
    let mut rx = SafeReadWrite::new();
    let mut file_rx = FileReceiver::new();
    let mut r = Run {
        output: Vec::new(),
        length: None,
        sender_datagrams: Vec::new(),
        receiver_replies: Vec::new(),
        receiver_wraps: 0,
        sender_wraps: 0,
    };
    let mut now: u64 = 0;
    let mut tx_count = 0usize;
    let mut rx_count = 0usize;
    let mut payloads: Vec<(Vec<u8>, PacketKind, bool, bool)> = Vec::new();
    payloads.push((length_header(file.len() as u64), PacketKind::Write, false, false));
    for c in file.chunks(chunk) {
        payloads.push((c.to_vec(), PacketKind::Write, false, false));
    }
    assert!(ends_transfer(0, false));
    payloads.push((Vec::new(), PacketKind::End, true, true));
    let mut finished = false;
    for (payload, kind, flush, closing) in payloads {
        let (d, mut phase) = tx.begin_write(&payload, kind, flush, closing, now);
        let mut to_rx: Vec<Vec<u8>> = vec![d];
        loop {
            // sender -> receiver
            let mut to_tx: Vec<Vec<u8>> = Vec::new();
            for d in to_rx.drain(..) {
                r.sender_datagrams.push(d.clone());
                tx_count += 1;
                if drop_tx.contains(&(tx_count - 1)) {
                    continue;
                }
                let step = rx.read_datagram(&d);
                if step.wrapped {
                    r.receiver_wraps += 1;
                }
                if let Some(reply) = step.reply {
                    to_tx.push(reply);
                }
                match file_rx.on_delivery(step.delivery) {
                    FileAction::SetLength(n) => r.length = Some(n),
                    FileAction::WriteData(p) => r.output.extend_from_slice(&p),
                    FileAction::Finish => finished = true,
                    FileAction::BadLength => panic!("bad length"),
                    FileAction::Idle => {}
                }
            }
            // receiver -> sender
            let mut done = false;
            if to_tx.is_empty() {
                now += phase.poll_millis;
                let step = tx.phase_silence(&mut phase, now);
                to_rx.extend(step.resend);
                done = step.done;
                if !done && to_rx.is_empty() {
                    // nothing in flight: let a long silence pass
                    now += 4000;
                }
            }
            for reply in to_tx {
                r.receiver_replies.push(reply.clone());
                rx_count += 1;
                if drop_rx.contains(&(rx_count - 1)) {
                    continue;
                }
                let step = tx.phase_datagram(&mut phase, &reply, now);
                if step.wrapped {
                    r.sender_wraps += 1;
                }
                to_rx.extend(step.resend);
                done = done || step.done;
            }
            if done && to_rx.is_empty() {
                break;
            }
            check_phase(&phase);
        }
    }
    assert!(finished);
    assert_eq!(file_rx.stage, FileStage::Done);
    r
}

fn check_phase(p: &AckPhase) {
    assert!(p.poll_millis == 1 || p.poll_millis == 1000);
}

fn ack(seq: u16) -> Vec<u8> {
    control_packet(seq, PacketKind::Ack)
}

#[test]
fn happy_path_small_file() {
    let file = b"hello, quad\n";
    let r = run(file, 256, &[], &[]);
    assert_eq!(r.output, file.to_vec());
    assert_eq!(r.length, Some(12));
    assert_eq!(r.sender_datagrams.len(), 3);
    assert_eq!(r.sender_datagrams[0][2], 0);
    assert_eq!(r.sender_datagrams[1][2], 0);
    assert_eq!(r.sender_datagrams[2], vec![0, 2, 3]);
    assert_eq!(r.receiver_replies, vec![ack(0), ack(1), ack(2)]);
}

#[test]
fn chunk_boundary() {
    let file = vec![0xAAu8; 512];
    let r = run(&file, 256, &[], &[]);
    assert_eq!(r.output, file);
    assert_eq!(r.sender_datagrams.len(), 4);
    assert_eq!(r.sender_datagrams[0], vec![0, 0, 0, 0, 0, 0, 0, 0, 0, 2, 0]);
    assert_eq!(r.sender_datagrams[1].len(), 259);
    assert_eq!(r.sender_datagrams[2].len(), 259);
    assert_eq!(r.sender_datagrams[3], vec![0, 3, 3]);
}

#[test]
fn dropped_payload_is_requested_again() {
    let file = b"hello, quad\n";
    let r = run(file, 256, &[1], &[]);
    assert_eq!(r.output, file.to_vec());
    let first_request = r.receiver_replies.iter().find(|d| d[2] != 1).cloned();
    assert_eq!(first_request, Some(control_packet(1, PacketKind::ResendRequest)));
}

#[test]
fn dropped_ack_leads_to_resend_without_redelivery() {
    let mut tx = SafeReadWrite::new();
    let mut rx = SafeReadWrite::new();
    let (d0, mut p0) = tx.begin_write(&length_header(12), PacketKind::Write, false, false, 0);
    let s0 = rx.read_datagram(&d0);
    tx.phase_datagram(&mut p0, &s0.reply.unwrap(), 0);
    let (d1, mut p1) = tx.begin_write(b"hello, quad\n", PacketKind::Write, true, false, 0);
    let s1 = rx.read_datagram(&d1);
    assert_eq!(s1.delivery, quad::safe_read_write::Delivery::Data(b"hello, quad\n".to_vec()));
    // the Ack(1) is lost; ten seconds of silence pass
    assert!(tx.phase_silence(&mut p1, 10000).resend.is_empty());
    let step = tx.phase_silence(&mut p1, 10001);
    assert_eq!(step.resend, vec![d1.clone()]);
    let again = rx.read_datagram(&step.resend[0]);
    assert_eq!(again.reply, Some(ack(1)));
    assert_eq!(again.delivery, quad::safe_read_write::Delivery::Nothing);
    assert!(tx.phase_datagram(&mut p1, &ack(1), 10002).done);
}

#[test]
fn dropped_ack_in_full_run() {
    let file = b"hello, quad\n";
    let r = run(file, 256, &[], &[1]);
    assert_eq!(r.output, file.to_vec());
}

#[test]
fn wrap_completes_once() {
    let file: Vec<u8> = (0..256 * 70000u32).map(|i| (i % 251) as u8).collect();
    let r = run(&file, 256, &[], &[]);
    assert_eq!(r.output.len(), file.len());
    assert!(r.output == file);
    assert_eq!(r.receiver_wraps, 1);
    assert_eq!(r.sender_wraps, 1);
}

#[test]
fn lossy_link_delivers_exact_copy() {
    let file: Vec<u8> = (0..5000u32).map(|i| (i * 7 % 256) as u8).collect();
    let r = run(&file, 100, &[3, 9, 10, 27, 40], &[2, 5, 11, 30]);
    assert_eq!(r.output, file);
}

#[test]
fn chunk_sizes_round_trip() {
    let file: Vec<u8> = (0..1000u32).map(|i| (i % 256) as u8).collect();
    for chunk in [1usize, 7, 999, 1000, 1001, 0xFFFC] {
        let r = run(&file, chunk, &[], &[]);
        assert_eq!(r.output, file);
        assert_eq!(r.length, Some(1000));
    }
}

#[test]
fn empty_file() {
    let r = run(&[], 256, &[], &[]);
    assert!(r.output.is_empty());
    assert_eq!(r.length, Some(0));
    assert_eq!(r.sender_datagrams.len(), 2);
}

#[test]
fn length_header_is_big_endian() {
    assert_eq!(length_header(0x0102030405060708), vec![1, 2, 3, 4, 5, 6, 7, 8]);
    assert_eq!(read_length_header(&[1, 2, 3, 4, 5, 6, 7, 8]), Some(0x0102030405060708));
    assert_eq!(read_length_header(&length_header(u64::MAX)), Some(u64::MAX));
    assert_eq!(read_length_header(&[1, 2, 3]), None);
}

#[test]
fn file_receiver_rejects_bad_length() {
    let mut f = FileReceiver::new();
    let a = f.on_delivery(quad::safe_read_write::Delivery::Data(vec![1, 2, 3]));
    assert_eq!(a, FileAction::BadLength);
    assert_eq!(f.stage, FileStage::Done);
    let mut g = FileReceiver::new();
    assert_eq!(g.on_delivery(quad::safe_read_write::Delivery::EndOfStream), FileAction::BadLength);
}

#[test]
fn file_receiver_stages() {
    let mut f = FileReceiver::new();
    assert_eq!(f.on_delivery(quad::safe_read_write::Delivery::Nothing), FileAction::Idle);
    assert_eq!(
        f.on_delivery(quad::safe_read_write::Delivery::Data(length_header(3))),
        FileAction::SetLength(3)
    );
    assert_eq!(f.length, 3);
    assert_eq!(
        f.on_delivery(quad::safe_read_write::Delivery::Data(vec![1, 2, 3])),
        FileAction::WriteData(vec![1, 2, 3])
    );
    assert_eq!(f.on_delivery(quad::safe_read_write::Delivery::Data(vec![])), FileAction::Finish);
    assert_eq!(f.on_delivery(quad::safe_read_write::Delivery::Data(vec![4])), FileAction::Idle);
}

#[test]
fn stream_mode_does_not_end() {
    assert!(ends_transfer(0, false));
    assert!(!ends_transfer(0, true));
    assert!(!ends_transfer(5, false));
}

#[test]
fn progress_every_twenty_chunks() {
    assert!(progress_due(0, 256));
    assert!(progress_due(255, 256));
    assert!(!progress_due(256, 256));
    assert!(progress_due(5120, 256));
    assert!(!progress_due(5119, 256));
}
