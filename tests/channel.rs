use quad::packet::{control_packet, encode_packet, PacketKind};
use quad::safe_read_write::{Delivery, Inbound, SafeReadWrite};

fn ack(seq: u16) -> Vec<u8> {
    control_packet(seq, PacketKind::Ack)
}

fn resend_request(seq: u16) -> Vec<u8> {
    control_packet(seq, PacketKind::ResendRequest)
}

#[test]
fn in_order_write_is_acked_and_delivered() {
    let mut rx = SafeReadWrite::new();
    let step = rx.read_datagram(&encode_packet(0, PacketKind::Write, b"abc"));
    assert_eq!(step.reply, Some(ack(0)));
    assert_eq!(step.delivery, Delivery::Data(b"abc".to_vec()));
    assert!(!step.wrapped);
}

#[test]
fn short_datagram_is_ignored() {
    let mut rx = SafeReadWrite::new();
    let step = rx.read_datagram(&[0, 0]);
    assert_eq!(step.reply, None);
    assert_eq!(step.delivery, Delivery::Nothing);
}

#[test]
fn end_in_order_ends_the_stream() {
    let mut rx = SafeReadWrite::new();
    let step = rx.read_datagram(&encode_packet(0, PacketKind::End, &[]));
    assert_eq!(step.reply, Some(ack(0)));
    assert_eq!(step.delivery, Delivery::EndOfStream);
}

#[test]
fn end_out_of_order_does_not_end_the_stream() {
    let mut rx = SafeReadWrite::new();
    let step = rx.read_datagram(&encode_packet(3, PacketKind::End, &[]));
    assert_eq!(step.reply, Some(resend_request(0)));
    assert_eq!(step.delivery, Delivery::Nothing);
}

#[test]
fn duplicates_are_reacked_never_redelivered() {
    let mut rx = SafeReadWrite::new();
    let first = encode_packet(0, PacketKind::Write, b"x");
    assert_eq!(rx.read_datagram(&first).delivery, Delivery::Data(b"x".to_vec()));
    for _ in 0..5 {
        let again = rx.read_datagram(&first);
        assert_eq!(again.reply, Some(ack(0)));
        assert_eq!(again.delivery, Delivery::Nothing);
    }
    let next = rx.read_datagram(&encode_packet(1, PacketKind::Write, b"y"));
    assert_eq!(next.delivery, Delivery::Data(b"y".to_vec()));
}

#[test]
fn one_resend_request_per_gap() {
    let mut rx = SafeReadWrite::new();
    let mut requests = 0;
    for seq in 1..6u16 {
        let step = rx.read_datagram(&encode_packet(seq, PacketKind::Write, b"z"));
        if step.reply == Some(resend_request(0)) {
            requests += 1;
        }
        assert_eq!(step.delivery, Delivery::Nothing);
    }
    assert_eq!(requests, 1);
    // the gap closes; a new gap asks again
    let step = rx.read_datagram(&encode_packet(0, PacketKind::Write, b"a"));
    assert_eq!(step.delivery, Delivery::Data(b"a".to_vec()));
    let step = rx.read_datagram(&encode_packet(3, PacketKind::Write, b"c"));
    assert_eq!(step.reply, Some(resend_request(1)));
}

#[test]
fn reordered_datagrams_are_delivered_in_order() {
    let payloads: Vec<Vec<u8>> = (0..6u8).map(|i| vec![i; 3]).collect();
    let order = [2usize, 0, 3, 1, 1, 2, 5, 3, 4, 5, 4];
    let mut rx = SafeReadWrite::new();
    let mut out: Vec<Vec<u8>> = Vec::new();
    // a datagram that is not delivered on arrival is resent by the sender
    let mut pending: Vec<usize> = Vec::new();
    for &i in order.iter() {
        pending.push(i);
        let mut progress = true;
        while progress {
            progress = false;
            let mut k = 0;
            while k < pending.len() {
                let d = encode_packet(pending[k] as u16, PacketKind::Write, &payloads[pending[k]]);
                if let Delivery::Data(p) = rx.read_datagram(&d).delivery {
                    out.push(p);
                    pending.remove(k);
                    progress = true;
                } else {
                    k += 1;
                }
            }
        }
    }
    assert_eq!(out, payloads);
}

#[test]
fn old_datagrams_across_wrap_are_acked() {
    let mut rx = SafeReadWrite::new();
    // expected is 0: 0xFFFF lies behind it
    let step = rx.read_datagram(&encode_packet(0xFFFF, PacketKind::Write, b"old"));
    assert_eq!(step.reply, Some(ack(0xFFFF)));
    assert_eq!(step.delivery, Delivery::Nothing);
}

#[test]
fn begin_write_files_the_datagram() {
    let mut tx = SafeReadWrite::new();
    let (d, phase) = tx.begin_write(b"hi", PacketKind::Write, false, false, 1000);
    assert_eq!(d, vec![0, 0, 0, b'h', b'i']);
    assert_eq!(phase.seq, 0);
    assert!(!phase.wait);
    assert_eq!(phase.poll_millis, 1);
    assert_eq!(phase.silence_since, 1000);
    let (d2, phase2) = tx.begin_write(b"", PacketKind::End, true, true, 1000);
    assert_eq!(d2, vec![0, 1, 3]);
    assert!(phase2.wait);
    assert!(phase2.exit_on_lost);
}

#[test]
fn non_blocking_phase_ends_on_silence() {
    let mut tx = SafeReadWrite::new();
    let (_, mut phase) = tx.begin_write(b"a", PacketKind::Write, false, false, 0);
    let step = tx.phase_silence(&mut phase, 1);
    assert!(step.done);
    assert!(step.resend.is_empty());
}

#[test]
fn ack_of_latest_ends_phase_and_clears() {
    let mut tx = SafeReadWrite::new();
    let (_, mut p0) = tx.begin_write(b"a", PacketKind::Write, false, false, 0);
    tx.phase_silence(&mut p0, 0);
    let (_, mut p1) = tx.begin_write(b"b", PacketKind::Write, true, false, 0);
    let step = tx.phase_datagram(&mut p1, &ack(0), 5);
    assert!(!step.done);
    assert_eq!(p1.silence_since, 5);
    let step = tx.phase_datagram(&mut p1, &ack(1), 6);
    assert!(step.done);
    // nothing is left to resend
    let (_, mut p2) = tx.begin_write(b"c", PacketKind::Write, true, false, 0);
    let step = tx.phase_datagram(&mut p2, &resend_request(0), 1);
    assert!(step.resend.is_empty());
}

#[test]
fn resend_request_resends_stored_run() {
    let mut tx = SafeReadWrite::new();
    let mut sent = Vec::new();
    let mut phase = None;
    for b in [b'a', b'b', b'c', b'd'] {
        let (d, p) = tx.begin_write(&[b], PacketKind::Write, false, false, 0);
        sent.push(d);
        phase = Some(p);
    }
    let mut phase = phase.unwrap();
    let step = tx.phase_datagram(&mut phase, &resend_request(1), 0);
    assert_eq!(step.resend, sent[1..].to_vec());
    assert!(step.drop_noticed);
    assert!(phase.wait);
    let again = tx.phase_datagram(&mut phase, &resend_request(2), 0);
    assert_eq!(again.resend, sent[2..].to_vec());
    assert!(!again.drop_noticed);
    // after 2 is acknowledged the run from 1 stops at the hole
    tx.phase_datagram(&mut phase, &ack(2), 0);
    let cut = tx.phase_datagram(&mut phase, &resend_request(1), 0);
    assert_eq!(cut.resend, vec![sent[1].clone()]);
}

#[test]
fn silence_of_ten_seconds_resends_latest() {
    let mut tx = SafeReadWrite::new();
    let (d, mut phase) = tx.begin_write(b"q", PacketKind::Write, true, false, 1000);
    let step = tx.phase_silence(&mut phase, 11000);
    assert!(step.resend.is_empty());
    assert!(!step.done);
    let step = tx.phase_silence(&mut phase, 11001);
    assert_eq!(step.resend, vec![d]);
    assert!(!step.done);
    assert_eq!(phase.silence_since, 11001);
}

#[test]
fn closing_gives_up_after_five_seconds() {
    let mut tx = SafeReadWrite::new();
    let (_, mut phase) = tx.begin_write(&[], PacketKind::End, true, true, 0);
    assert!(!tx.phase_silence(&mut phase, 5000).done);
    assert!(tx.phase_silence(&mut phase, 5001).done);
}

#[test]
fn back_pressure_forces_waiting() {
    let mut tx = SafeReadWrite::new();
    let mut last = None;
    for i in 0..256u32 {
        let (_, p) = tx.begin_write(&[i as u8], PacketKind::Write, false, false, 0);
        last = Some(p);
    }
    let p = last.unwrap();
    assert!(p.wait);
    assert_eq!(p.poll_millis, 1000);
}

#[test]
fn inbound_starts_at_zero() {
    let i = Inbound { expected: 0, catching_up: false };
    assert_eq!(i.expected, 0);
    assert!(!i.catching_up);
}

#[test]
fn wrap_phase_waits_and_clears_everything() {
    let mut tx = SafeReadWrite::new();
    let mut last = None;
    for i in 0..0x10000u32 {
        let (_, p) = tx.begin_write(&[i as u8], PacketKind::Write, false, false, 0);
        last = Some(p);
    }
    let mut phase = last.unwrap();
    assert_eq!(phase.seq, 0xFFFF);
    assert!(phase.wait);
    // silence does not end the wrap phase while the datagram is unacknowledged
    assert!(!tx.phase_silence(&mut phase, 1).done);
    let step = tx.phase_datagram(&mut phase, &ack(0xFFFF), 2);
    assert!(step.done);
    assert!(step.wrapped);
    // nothing from before the wrap is kept
    let (_, mut next) = tx.begin_write(b"n", PacketKind::Write, true, false, 3);
    assert_eq!(next.seq, 0);
    let again = tx.phase_datagram(&mut next, &resend_request(1), 4);
    assert!(again.resend.is_empty());
}
