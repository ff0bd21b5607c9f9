use quad::endpoint::{
    format_socket_info, pad_slot, parse_endpoint, parse_partner, render_endpoint,
    strip_trailing_zeros, Endpoint, SLOT_LEN,
};
use quad::rendezvous::{HelperStep, PairingTable};

fn ep(a: u8, b: u8, c: u8, d: u8, port: u16) -> Endpoint {
    Endpoint { a, b, c, d, port }
}

#[test]
fn helper_pairs_two_peers() {
    let id = pad_slot(b"abc");
    assert_eq!(id.len(), 200);
    let mut table = PairingTable::new();
    let alice = ep(203, 0, 113, 5, 40000);
    let bob = ep(198, 51, 100, 7, 51234);
    assert_eq!(table.receive(&id, alice), HelperStep::Stored);
    assert_eq!(table.len(), 1);
    match table.receive(&id, bob) {
        HelperStep::Introduce { first, second, to_first, to_second } => {
            assert_eq!(first, alice);
            assert_eq!(second, bob);
            assert_eq!(to_first.len(), SLOT_LEN);
            assert_eq!(&to_first[..18], b"198.51.100.7:51234");
            assert!(to_first[18..].iter().all(|b| *b == 0));
            assert_eq!(parse_partner(&to_first), Some(bob));
            assert_eq!(parse_partner(&to_second), Some(alice));
        }
        other => panic!("unexpected {:?}", other),
    }
    table.introduced(&id);
    assert_eq!(table.len(), 0);
}

#[test]
fn third_client_is_stored_anew() {
    let id = pad_slot(b"same");
    let mut table = PairingTable::new();
    let (a, b, c, d) = (ep(1, 1, 1, 1, 1), ep(2, 2, 2, 2, 2), ep(3, 3, 3, 3, 3), ep(4, 4, 4, 4, 4));
    table.receive(&id, a);
    assert!(matches!(table.receive(&id, b), HelperStep::Introduce { .. }));
    table.introduced(&id);
    assert_eq!(table.receive(&id, c), HelperStep::Stored);
    match table.receive(&id, d) {
        HelperStep::Introduce { first, second, .. } => {
            assert_eq!(first, c);
            assert_eq!(second, d);
        }
        other => panic!("unexpected {:?}", other),
    }
}

#[test]
fn entry_stays_until_replies_are_out() {
    let id = pad_slot(b"retry");
    let mut table = PairingTable::new();
    let (a, b, c) = (ep(1, 1, 1, 1, 1), ep(2, 2, 2, 2, 2), ep(3, 3, 3, 3, 3));
    table.receive(&id, a);
    assert!(matches!(table.receive(&id, b), HelperStep::Introduce { .. }));
    // the sends failed: the entry is still there for the next arrival
    match table.receive(&id, c) {
        HelperStep::Introduce { first, .. } => assert_eq!(first, a),
        other => panic!("unexpected {:?}", other),
    }
}

#[test]
fn wrong_size_datagram_is_ignored() {
    let mut table = PairingTable::new();
    assert_eq!(table.receive(b"abc", ep(1, 2, 3, 4, 5)), HelperStep::Ignored);
    assert_eq!(table.len(), 0);
}

#[test]
fn different_identifiers_do_not_pair() {
    let mut table = PairingTable::new();
    assert_eq!(table.receive(&pad_slot(b"one"), ep(1, 1, 1, 1, 1)), HelperStep::Stored);
    assert_eq!(table.receive(&pad_slot(b"two"), ep(2, 2, 2, 2, 2)), HelperStep::Stored);
    assert_eq!(table.len(), 2);
}

#[test]
fn long_identifier_is_cut() {
    let long = vec![b'x'; 250];
    let slot = pad_slot(&long);
    assert_eq!(slot, vec![b'x'; 200]);
}

#[test]
fn endpoint_text() {
    assert_eq!(render_endpoint(&ep(0, 10, 255, 9, 0)), b"0.10.255.9:0".to_vec());
    assert_eq!(render_endpoint(&ep(127, 0, 0, 1, 65535)), b"127.0.0.1:65535".to_vec());
}

#[test]
fn endpoint_parsing() {
    assert_eq!(parse_endpoint(b"127.0.0.1:8080"), Some(ep(127, 0, 0, 1, 8080)));
    assert_eq!(parse_endpoint(b"255.255.255.255:65535"), Some(ep(255, 255, 255, 255, 65535)));
    assert_eq!(parse_endpoint(b"256.0.0.1:80"), None);
    assert_eq!(parse_endpoint(b"1.2.3.4:65536"), None);
    assert_eq!(parse_endpoint(b"01.2.3.4:80"), None);
    assert_eq!(parse_endpoint(b"1.2.3:80"), None);
    assert_eq!(parse_endpoint(b"1.2.3.4"), None);
    assert_eq!(parse_endpoint(b"1.2.3.4:80 "), None);
    assert_eq!(parse_endpoint(b""), None);
    assert_eq!(parse_endpoint(b"a.b.c.d:e"), None);
}

#[test]
fn reply_with_garbage_is_rejected() {
    let mut reply = pad_slot(b"[::1]:80");
    assert_eq!(parse_partner(&reply), None);
    reply = pad_slot(b"10.0.0.1:99");
    assert_eq!(parse_partner(&reply), Some(ep(10, 0, 0, 1, 99)));
}

#[test]
fn socket_info_slot() {
    let slot = format_socket_info(&ep(8, 8, 4, 4, 53));
    assert_eq!(slot.len(), 200);
    assert_eq!(strip_trailing_zeros(&slot), b"8.8.4.4:53".to_vec());
}

#[test]
fn stripping_keeps_inner_zeros() {
    assert_eq!(strip_trailing_zeros(&[1, 0, 2, 0, 0]), vec![1, 0, 2]);
    assert_eq!(strip_trailing_zeros(&[0, 0]), Vec::<u8>::new());
}
