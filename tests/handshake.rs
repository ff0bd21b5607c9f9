use quad::clock::{clock_millis, unix_millis};
use quad::holepunch::{burst_pause, burst_start_delay, punch_step, PunchStage};

#[test]
fn burst_starts_on_half_second() {
    assert_eq!(burst_start_delay(1000), 500);
    assert_eq!(burst_start_delay(1001), 499);
    assert_eq!(burst_start_delay(1499), 1);
}

#[test]
fn burst_pause_fills_interval() {
    assert_eq!(burst_pause(100, 100), 50);
    assert_eq!(burst_pause(100, 130), 20);
    assert_eq!(burst_pause(100, 150), 0);
    assert_eq!(burst_pause(100, 400), 0);
    assert_eq!(burst_pause(100, 90), 0);
}

#[test]
fn handshake_stages() {
    let s = punch_step(PunchStage::Draining, Some(1));
    assert_eq!(s.next, PunchStage::Draining);
    assert!(!s.send_signals);
    let s = punch_step(PunchStage::Draining, None);
    assert_eq!(s.next, PunchStage::AwaitConfirm);
    assert!(s.send_signals);
    let s = punch_step(PunchStage::AwaitConfirm, Some(1));
    assert_eq!(s.next, PunchStage::AwaitConfirm);
    let s = punch_step(PunchStage::AwaitConfirm, Some(2));
    assert_eq!(s.next, PunchStage::Settling);
    let s = punch_step(PunchStage::Settling, Some(2));
    assert_eq!(s.next, PunchStage::Settling);
    let s = punch_step(PunchStage::Settling, None);
    assert_eq!(s.next, PunchStage::Connected);
}

#[test]
fn clock_readings() {
    assert_eq!(clock_millis(1234), 1234);
    assert_eq!(clock_millis(u64::MAX as u128), u64::MAX);
    assert_eq!(clock_millis(u64::MAX as u128 + 6), 5);
    assert!(unix_millis().unwrap() > 1_600_000_000_000);
}
