use rfid_thingy::light::{light_update, LightState, Rgb, LED_BRIGHTNESS};
use rfid_thingy::rfid::{place, piece, BLOCK_SIZE, BLOCK_USIZE, CARD_SIZE, SAFE_SECTOR_USIZE, SECTOR_SIZE};
use rfid_thingy::{activity_change, ActivityChange, ReaderEvent, ReaderOperation, State, Uid};

#[test]
fn state_starts_inactive_and_idle() {
    let s = State::new();
    assert!(!s.reader_active);
    assert!(matches!(s.reader_operation, ReaderOperation::Nothing));
    assert!(s.history.is_empty());
}

#[test]
fn activation_toggles_only_the_flag() {
    let mut s = State::new();
    s.set_operation(ReaderOperation::ReadBlock { block: 5, key: [0xFF; 6] });
    s.activate();
    assert!(s.reader_active);
    assert!(matches!(s.reader_operation, ReaderOperation::ReadBlock { block: 5, .. }));
    s.activate();
    assert!(s.reader_active);
    s.deactivate();
    assert!(!s.reader_active);
    assert!(matches!(s.reader_operation, ReaderOperation::ReadBlock { block: 5, .. }));
}

#[test]
fn set_operation_replaces_the_operation() {
    let mut s = State::new();
    s.activate();
    s.set_operation(ReaderOperation::ReadSector { sector: 2, key: [1; 6] });
    s.set_operation(ReaderOperation::WriteBlock { block: 1, key: [2; 6], data: [3; 16] });
    assert!(s.reader_active);
    assert!(matches!(
        s.reader_operation,
        ReaderOperation::WriteBlock { block: 1, key: [2, 2, 2, 2, 2, 2], .. }
    ));
}

#[test]
fn light_turns_dim_green_when_the_reader_activates() {
    let (state, color) = light_update(LightState::Uninit, true);
    assert_eq!(state, LightState::Active);
    // 0x80 * 11 / 256 = 5
    assert_eq!(color, Some(Rgb { r: 0, g: 5, b: 0 }));
}

#[test]
fn light_turns_dim_red_when_the_reader_deactivates() {
    let (state, color) = light_update(LightState::Active, false);
    assert_eq!(state, LightState::Inactive);
    // 0xFF * 11 / 256 = 10
    assert_eq!(color, Some(Rgb { r: 10, g: 0, b: 0 }));
    let (state, color) = light_update(LightState::Uninit, false);
    assert_eq!(state, LightState::Inactive);
    assert_eq!(color, Some(Rgb { r: 10, g: 0, b: 0 }));
}

#[test]
fn light_writes_only_on_change() {
    let (s1, c1) = light_update(LightState::Uninit, true);
    assert!(c1.is_some());
    let (s2, c2) = light_update(s1, true);
    assert_eq!(s2, LightState::Active);
    assert_eq!(c2, None);
    let (s3, c3) = light_update(s2, false);
    assert!(c3.is_some());
    let (_, c4) = light_update(s3, false);
    assert_eq!(c4, None);
    assert_eq!(LED_BRIGHTNESS, 10);
}

#[test]
fn uid_keeps_its_bytes() {
    let u = Uid::from_bytes(vec![1, 2, 3, 4, 5, 6, 7]);
    assert_eq!(u.as_bytes(), &[1, 2, 3, 4, 5, 6, 7]);
    let e = ReaderEvent::Found { uid: u.clone() };
    assert!(matches!(e, ReaderEvent::Found { uid } if uid.as_bytes().len() == 7));
}

#[test]
fn panic_logs_the_description() {
    assert_eq!(rfid_thingy::panic("panicked at src/main.rs:3:5:\nboom"), "panicked at src/main.rs:3:5:\nboom");
}

#[test]
fn place_and_piece_move_bytes_at_an_offset() {
    let mut dst = [0u8; 8];
    place(&mut dst, 3, &[9u8, 8, 7]);
    assert_eq!(dst, [0, 0, 0, 9, 8, 7, 0, 0]);
    let p: [u8; 2] = piece(&dst, 4);
    assert_eq!(p, [8, 7]);
}

#[test]
fn card_geometry() {
    assert_eq!(BLOCK_SIZE, 16);
    assert_eq!(SECTOR_SIZE, 4);
    assert_eq!(CARD_SIZE, 16);
    assert_eq!(BLOCK_USIZE * SAFE_SECTOR_USIZE, 48);
}

#[test]
fn activity_changes_are_logged_only_on_edges() {
    assert_eq!(activity_change(false, true), Some(ActivityChange::Activated));
    assert_eq!(activity_change(true, false), Some(ActivityChange::Deactivated));
    assert_eq!(activity_change(true, true), None);
    assert_eq!(activity_change(false, false), None);
}
