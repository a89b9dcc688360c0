use data_panel::dcs_bios::{check_for_start_of_frame, get_figure_index, ReceiveState};
use data_panel::receiver::{DcsBiosReceiver, ReceiveFault};

fn nav_frame() -> Vec<u8> {
    let mut bytes = vec![0x55, 0x55, 0x55, 0x55, 0xA8, 0x46, 0x0C, 0x00];
    for c in b"123456" {
        bytes.push(*c);
        bytes.push(0);
    }
    bytes
}

#[test]
fn figure_index_maps_ascii_digits() {
    for (i, c) in (b'0'..=b'9').enumerate() {
        assert_eq!(get_figure_index(&c), i as u8);
    }
    assert_eq!(get_figure_index(&b'A'), 10);
    assert_eq!(get_figure_index(&0x2F), 10);
    assert_eq!(get_figure_index(&0x3A), 10);
    assert_eq!(get_figure_index(&b' '), 10);
}

#[test]
fn start_of_frame_needs_four_sync_bytes() {
    let mut buffer = [0u8; 16];
    buffer[3] = 0x55;
    buffer[4] = 0x55;
    buffer[5] = 0x55;
    buffer[6] = 0x55;
    assert!(check_for_start_of_frame(&buffer, 3, 10));
    assert!(!check_for_start_of_frame(&buffer, 2, 10));
    assert!(!check_for_start_of_frame(&buffer, 4, 10));
    // The test only asks that the read offset lies below the write offset plus four.
    assert!(check_for_start_of_frame(&buffer, 3, 0));
    let mut late = [0u8; 16];
    late[8] = 0x55;
    late[9] = 0x55;
    late[10] = 0x55;
    late[11] = 0x55;
    assert!(!check_for_start_of_frame(&late, 8, 4));
    assert!(check_for_start_of_frame(&late, 8, 5));
}

#[test]
fn receiver_starts_empty() {
    let receiver = DcsBiosReceiver::new();
    assert_eq!(receiver.state(), ReceiveState::WaitingForSync);
    assert_eq!(receiver.read_offset(), 0);
    assert_eq!(receiver.write_offset(), 0);
    assert_eq!(receiver.free_space(), 256);
    assert_eq!(receiver.digits(), vec![0, 0, 0, 0, 0, 0]);
}

#[test]
fn navigation_frame_sets_panel_digits() {
    let mut receiver = DcsBiosReceiver::new();
    let mut bytes = nav_frame();
    bytes.push(0x00);
    receiver.accept(&bytes);
    assert_eq!(receiver.write_offset(), 21);
    assert_eq!(receiver.poll(), Ok(true));
    assert_eq!(receiver.digits(), vec![1, 2, 3, 4, 5, 6]);
    assert_eq!(receiver.state(), ReceiveState::ReceivingAddress);
    assert_eq!(receiver.read_offset(), 0);
    assert_eq!(receiver.write_offset(), 1);
}

#[test]
fn write_waits_for_a_byte_beyond_its_data() {
    let mut receiver = DcsBiosReceiver::new();
    receiver.accept(&nav_frame());
    assert_eq!(receiver.poll(), Ok(false));
    assert_eq!(receiver.state(), ReceiveState::ReceivingData((0x46A8, 12)));
    assert_eq!(receiver.digits(), vec![0, 0, 0, 0, 0, 0]);
    assert_eq!(receiver.write_offset(), 12);
    receiver.accept(&[0x00]);
    assert_eq!(receiver.poll(), Ok(true));
    assert_eq!(receiver.digits(), vec![1, 2, 3, 4, 5, 6]);
}

#[test]
fn frame_split_over_packets() {
    let mut receiver = DcsBiosReceiver::new();
    let mut bytes = nav_frame();
    bytes.push(0x00);
    receiver.accept(&bytes[..7]);
    assert_eq!(receiver.poll(), Ok(false));
    assert_eq!(receiver.state(), ReceiveState::ReceivingLength(0x46A8));
    assert_eq!(receiver.write_offset(), 1);
    receiver.accept(&bytes[7..]);
    assert_eq!(receiver.poll(), Ok(true));
    assert_eq!(receiver.digits(), vec![1, 2, 3, 4, 5, 6]);
}

#[test]
fn later_indicator_address_fills_later_digits() {
    let mut receiver = DcsBiosReceiver::new();
    let bytes = [
        0x55, 0x55, 0x55, 0x55, 0xAE, 0x46, 0x04, 0x00, b'7', 0, b'x', 0, 0x00,
    ];
    receiver.accept(&bytes);
    assert_eq!(receiver.poll(), Ok(true));
    assert_eq!(receiver.digits(), vec![0, 0, 0, 7, 10, 0]);
}

#[test]
fn write_past_last_digit_is_dropped() {
    let mut receiver = DcsBiosReceiver::new();
    let mut bytes = vec![0x55, 0x55, 0x55, 0x55, 0xB2, 0x46, 0x06, 0x00];
    bytes.extend_from_slice(&[b'9', 0, b'8', 0, b'7', 0, 0x00]);
    receiver.accept(&bytes);
    assert_eq!(receiver.poll(), Ok(true));
    assert_eq!(receiver.digits(), vec![0, 0, 0, 0, 0, 9]);
}

#[test]
fn other_address_does_not_signal() {
    let mut receiver = DcsBiosReceiver::new();
    let bytes = [
        0x55, 0x55, 0x55, 0x55, 0x00, 0x46, 0x02, 0x00, b'1', 0, 0x00,
    ];
    receiver.accept(&bytes);
    assert_eq!(receiver.poll(), Ok(false));
    assert_eq!(receiver.digits(), vec![0, 0, 0, 0, 0, 0]);
    assert_eq!(receiver.state(), ReceiveState::ReceivingAddress);
}

#[test]
fn bytes_before_sync_are_skipped() {
    let mut receiver = DcsBiosReceiver::new();
    let mut bytes = vec![1, 2, 3];
    bytes.extend_from_slice(&nav_frame());
    bytes.push(0x00);
    receiver.accept(&bytes);
    assert_eq!(receiver.poll(), Ok(true));
    assert_eq!(receiver.digits(), vec![1, 2, 3, 4, 5, 6]);
}

#[test]
fn no_sync_keeps_waiting() {
    let mut receiver = DcsBiosReceiver::new();
    receiver.accept(&[1, 2, 3, 4, 5, 6, 7, 8]);
    assert_eq!(receiver.poll(), Ok(false));
    assert_eq!(receiver.state(), ReceiveState::WaitingForSync);
    assert_eq!(receiver.read_offset(), 0);
    assert_eq!(receiver.write_offset(), 4);
}

#[test]
fn sync_check_running_off_the_buffer_faults() {
    let mut receiver = DcsBiosReceiver::new();
    let mut bytes = vec![0x55, 0x55, 0x55, 0x55, 0x00, 0x46, 0xF6, 0x00];
    bytes.resize(256, 0x55);
    receiver.accept(&bytes);
    assert_eq!(receiver.free_space(), 0);
    assert_eq!(receiver.poll(), Err(ReceiveFault));
}

#[test]
fn reset_forgets_bytes_and_keeps_digits() {
    let mut receiver = DcsBiosReceiver::new();
    let mut bytes = nav_frame();
    bytes.push(0x00);
    receiver.accept(&bytes);
    assert_eq!(receiver.poll(), Ok(true));
    receiver.accept(&[0x55, 0x55]);
    receiver.reset();
    assert_eq!(receiver.state(), ReceiveState::WaitingForSync);
    assert_eq!(receiver.read_offset(), 0);
    assert_eq!(receiver.write_offset(), 0);
    assert_eq!(receiver.digits(), vec![1, 2, 3, 4, 5, 6]);
    assert_eq!(receiver.poll(), Ok(false));
}

#[test]
fn arbitrary_bytes_keep_digits_glyph_indices() {
    let mut receiver = DcsBiosReceiver::new();
    let mut seed: u32 = 12345;
    for round in 0..200 {
        let room = receiver.free_space();
        let mut packet = Vec::new();
        for _ in 0..room.min(64) {
            seed = seed.wrapping_mul(1103515245).wrapping_add(12345);
            let byte = match (seed >> 16) % 8 {
                0 => 0x55,
                1 => 0x46,
                2 => 0xA8,
                3 => b'0' + ((seed >> 8) % 10) as u8,
                _ => (seed >> 8) as u8,
            };
            packet.push(byte);
        }
        receiver.accept(&packet);
        match receiver.poll() {
            Ok(_) => {
                assert_eq!(receiver.read_offset(), 0);
                assert!(receiver.digits().iter().all(|d| *d <= 10));
            }
            Err(ReceiveFault) => receiver.reset(),
        }
        if round % 50 == 49 {
            receiver.reset();
        }
    }
}

#[test]
fn fault_leaves_receiver_unchanged() {
    let mut receiver = DcsBiosReceiver::new();
    let mut bytes = nav_frame();
    bytes.extend_from_slice(&[0x00, 0x46, 230, 0x00]);
    bytes.resize(256, 0x55);
    receiver.accept(&bytes);
    assert_eq!(receiver.poll(), Err(ReceiveFault));
    assert_eq!(receiver.digits(), vec![0, 0, 0, 0, 0, 0]);
    assert_eq!(receiver.state(), ReceiveState::WaitingForSync);
    assert_eq!(receiver.read_offset(), 0);
    assert_eq!(receiver.write_offset(), 256);
}

#[test]
fn after_reset_only_new_bytes_count() {
    let mut with_history = DcsBiosReceiver::new();
    let mut stale = vec![0x55, 0x55, 0x55, 0x55, 0xA8, 0x46, 0x40, 0x00];
    stale.resize(60, b'9');
    with_history.accept(&stale);
    assert_eq!(with_history.poll(), Ok(false));
    with_history.reset();
    let mut fresh = DcsBiosReceiver::new();
    let mut bytes = nav_frame();
    bytes.push(0x00);
    with_history.accept(&bytes);
    fresh.accept(&bytes);
    assert_eq!(with_history.poll(), fresh.poll());
    assert_eq!(with_history.digits(), fresh.digits());
    assert_eq!(with_history.digits(), vec![1, 2, 3, 4, 5, 6]);
    assert_eq!(with_history.state(), fresh.state());
    assert_eq!(with_history.write_offset(), fresh.write_offset());
}
