use auto_claw::wire::{
    encode_frames, encode_player_frame, read_frames, read_u16_le, write_u16_le, PlayerFrame,
    PlayerState,
};

fn frame(id: u8, x: f32, y: f32, vx: f32, vy: f32) -> PlayerFrame {
    PlayerFrame {
        remote_id: id,
        state: PlayerState::Idle,
        x: x.to_bits(),
        y: y.to_bits(),
        vx: vx.to_bits(),
        vy: vy.to_bits(),
    }
}

#[test]
fn u16_little_endian() {
    assert_eq!(write_u16_le(0x0102), [2, 1]);
    assert_eq!(read_u16_le(&[0x34, 0x12, 0xff]), 0x1234);
}

#[test]
fn one_frame_layout() {
    let f = PlayerFrame { remote_id: 9, state: PlayerState::Idle, x: 1, y: 0x01020304, vx: 0, vy: u32::MAX };
    assert_eq!(
        encode_player_frame(7, &f),
        vec![7, 1, 0, 0, 0, 1, 0, 0, 0, 4, 3, 2, 1, 0, 0, 0, 0, 255, 255, 255, 255]
    );
}

#[test]
fn frames_read_back_with_sender_id() {
    let fs = vec![frame(0, 8.0, 8.5, 0.1, -0.1), frame(0, -1.0, 2.0, 0.0, 0.0)];
    let bytes = encode_frames(3, &fs);
    assert_eq!(bytes.len(), 42);
    let back = read_frames(&bytes).unwrap();
    assert_eq!(back.len(), 2);
    assert_eq!(back[0], frame(3, 8.0, 8.5, 0.1, -0.1));
    assert_eq!(f32::from_bits(back[1].x), -1.0);
    assert_eq!(back[1].remote_id, 3);
}

#[test]
fn reading_stops_at_untagged_bytes() {
    let mut bytes = encode_frames(1, &vec![frame(0, 1.0, 2.0, 3.0, 4.0)]);
    bytes.extend_from_slice(&[5, 2, 0, 0]);
    assert_eq!(read_frames(&bytes).unwrap(), vec![frame(1, 1.0, 2.0, 3.0, 4.0)]);
    assert_eq!(read_frames(&vec![]), Some(vec![]));
    assert_eq!(read_frames(&vec![1, 1]), Some(vec![]));
}

#[test]
fn cut_short_or_unknown_state_is_refused() {
    let bytes = encode_frames(1, &vec![frame(0, 1.0, 2.0, 3.0, 4.0)]);
    assert_eq!(read_frames(&bytes[..20].to_vec()), None);
    let mut odd = bytes.clone();
    odd[3] = 1;
    assert_eq!(read_frames(&odd), None);
}

#[test]
fn one_frame_then_other_bytes() {
    let f = frame(0, 1.5, -2.0, 0.25, 0.0);
    let g = frame(0, 3.0, 4.0, 0.0, 1.0);
    let mut bytes = encode_player_frame(6, &f);
    let rest = encode_player_frame(2, &g);
    bytes.extend_from_slice(&rest);
    assert_eq!(read_frames(&bytes).unwrap(), vec![frame(6, 1.5, -2.0, 0.25, 0.0), frame(2, 3.0, 4.0, 0.0, 1.0)]);
    let mut broken = encode_player_frame(6, &f);
    broken.extend_from_slice(&[1, 1, 0]);
    assert_eq!(read_frames(&broken), None);
    let mut untagged = encode_player_frame(6, &f);
    untagged.extend_from_slice(&[9, 9, 9]);
    assert_eq!(read_frames(&untagged).unwrap(), vec![frame(6, 1.5, -2.0, 0.25, 0.0)]);
}
