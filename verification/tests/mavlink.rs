use fly_sim_core::mavlink::{
    loopback_telemetry, Decoded, MavlinkBridge, MavlinkStreamParser, Message, MAVLINK_MAGIC,
};

fn frame(payload: &[u8]) -> Vec<u8> {
    let mut f = vec![MAVLINK_MAGIC, payload.len() as u8];
    f.extend_from_slice(&[0, 0, 1, 1, 1, 30, 0, 0]);
    f.extend_from_slice(payload);
    f.extend_from_slice(&[0xAA, 0xBB]);
    f
}

#[test]
fn a_beat_numbers_its_frames_and_wraps() {
    let mut b = MavlinkBridge::new(1, 2);
    b.seq = 253;
    let plan = b.telemetry_plan();
    let numbers: Vec<u8> = plan.iter().map(|p| p.1).collect();
    assert_eq!(numbers, vec![253, 254, 255, 0, 1, 2]);
    assert_eq!(plan[0].0, Message::Heartbeat);
    assert_eq!(plan[1].0, Message::Attitude);
    assert_eq!(plan[2].0, Message::LocalPosition);
    assert_eq!(plan[3].0, Message::SysStatus);
    assert_eq!(plan[4].0, Message::VfrHud);
    assert_eq!(plan[5].0, Message::GlobalPosition);
    let frames: [Vec<u8>; 6] = [
        frame(&[1]),
        frame(&[2, 2]),
        frame(&[]),
        frame(&[4]),
        frame(&[5]),
        frame(&[6]),
    ];
    let stream = b.emit_telemetry(&frames);
    assert_eq!(stream, frames.concat());
    assert_eq!(b.seq(), 3);
    assert_eq!((b.sys_id, b.comp_id), (1, 2));
}

#[test]
fn a_stream_of_frames_is_cut_back_into_them() {
    let frames = vec![frame(&[1, 2, 3]), frame(&[]), frame(&[0xFD; 255])];
    let stream = frames.concat();
    let mut p = MavlinkStreamParser::new();
    assert_eq!(p.feed(&stream), frames);
    assert_eq!(p.feed(&stream), frames);
}

#[test]
fn pieces_of_any_size_give_the_same_frames() {
    let frames = vec![frame(&[7; 20]), frame(&[1]), frame(&[9, 9])];
    let stream = frames.concat();
    for size in [1usize, 2, 3, 7, 11, 64] {
        let mut p = MavlinkStreamParser::new();
        let mut got: Vec<Vec<u8>> = Vec::new();
        for piece in stream.chunks(size) {
            got.extend(p.feed(piece));
        }
        assert_eq!(got, frames);
    }
}

#[test]
fn noise_before_a_frame_is_passed_over() {
    let mut stream = vec![0u8, 1, 2, 0xFC, 0xFE];
    stream.extend(frame(&[5, 6]));
    let mut p = MavlinkStreamParser::new();
    assert_eq!(p.feed(&stream), vec![frame(&[5, 6])]);
}

#[test]
fn an_unfinished_frame_waits_for_its_rest() {
    let whole = frame(&[1, 2, 3, 4]);
    let mut p = MavlinkStreamParser::new();
    assert!(p.feed(&whole[..15]).is_empty());
    assert_eq!(p.feed(&whole[15..]), vec![whole]);
}

#[test]
fn a_loopback_keeps_what_was_accepted() {
    let replies = vec![
        Some(Decoded { id: 0, payload: vec![1] }),
        None,
        Some(Decoded { id: 30, payload: vec![] }),
    ];
    assert_eq!(
        loopback_telemetry(replies),
        vec![(0u32, vec![1u8]), (30u32, Vec::<u8>::new())]
    );
}
