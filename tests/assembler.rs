use uavcan_llr::assembler::Assembler;
use uavcan_llr::slicer::{OwnedSlice, Slicer};
use uavcan_llr::types::{CanId, Message, NodeId, Priority, SubjectId, TransferId, TransferKind};

type Reasm = Assembler<8, 7, 128, 8, 10>;

fn message_id(source: u8, subject: u16, priority: Priority) -> CanId {
    CanId::new_message_kind(NodeId::new(source).unwrap(), SubjectId::new(subject).unwrap(), false, priority)
}

fn frames_of(payload: &[u8], id: u8) -> Vec<OwnedSlice<8>> {
    let mut slicer = Slicer::<8, 7>::new(payload, TransferId::new(id).unwrap()).frames_owned();
    let mut frames = Vec::new();
    while let Some(f) = slicer.next() {
        frames.push(f);
    }
    frames
}

fn frame(bytes: &[u8]) -> OwnedSlice<8> {
    OwnedSlice::from_slice(bytes).unwrap()
}

fn feed(reasm: &mut Reasm, id: CanId, frames: &[OwnedSlice<8>], time: u32) {
    for f in frames {
        reasm.process_frame(id, f.as_slice(), time);
    }
}

#[test]
fn check_single_frame() {
    let payload = [0, 1, 2, 3, 4, 5, 6];
    let mut slicer = Slicer::<8, 7>::new(&payload, TransferId::new(0).unwrap()).frames_owned();
    let transfer_bytes = slicer.next().unwrap();

    let mut assembler = Reasm::new();
    let id = CanId::new_message_kind(NodeId::new(3).unwrap(), SubjectId::new(7).unwrap(), false, Priority::Nominal);
    assembler.process_frame(id, transfer_bytes.as_slice(), 0);
    assert_eq!(assembler.transfers_len(), 1);

    let mut buffer = [0u8; 512];
    let transfer = assembler.pop(&mut buffer);
    assert!(transfer.is_some());
    let transfer = transfer.unwrap();
    assert_eq!(transfer.source, NodeId::new(3).unwrap());
    assert_eq!(
        transfer.kind,
        TransferKind::Message(Message { subject_id: SubjectId::new(7).unwrap(), is_anonymous: false })
    );
    assert_eq!(transfer.payload, &[0, 1, 2, 3, 4, 5, 6]);
    assert!(assembler.pop(&mut buffer).is_none());
}

#[test]
fn check_multi_frame() {
    let payload = [0, 1, 2, 3, 4, 5, 6, 7, 8, 9];
    let mut assembler = Reasm::new();
    let id = message_id(3, 7, Priority::Nominal);
    feed(&mut assembler, id, &frames_of(&payload, 4), 0);
    let mut buffer = [0u8; 512];
    let transfer = assembler.pop(&mut buffer).unwrap();
    assert_eq!(transfer.payload, &payload);
    assert_eq!(transfer.priority, Priority::Nominal);
}

fn check_scenario(payload: &[u8], id: u8, expected: &[&[u8]]) {
    let frames = frames_of(payload, id);
    let got: Vec<&[u8]> = frames.iter().map(|f| f.as_slice()).collect();
    assert_eq!(got, expected.to_vec());

    let can_id = message_id(9, 100, Priority::High);
    let mut reasm = Reasm::new();
    feed(&mut reasm, can_id, &frames, 0);
    let mut buffer = [0u8; 512];
    let t = reasm.pop(&mut buffer).unwrap();
    assert_eq!(t.payload, payload);
    assert_eq!(t.source, NodeId::new(9).unwrap());
    assert_eq!(t.priority, Priority::High);
    assert_eq!(t.kind, can_id.transfer_kind);
    assert_eq!(reasm.pieces_len(), 0);
    assert_eq!(reasm.transfers_len(), 0);

    if frames.len() > 1 {
        // Flip each bit of each CRC byte in turn.
        let crc_positions: Vec<(usize, usize)> = {
            let mut v = Vec::new();
            let last = frames.len() - 1;
            let last_len = frames[last].used - 1;
            if last_len >= 2 {
                v.push((last, last_len - 2));
                v.push((last, last_len - 1));
            } else {
                v.push((last - 1, 6));
                v.push((last, 0));
            }
            v
        };
        for &(f, byte) in crc_positions.iter() {
            for bit in 0..8 {
                let mut bad = frames.clone();
                bad[f].bytes[byte] ^= 1 << bit;
                let mut reasm = Reasm::new();
                feed(&mut reasm, can_id, &bad, 0);
                assert_eq!(reasm.counters().transfers_with_bad_crc, 1);
                assert_eq!(reasm.counters().transfers_with_good_crc, 0);
                assert!(reasm.pop(&mut buffer).is_none());
                assert_eq!(reasm.pieces_len(), 0);
            }
        }
    }
}

#[test]
fn scenario_seven_bytes_one_frame() {
    check_scenario(&[0, 1, 2, 3, 4, 5, 6], 0, &[&[0, 1, 2, 3, 4, 5, 6, 0xE0]]);
}

#[test]
fn scenario_eight_bytes_two_frames() {
    check_scenario(&[0, 1, 2, 3, 4, 5, 6, 7], 1, &[&[0, 1, 2, 3, 4, 5, 6, 0xA1], &[7, 0x17, 0x8D, 0x41]]);
}

#[test]
fn scenario_thirteen_bytes_split_crc() {
    check_scenario(
        &[0, 1, 2, 3, 4, 5, 6, 7, 8, 9, 10, 11, 12],
        2,
        &[&[0, 1, 2, 3, 4, 5, 6, 0xA2], &[7, 8, 9, 10, 11, 12, 0xAC, 0x02], &[0xDD, 0x62]],
    );
}

#[test]
fn scenario_fourteen_bytes_crc_frame() {
    check_scenario(
        &[0, 1, 2, 3, 4, 5, 6, 7, 8, 9, 10, 11, 12, 13],
        31,
        &[&[0, 1, 2, 3, 4, 5, 6, 0xBF], &[7, 8, 9, 10, 11, 12, 13, 0x1F], &[0x78, 0xCB, 0x7F]],
    );
}

#[test]
fn scenario_twenty_one_bytes_four_frames() {
    let payload: Vec<u8> = (0..=20).collect();
    check_scenario(
        &payload,
        0,
        &[
            &[0, 1, 2, 3, 4, 5, 6, 0xA0],
            &[7, 8, 9, 10, 11, 12, 13, 0x00],
            &[14, 15, 16, 17, 18, 19, 20, 0x20],
            &[0xDD, 0x0A, 0x40],
        ],
    );
}

#[test]
fn round_trip_all_lengths() {
    for len in 0..=60usize {
        let payload: Vec<u8> = (0..len).map(|i| (i * 37 + 5) as u8).collect();
        let frames = frames_of(&payload, (len % 32) as u8);
        let id = CanId::new_service_kind(
            NodeId::new(5).unwrap(),
            NodeId::new(6).unwrap(),
            uavcan_llr::types::ServiceId::new(77).unwrap(),
            true,
            Priority::Low,
        );
        let mut reasm = Reasm::new();
        feed(&mut reasm, id, &frames, 0);
        let mut buffer = [0u8; 512];
        let t = reasm.pop(&mut buffer).unwrap();
        assert_eq!(t.payload, &payload[..]);
        assert_eq!(t.kind, id.transfer_kind);
        assert_eq!(t.priority, Priority::Low);
    }
}

#[test]
fn priority_readout_order() {
    let mut reasm = Reasm::new();
    let payload: Vec<u8> = (0..20).collect();
    let ids = [
        message_id(1, 10, Priority::Optional),
        message_id(2, 10, Priority::Nominal),
        message_id(3, 10, Priority::Exceptional),
    ];
    let frames: Vec<Vec<OwnedSlice<8>>> = ids.iter().map(|_| frames_of(&payload, 1)).collect();
    // Interleave the frames; the transfers complete as Optional, Nominal, Exceptional.
    for i in 0..frames[0].len() {
        for (k, id) in ids.iter().enumerate() {
            reasm.process_frame(*id, frames[k][i].as_slice(), 0);
        }
    }
    let mut buffer = [0u8; 512];
    let order: Vec<Priority> = (0..3).map(|_| reasm.pop(&mut buffer).unwrap().priority).collect();
    assert_eq!(order, vec![Priority::Exceptional, Priority::Nominal, Priority::Optional]);
    assert!(reasm.pop(&mut buffer).is_none());
}

#[test]
fn fifo_at_equal_priority_across_wrap_around() {
    let mut reasm = Reasm::new();
    let mut buffer = [0u8; 512];
    let single = frame(&[1, 0xE0]);
    // Move the sequence counter to its largest value.
    for _ in 0..32767u32 {
        reasm.process_frame(message_id(1, 1, Priority::Nominal), single.as_slice(), 0);
        assert!(reasm.pop(&mut buffer).is_some());
    }
    // Sequence numbers 32767 and then -32768.
    reasm.process_frame(message_id(1, 1, Priority::Nominal), frame(&[1, 0xE0]).as_slice(), 0);
    reasm.process_frame(message_id(2, 1, Priority::Nominal), frame(&[2, 0xE0]).as_slice(), 0);
    let first = reasm.pop(&mut buffer).unwrap();
    assert_eq!(first.source, NodeId::new(1).unwrap());
    let second = reasm.pop(&mut buffer).unwrap();
    assert_eq!(second.source, NodeId::new(2).unwrap());
}

#[test]
fn timeout_frees_pieces_of_stale_session() {
    let mut reasm = Assembler::<8, 7, 2, 8, 10>::new();
    let start = frame(&[0, 1, 2, 3, 4, 5, 6, 0xA0]);
    reasm.process_frame(message_id(1, 1, Priority::Nominal), start.as_slice(), 0);
    reasm.process_frame(message_id(2, 1, Priority::Nominal), start.as_slice(), 5);
    assert_eq!(reasm.pieces_len(), 2);
    assert_eq!(reasm.transfers_len(), 2);
    // The pool is full; at time 12 only the first session is older than the lifetime.
    reasm.process_frame(message_id(3, 1, Priority::Nominal), frame(&[7, 0xE1]).as_slice(), 12);
    assert_eq!(reasm.transfers_len(), 2);
    assert_eq!(reasm.pieces_len(), 2);
    let mut buffer = [0u8; 64];
    let t = reasm.pop(&mut buffer).unwrap();
    assert_eq!(t.source, NodeId::new(3).unwrap());
    assert_eq!(t.payload, &[7]);
}

#[test]
fn sweep_stops_after_first_freed_session() {
    let mut reasm = Assembler::<8, 7, 2, 8, 10>::new();
    let start = frame(&[0, 1, 2, 3, 4, 5, 6, 0xA0]);
    reasm.process_frame(message_id(1, 1, Priority::Nominal), start.as_slice(), 0);
    reasm.process_frame(message_id(2, 1, Priority::Nominal), start.as_slice(), 0);
    reasm.remove_outdated_transfers(100);
    assert_eq!(reasm.pieces_len(), 1);
    assert_eq!(reasm.transfers_len(), 1);
    reasm.remove_outdated_transfers(5);
    assert_eq!(reasm.pieces_len(), 1);
}

#[test]
fn full_transfer_table_drops_frames() {
    let mut reasm = Assembler::<8, 7, 16, 2, 10>::new();
    let single = frame(&[1, 0xE0]);
    reasm.process_frame(message_id(1, 1, Priority::Nominal), single.as_slice(), 0);
    reasm.process_frame(message_id(2, 1, Priority::Nominal), single.as_slice(), 0);
    reasm.process_frame(message_id(3, 1, Priority::Nominal), single.as_slice(), 0);
    assert_eq!(reasm.transfers_len(), 2);
    assert_eq!(reasm.counters().dropped_frames, 1);
}

#[test]
fn full_pool_fails_session() {
    let mut reasm = Assembler::<8, 7, 1, 8, 1000>::new();
    let id = message_id(1, 1, Priority::Nominal);
    reasm.process_frame(id, frame(&[0, 1, 2, 3, 4, 5, 6, 0xA0]).as_slice(), 0);
    reasm.process_frame(id, frame(&[7, 8, 9, 10, 11, 12, 13, 0x00]).as_slice(), 0);
    assert_eq!(reasm.counters().dropped_frames, 1);
    let mut buffer = [0u8; 64];
    assert!(reasm.pop(&mut buffer).is_none());
}

#[test]
fn buffer_too_small_discards_transfer() {
    let mut reasm = Reasm::new();
    let payload: Vec<u8> = (0..20).collect();
    feed(&mut reasm, message_id(1, 1, Priority::Nominal), &frames_of(&payload, 0), 0);
    let mut buffer = [0u8; 10];
    assert!(reasm.pop(&mut buffer).is_none());
    assert_eq!(reasm.transfers_len(), 0);
    assert_eq!(reasm.pieces_len(), 0);
}

fn state_after(frames: &[&[u8]]) -> (Option<Vec<u8>>, usize, usize) {
    let mut reasm = Reasm::new();
    let id = message_id(1, 1, Priority::Nominal);
    for f in frames {
        reasm.process_frame(id, f, 0);
    }
    let dropped = reasm.counters().dropped_frames;
    let mut buffer = [0u8; 64];
    let got = reasm.pop(&mut buffer).map(|t| t.payload.to_vec());
    (got, dropped, reasm.pieces_len())
}

const START: &[u8] = &[0, 1, 2, 3, 4, 5, 6, 0xA0];
const MIDDLE_T0: &[u8] = &[7, 8, 9, 10, 11, 12, 13, 0x00];
const SHORT_MIDDLE_T0: &[u8] = &[7, 8, 0x00];
const SINGLE: &[u8] = &[42, 0xE0];
const SINGLE_V0: &[u8] = &[42, 0xC0];
const START_V0: &[u8] = &[42, 0x80];
const END_T1: &[u8] = &[1, 2, 3, 0x60];
const MIDDLE_T1: &[u8] = &[0, 0, 0, 0, 0, 0, 0, 0x20];
const END_T0: &[u8] = &[1, 2, 3, 0x40];

#[test]
fn machine_rejects_frames_without_tail() {
    // No tail byte while idle: ignored, then a single frame still completes.
    assert_eq!(state_after(&[&[], SINGLE]), (Some(vec![42]), 0, 0));
    // No tail byte in the middle of a transfer drops it.
    assert_eq!(state_after(&[START, &[0u8; 9]]), (None, 1, 0));
    // A completed transfer survives a malformed frame.
    assert_eq!(state_after(&[SINGLE, &[]]), (Some(vec![42]), 0, 0));
}

#[test]
fn machine_rejects_out_of_order_frames() {
    // Middle and end frames without a start.
    assert_eq!(state_after(&[MIDDLE_T0]), (None, 1, 0));
    assert_eq!(state_after(&[END_T1]), (None, 1, 0));
    assert_eq!(state_after(&[MIDDLE_T1]), (None, 1, 0));
    assert_eq!(state_after(&[END_T0]), (None, 1, 0));
    // Two frames of the same toggle in a row.
    assert_eq!(state_after(&[START, MIDDLE_T1]), (None, 1, 0));
    assert_eq!(state_after(&[START, MIDDLE_T0, MIDDLE_T0]), (None, 1, 0));
    assert_eq!(state_after(&[START, MIDDLE_T0, END_T0]), (None, 1, 0));
    // A short middle frame.
    assert_eq!(state_after(&[START, SHORT_MIDDLE_T0]), (None, 1, 0));
    // A start or a single frame inside a transfer.
    assert_eq!(state_after(&[START, START]), (None, 1, 0));
    assert_eq!(state_after(&[START, SINGLE]), (None, 1, 0));
    // A frame after a completed transfer of the wrong kind.
    assert_eq!(state_after(&[SINGLE, MIDDLE_T0]), (None, 1, 0));
}

#[test]
fn machine_rejects_version_zero_tails() {
    assert_eq!(state_after(&[SINGLE_V0]), (None, 0, 0));
    assert_eq!(state_after(&[START_V0]), (None, 0, 0));
    assert_eq!(state_after(&[SINGLE, SINGLE_V0]), (None, 0, 1));
}

#[test]
fn new_start_replaces_completed_or_failed_transfer() {
    assert_eq!(state_after(&[SINGLE, &[43, 0xE1]]), (Some(vec![43]), 0, 0));
    assert_eq!(state_after(&[MIDDLE_T0, SINGLE]), (Some(vec![42]), 1, 0));
    assert_eq!(state_after(&[START_V0, SINGLE]), (Some(vec![42]), 0, 0));
    assert_eq!(state_after(&[&[0u8; 9], SINGLE]), (Some(vec![42]), 0, 0));
    assert_eq!(state_after(&[&[], &[1, 2, 0xE0]]), (Some(vec![1, 2]), 0, 0));
}

#[test]
fn empty_single_frame_transfer() {
    assert_eq!(state_after(&[&[0xE5]]), (Some(vec![]), 0, 0));
}

#[test]
fn counters_count_outcomes() {
    let mut reasm = Reasm::new();
    let payload: Vec<u8> = (0..10).collect();
    feed(&mut reasm, message_id(1, 1, Priority::Nominal), &frames_of(&payload, 0), 0);
    feed(&mut reasm, message_id(2, 1, Priority::Nominal), &frames_of(&[1], 0), 0);
    let c = reasm.counters();
    assert_eq!(c.transfers_with_good_crc, 1);
    assert_eq!(c.single_frame_transfers, 1);
    assert_eq!(c.transfers_with_bad_crc, 0);
    assert_eq!(c.dropped_frames, 0);
}
