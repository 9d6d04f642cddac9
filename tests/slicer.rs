use uavcan_llr::slicer::{frame_count, OwnedSlice, Slicer};
use uavcan_llr::types::TransferId;

#[test]
fn lib_check_frame_count() {
    assert_eq!(frame_count::<8>(0, 8), 1);
    assert_eq!(frame_count::<8>(1, 8), 1);
    assert_eq!(frame_count::<8>(6, 8), 1);
    assert_eq!(frame_count::<8>(7, 8), 1);

    assert_eq!(frame_count::<8>(8, 8), 2);
    assert_eq!(frame_count::<8>(12, 8), 2);

    assert_eq!(frame_count::<8>(13, 8), 3);
    assert_eq!(frame_count::<8>(14, 8), 3);
    assert_eq!(frame_count::<8>(19, 8), 3);

    assert_eq!(frame_count::<8>(20, 8), 4);
    assert_eq!(frame_count::<8>(21, 8), 4);
    assert_eq!(frame_count::<8>(26, 8), 4);
}

#[test]
fn slicer_check_frame_count() {
    assert_eq!(frame_count::<8>(0, 8), 1);
    assert_eq!(frame_count::<8>(1, 8), 1);
    assert_eq!(frame_count::<8>(6, 8), 1);
    assert_eq!(frame_count::<8>(7, 8), 1);

    assert_eq!(frame_count::<8>(8, 8), 2); // 7+t 1+crc+t
    assert_eq!(frame_count::<8>(12, 8), 2); // 7+t 5+crc+t

    assert_eq!(frame_count::<8>(13, 8), 3); // 7+t 6+cr+t c+t
    assert_eq!(frame_count::<8>(14, 8), 3); // 7+t 7+t crc+t
    assert_eq!(frame_count::<8>(19, 8), 3); // 7+t 7+t 5+crc+t

    assert_eq!(frame_count::<8>(20, 8), 4); // 7+t 7+t 6+cr+t c+t
    assert_eq!(frame_count::<8>(21, 8), 4); // 7+t 7+t 7+t crc+t
    assert_eq!(frame_count::<8>(26, 8), 4); // 7+t 7+t 7+t 5+crc+t
}

#[test]
fn frame_count_whole_table() {
    for n in 0..=7 {
        assert_eq!(frame_count::<8>(n, 8), 1);
    }
    for n in 8..=12 {
        assert_eq!(frame_count::<8>(n, 8), 2);
    }
    for n in 13..=19 {
        assert_eq!(frame_count::<8>(n, 8), 3);
    }
    for n in 20..=26 {
        assert_eq!(frame_count::<8>(n, 8), 4);
    }
    assert_eq!(frame_count::<8>(usize::MAX, 8), usize::MAX / 7 + 1);
}

#[test]
fn lib_check_slicer() {
    let payload = [0, 1, 2, 3, 4, 5, 6];
    let mut slicer = Slicer::<8, 7>::new(&payload, TransferId::new(0).unwrap()).frames_owned();
    assert_eq!(slicer.next(), Some(OwnedSlice { bytes: [0, 1, 2, 3, 4, 5, 6, 0b1110_0000], used: 8 }));
    assert_eq!(slicer.next(), None);

    let payload = [0, 1, 2, 3, 4, 5, 6, 7];
    let mut slicer = Slicer::<8, 7>::new(&payload, TransferId::new(0).unwrap()).frames_owned();
    assert_eq!(slicer.next(), Some(OwnedSlice { bytes: [0, 1, 2, 3, 4, 5, 6, 0b1010_0000], used: 8 }));
    assert_eq!(slicer.next(), Some(OwnedSlice { bytes: [7, 0x17, 0x8d, 0b0100_0000, 0, 0, 0, 0], used: 4 }));
    assert_eq!(slicer.next(), None);
}

#[test]
fn slicer_check_slicer() {
    let payload = [0, 1, 2, 3, 4, 5, 6];
    let mut slicer = Slicer::<8, 7>::new(&payload, TransferId::new(0).unwrap()).frames_owned();
    assert_eq!(slicer.next(), Some(OwnedSlice { bytes: [0, 1, 2, 3, 4, 5, 6, 0b1110_0000], used: 8 }));
    assert_eq!(slicer.next(), None);

    let payload = [0, 1, 2, 3, 4, 5, 6, 7];
    let mut slicer = Slicer::<8, 7>::new(&payload, TransferId::new(1).unwrap()).frames_owned();
    assert_eq!(slicer.next(), Some(OwnedSlice { bytes: [0, 1, 2, 3, 4, 5, 6, 0b1010_0001], used: 8 }));
    assert_eq!(slicer.next(), Some(OwnedSlice { bytes: [7, 0x17, 0x8d, 0b0100_0001, 0, 0, 0, 0], used: 4 }));
    assert_eq!(slicer.next(), None);

    let payload = [0, 1, 2, 3, 4, 5, 6, 7, 8, 9, 10, 11, 12];
    let mut slicer = Slicer::<8, 7>::new(&payload, TransferId::new(2).unwrap()).frames_owned();
    assert_eq!(slicer.next(), Some(OwnedSlice { bytes: [0, 1, 2, 3, 4, 5, 6, 0b1010_0010], used: 8 }));
    assert_eq!(slicer.next(), Some(OwnedSlice { bytes: [7, 8, 9, 10, 11, 12, 0xac, 0b0000_0010], used: 8 }));
    assert_eq!(slicer.next(), Some(OwnedSlice { bytes: [0xdd, 0b0110_0010, 0, 0, 0, 0, 0, 0], used: 2 }));
    assert_eq!(slicer.next(), None);

    let payload = [0, 1, 2, 3, 4, 5, 6, 7, 8, 9, 10, 11, 12, 13];
    let mut slicer = Slicer::<8, 7>::new(&payload, TransferId::new(31).unwrap()).frames_owned();
    assert_eq!(slicer.next(), Some(OwnedSlice { bytes: [0, 1, 2, 3, 4, 5, 6, 0b1011_1111], used: 8 }));
    assert_eq!(slicer.next(), Some(OwnedSlice { bytes: [7, 8, 9, 10, 11, 12, 13, 0b0001_1111], used: 8 }));
    assert_eq!(slicer.next(), Some(OwnedSlice { bytes: [0x78, 0xcb, 0b0111_1111, 0, 0, 0, 0, 0], used: 3 }));
    assert_eq!(slicer.next(), None);

    let payload = [0, 1, 2, 3, 4, 5, 6, 7, 8, 9, 10, 11, 12, 13, 14, 15, 16, 17, 18, 19, 20];
    let mut slicer = Slicer::<8, 7>::new(&payload, TransferId::new(0).unwrap()).frames_owned();
    assert_eq!(slicer.next(), Some(OwnedSlice { bytes: [0, 1, 2, 3, 4, 5, 6, 0b1010_0000], used: 8 }));
    assert_eq!(slicer.next(), Some(OwnedSlice { bytes: [7, 8, 9, 10, 11, 12, 13, 0b0000_0000], used: 8 }));
    assert_eq!(slicer.next(), Some(OwnedSlice { bytes: [14, 15, 16, 17, 18, 19, 20, 0b0010_0000], used: 8 }));
    assert_eq!(slicer.next(), Some(OwnedSlice { bytes: [0xdd, 0x0a, 0b0100_0000, 0, 0, 0, 0, 0], used: 3 }));
    assert_eq!(slicer.next(), None);
}

#[test]
fn empty_payload_is_one_frame_of_tail_byte() {
    let payload: [u8; 0] = [];
    let mut slicer = Slicer::<8, 7>::new(&payload, TransferId::new(3).unwrap()).frames_owned();
    assert_eq!(slicer.next(), Some(OwnedSlice { bytes: [0xE3, 0, 0, 0, 0, 0, 0, 0], used: 1 }));
    assert_eq!(slicer.next(), None);
}

#[test]
fn crc_is_ccitt_false_of_payload() {
    // CRC-16/CCITT-FALSE of "123456789" is 0x29B1.
    let payload = *b"123456789";
    let mut slicer = Slicer::<8, 7>::new(&payload, TransferId::new(0).unwrap()).frames_ref();
    let (chunk, rest) = slicer.next().unwrap();
    assert_eq!(chunk, b"1234567");
    assert_eq!(rest.used, 1);
    let (chunk, rest) = slicer.next().unwrap();
    assert_eq!(chunk, b"89");
    assert_eq!(&rest.bytes[..rest.used], &[0x29, 0xB1, 0x40]);
    assert!(slicer.next().is_none());
}

#[test]
fn slicer_with_given_crc() {
    let payload = [9u8; 8];
    let mut slicer = Slicer::<8, 7>::with_crc(&payload, TransferId::new(4).unwrap(), 0xBEEF).frames_owned();
    assert_eq!(slicer.next(), Some(OwnedSlice { bytes: [9, 9, 9, 9, 9, 9, 9, 0xA4], used: 8 }));
    assert_eq!(slicer.next(), Some(OwnedSlice { bytes: [9, 0xBE, 0xEF, 0x44, 0, 0, 0, 0], used: 4 }));
    assert_eq!(slicer.next(), None);
}

#[test]
fn owned_slice_constructors() {
    let one = OwnedSlice::<3>::new_one(5);
    assert_eq!(one.as_slice(), &[5]);
    let two = OwnedSlice::<3>::new_two(5, 6);
    assert_eq!(two.as_slice(), &[5, 6]);
    let three = OwnedSlice::<3>::new_three(5, 6, 7);
    assert_eq!(three.bytes, [5, 6, 7]);
    assert_eq!(OwnedSlice::<4>::new([1, 2, 3, 4], 2).as_slice(), &[1, 2]);
    let s = OwnedSlice::<4>::from_slice(&[1, 2]).unwrap();
    assert_eq!(s, OwnedSlice { bytes: [1, 2, 0, 0], used: 2 });
    assert!(OwnedSlice::<2>::from_slice(&[1, 2, 3]).is_none());
}

#[test]
fn single_frame_builder_advances_transfer_id() {
    let mut id = TransferId::new(31).unwrap();
    let payload = OwnedSlice::<7>::from_slice(&[1, 2, 3]).unwrap();
    let frame = Slicer::<8, 7>::new_single(&payload, &mut id);
    assert_eq!(frame, OwnedSlice { bytes: [1, 2, 3, 0xFF, 0, 0, 0, 0], used: 4 });
    assert_eq!(id.inner(), 0);
    let frame = Slicer::<8, 7>::new_single(&payload, &mut id);
    assert_eq!(frame.as_slice(), &[1, 2, 3, 0xE0]);
    assert_eq!(id.inner(), 1);
}
