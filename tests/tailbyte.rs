use uavcan_llr::tailbyte::{Kind, TailByte};
use uavcan_llr::types::TransferId;

#[test]
fn lib_check_tailbyte() {
    assert_eq!(TailByte::single_frame_transfer(TransferId::new(10).unwrap()).as_byte(), 0b1110_1010);
    // A transfer has at least one frame.
    let mut multi = TailByte::multi_frame_transfer(TransferId::new(7).unwrap(), 0);
    assert_eq!(multi.next(), Some(TailByte::from(0b1110_0111)));
    assert_eq!(multi.next(), None);
    let mut multi = TailByte::multi_frame_transfer(TransferId::new(7).unwrap(), 1);
    assert_eq!(multi.next(), Some(TailByte::from(0b1110_0111)));
    assert_eq!(multi.next(), None);
    let mut multi = TailByte::multi_frame_transfer(TransferId::new(7).unwrap(), 2);
    assert_eq!(multi.next(), Some(TailByte::from(0b1010_0111)));
    assert_eq!(multi.next(), Some(TailByte::from(0b0100_0111)));
    assert_eq!(multi.next(), None);
    let mut multi = TailByte::multi_frame_transfer(TransferId::new(31).unwrap(), 3);
    assert_eq!(multi.next(), Some(TailByte::from(0b1011_1111)));
    assert_eq!(multi.next(), Some(TailByte::from(0b0001_1111)));
    assert_eq!(multi.next(), Some(TailByte::from(0b0111_1111)));
    assert_eq!(multi.next(), None);
}

#[test]
fn tailbyte_check_tailbyte() {
    assert_eq!(TailByte::new_single_frame(TransferId::new(10).unwrap()).as_byte(), 0b1110_1010);
    // A transfer has at least one frame.
    let mut multi = TailByte::new_multi_frame(TransferId::new(7).unwrap(), 0);
    assert_eq!(multi.next(), Some(TailByte::from(0b1110_0111)));
    assert_eq!(multi.next(), None);
    let mut multi = TailByte::new_multi_frame(TransferId::new(7).unwrap(), 1);
    assert_eq!(multi.next(), Some(TailByte::from(0b1110_0111)));
    assert_eq!(multi.next(), None);
    let mut multi = TailByte::new_multi_frame(TransferId::new(7).unwrap(), 2);
    assert_eq!(multi.next(), Some(TailByte::from(0b1010_0111)));
    assert_eq!(multi.next(), Some(TailByte::from(0b0100_0111)));
    assert_eq!(multi.next(), None);
    let mut multi = TailByte::new_multi_frame(TransferId::new(31).unwrap(), 3);
    assert_eq!(multi.next(), Some(TailByte::from(0b1011_1111)));
    assert_eq!(multi.next(), Some(TailByte::from(0b0001_1111)));
    assert_eq!(multi.next(), Some(TailByte::from(0b0111_1111)));
    assert_eq!(multi.next(), None);
}

#[test]
fn tail_byte_generator_alternates_toggle() {
    let mut multi = TailByte::new_multi_frame(TransferId::new(5).unwrap(), 6);
    let kinds: Vec<Kind> = (0..6).map(|_| multi.next().unwrap().kind()).collect();
    assert_eq!(
        kinds,
        vec![Kind::MultiFrame, Kind::MiddleT0, Kind::MiddleT1, Kind::MiddleT0, Kind::MiddleT1, Kind::EndT0]
    );
    assert_eq!(multi.next(), None);
    let mut multi = TailByte::new_multi_frame(TransferId::new(5).unwrap(), 5);
    let last = (0..5).map(|_| multi.next().unwrap()).last().unwrap();
    assert_eq!(last.kind, Kind::EndT1);
    assert!(last.is_multi_frame_end());
    assert!(!last.is_multi_frame_middle());
}

#[test]
fn tail_byte_decoding() {
    let t = TailByte::from(0b0010_0011);
    assert_eq!(t.kind, Kind::MiddleT1);
    assert_eq!(t.id.inner(), 3);
    assert!(t.is_multi_frame_middle());
    assert_eq!(Kind::from(0b110), Kind::SingleFrameV0);
    assert_eq!(Kind::from(0b1100), Kind::MultiFrameV0);
    let byte: u8 = TailByte::from(0xEA).into();
    assert_eq!(byte, 0xEA);
    assert_eq!(TailByte::from_byte(0x47).kind(), Kind::EndT0);
}
