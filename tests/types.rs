use std::convert::TryFrom;

use uavcan_llr::types::{CanId, Message, NodeId, Priority, Service, ServiceId, SubjectId, TransferId, TransferKind};
use uavcan_llr::Error;

#[test]
fn check_ids() {
    assert!(NodeId::new(10).is_some());
    assert!(NodeId::new(128).is_none());
    assert!(SubjectId::new(10).is_some());
    assert!(SubjectId::new(8192).is_none());
    assert!(ServiceId::new(10).is_some());
    assert!(ServiceId::new(512).is_none());
}

#[test]
fn check_priority() {
    assert!(Priority::Low < Priority::High);
}

#[test]
fn check_transfer_id() {
    assert_eq!(CanId::try_from(0b111 << 29), Err(Error::NoneZeroHighBits));
    assert_eq!(
        CanId::try_from(0b00010000_00000000_00001000_00000111),
        Ok(CanId::new_message_kind(
            NodeId::new(7).unwrap(),
            SubjectId::new(8).unwrap(),
            false,
            Priority::Nominal
        ))
    );
    assert_eq!(
        CanId::try_from(0b00010001_00000000_00000000_01111111),
        Ok(CanId::new_message_kind(
            NodeId::new(127).unwrap(),
            SubjectId::new(0).unwrap(),
            true,
            Priority::Nominal
        ))
    );
    assert_eq!(CanId::try_from(0b00010000_00000000_00001000_10000111), Err(Error::WrongReservedBit));
    assert_eq!(CanId::try_from(0b00010000_10000000_00001000_00000111), Err(Error::WrongReservedBit));
    assert_eq!(
        CanId::try_from(0b00000010_01111111_11000011_10000111),
        Ok(CanId::new_service_kind(
            NodeId::new(7).unwrap(),
            NodeId::new(7).unwrap(),
            ServiceId::new(511).unwrap(),
            false,
            Priority::Exceptional
        ))
    );
    assert_eq!(
        CanId::try_from(0b00000011_01111111_11000000_01111111),
        Ok(CanId::new_service_kind(
            NodeId::new(127).unwrap(),
            NodeId::new(0).unwrap(),
            ServiceId::new(511).unwrap(),
            true,
            Priority::Exceptional
        ))
    );
}

#[test]
fn id_bounds_are_inclusive() {
    assert_eq!(NodeId::new(127).unwrap().inner(), 127);
    assert_eq!(SubjectId::new(8191).unwrap().inner(), 8191);
    assert_eq!(ServiceId::new(511).unwrap().inner(), 511);
    assert_eq!(TransferId::new(31).unwrap().inner(), 31);
    assert!(TransferId::new(32).is_none());
}

#[test]
fn transfer_id_wraps_on_increment() {
    let mut id = TransferId::new(30).unwrap();
    id.increment();
    assert_eq!(id.inner(), 31);
    id.increment();
    assert_eq!(id.inner(), 0);
    assert_eq!(TransferId::default().inner(), 0);
}

#[test]
fn priority_levels() {
    assert_eq!(Priority::new(0), Some(Priority::Exceptional));
    assert_eq!(Priority::new(4), Some(Priority::Nominal));
    assert_eq!(Priority::new(7), Some(Priority::Optional));
    assert_eq!(Priority::new(8), None);
    assert!(Priority::Exceptional > Priority::Optional);
    assert_eq!(Priority::Slow.as_u8(), 6);
}

#[test]
fn can_id_encodes_to_vectors() {
    let id = CanId::new_message_kind(NodeId::new(7).unwrap(), SubjectId::new(8).unwrap(), false, Priority::Nominal);
    let raw: u32 = id.into();
    assert_eq!(raw, 0x1000_0807);
    let id = CanId::new_message_kind(NodeId::new(127).unwrap(), SubjectId::new(0).unwrap(), true, Priority::Nominal);
    assert_eq!(id.to_raw(), 0x1100_007F);
    let id = CanId::new_service_kind(
        NodeId::new(7).unwrap(),
        NodeId::new(7).unwrap(),
        ServiceId::new(511).unwrap(),
        false,
        Priority::Exceptional,
    );
    assert_eq!(id.to_raw(), 0x027F_C387);
    let id = CanId::new_service_kind(
        NodeId::new(127).unwrap(),
        NodeId::new(0).unwrap(),
        ServiceId::new(511).unwrap(),
        true,
        Priority::Exceptional,
    );
    assert_eq!(id.to_raw(), 0x037F_C07F);
}

#[test]
fn can_id_decode_errors() {
    assert_eq!(CanId::from_raw(0xE000_0000), Err(Error::NoneZeroHighBits));
    assert_eq!(CanId::from_raw(0x1000_0887), Err(Error::WrongReservedBit));
    assert_eq!(CanId::from_raw(0x1080_0807), Err(Error::WrongReservedBit));
    // Bit 7 is the low bit of the destination of a service identifier.
    assert!(CanId::from_raw(0x027F_C387).is_ok());
}

#[test]
fn can_id_round_trip() {
    let ids = [
        CanId::new_message_kind(NodeId::new(0).unwrap(), SubjectId::new(8191).unwrap(), true, Priority::Optional),
        CanId::new_service_kind(
            NodeId::new(42).unwrap(),
            NodeId::new(127).unwrap(),
            ServiceId::new(300).unwrap(),
            true,
            Priority::Slow,
        ),
    ];
    for id in ids.iter() {
        assert_eq!(CanId::from_raw(id.to_raw()), Ok(*id));
    }
}

#[test]
fn transfer_kind_bits() {
    let kind = TransferKind::Message(Message { subject_id: SubjectId::new(8).unwrap(), is_anonymous: true });
    assert_eq!(kind.ser(), (8 << 8) | (1 << 24));
    let kind = TransferKind::Service(Service {
        destination_node_id: NodeId::new(1).unwrap(),
        service_id: ServiceId::new(2).unwrap(),
        is_request: false,
    });
    assert_eq!(kind.ser(), (1 << 7) | (2 << 14) | (1 << 25));
}

#[test]
fn frame_id_conversions() {
    let id = CanId::new_message_kind(NodeId::new(7).unwrap(), SubjectId::new(8).unwrap(), false, Priority::Nominal);
    let frame_id = id.to_frame_id();
    assert!(frame_id == vhrdcan::FrameId::new_extended(0x1000_0807).unwrap());
    assert_eq!(CanId::from_frame_id(frame_id), Ok(id));
    let standard = vhrdcan::FrameId::new_standard(0x123).unwrap();
    assert_eq!(CanId::from_frame_id(standard), Err(Error::StandardIdNotSupported));
    let bad = vhrdcan::FrameId::new_extended(0x1000_0887).unwrap();
    assert_eq!(CanId::from_frame_id(bad), Err(Error::WrongReservedBit));
}
