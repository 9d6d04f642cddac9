use vstd::prelude::*;

use crate::Error;

verus! {

/// Identifier of a node on the bus, `0..=127`.
#[derive(Copy, Clone, PartialEq, Eq, Debug, Structural)]
pub struct NodeId(pub(crate) u8);

impl NodeId {
    #[verifier::type_invariant]
    spec fn in_range(&self) -> bool {
        self.0 <= 127
    }

    pub open(crate) spec fn spec_inner(&self) -> u8 {
        self.0
    }

    /// `Some` exactly when `x` is a valid node identifier.
    pub fn new(x: u8) -> (r: Option<NodeId>)
        ensures
            r is Some <==> x <= 127,
            r matches Some(n) ==> n.spec_inner() == x,
    {
        if x <= 127 {
            Some(NodeId(x))
        } else {
            None
        }
    }

    #[verifier::when_used_as_spec(spec_inner)]
    pub fn inner(&self) -> (r: u8)
        ensures
            r == self.spec_inner(),
            r <= 127,
    {
        proof {
            use_type_invariant(self);
        }
        self.0
    }
}

/// Identifier of a message subject, `0..=8191`.
#[derive(Copy, Clone, PartialEq, Eq, Debug, Structural)]
pub struct SubjectId(pub(crate) u16);

impl SubjectId {
    #[verifier::type_invariant]
    spec fn in_range(&self) -> bool {
        self.0 <= 8191
    }

    pub open(crate) spec fn spec_inner(&self) -> u16 {
        self.0
    }

    /// `Some` exactly when `x` is a valid subject identifier.
    pub fn new(x: u16) -> (r: Option<SubjectId>)
        ensures
            r is Some <==> x <= 8191,
            r matches Some(n) ==> n.spec_inner() == x,
    {
        if x <= 8191 {
            Some(SubjectId(x))
        } else {
            None
        }
    }

    #[verifier::when_used_as_spec(spec_inner)]
    pub fn inner(&self) -> (r: u16)
        ensures
            r == self.spec_inner(),
            r <= 8191,
    {
        proof {
            use_type_invariant(self);
        }
        self.0
    }
}

/// Identifier of a service, `0..=511`.
#[derive(Copy, Clone, PartialEq, Eq, Debug, Structural)]
pub struct ServiceId(pub(crate) u16);

impl ServiceId {
    #[verifier::type_invariant]
    spec fn in_range(&self) -> bool {
        self.0 <= 511
    }

    pub open(crate) spec fn spec_inner(&self) -> u16 {
        self.0
    }

    /// `Some` exactly when `x` is a valid service identifier.
    pub fn new(x: u16) -> (r: Option<ServiceId>)
        ensures
            r is Some <==> x <= 511,
            r matches Some(n) ==> n.spec_inner() == x,
    {
        if x <= 511 {
            Some(ServiceId(x))
        } else {
            None
        }
    }

    #[verifier::when_used_as_spec(spec_inner)]
    pub fn inner(&self) -> (r: u16)
        ensures
            r == self.spec_inner(),
            r <= 511,
    {
        proof {
            use_type_invariant(self);
        }
        self.0
    }
}

/// Transfer identifier, `0..=31`, wrapping around on increment.
#[derive(Copy, Clone, PartialEq, Eq, Debug, Structural)]
pub struct TransferId(pub(crate) u8);

impl TransferId {
    #[verifier::type_invariant]
    spec fn in_range(&self) -> bool {
        self.0 <= 31
    }

    pub open(crate) spec fn spec_inner(&self) -> u8 {
        self.0
    }

    /// `Some` exactly when `x` is a valid transfer identifier.
    pub fn new(x: u8) -> (r: Option<TransferId>)
        ensures
            r is Some <==> x <= 31,
            r matches Some(n) ==> n.spec_inner() == x,
    {
        if x <= 31 {
            Some(TransferId(x))
        } else {
            None
        }
    }

    #[verifier::when_used_as_spec(spec_inner)]
    pub fn inner(&self) -> (r: u8)
        ensures
            r == self.spec_inner(),
            r <= 31,
    {
        proof {
            use_type_invariant(self);
        }
        self.0
    }

    /// Moves to the next identifier; 31 is followed by 0.
    pub fn increment(&mut self)
        ensures
            final(self).spec_inner() == (if old(self).spec_inner() == 31 {
                0
            } else {
                (old(self).spec_inner() + 1) as u8
            }),
    {
        proof {
            use_type_invariant(&*self);
        }
        if self.0 == 31 {
            self.0 = 0;
        } else {
            self.0 = self.0 + 1;
        }
    }
}

impl Default for TransferId {
    fn default() -> (r: TransferId)
        ensures
            r.spec_inner() == 0,
    {
        TransferId(0)
    }
}

/// Routing metadata carried by the 29-bit CAN identifier.
#[derive(Copy, Clone, PartialEq, Eq, Debug, Structural)]
pub struct CanId {
    pub source_node_id: NodeId,
    pub transfer_kind: TransferKind,
    pub priority: Priority,
}

#[derive(Copy, Clone, PartialEq, Eq, Debug, Structural)]
pub enum TransferKind {
    Message(Message),
    Service(Service),
}

#[derive(Copy, Clone, PartialEq, Eq, Debug, Structural)]
pub struct Message {
    pub subject_id: SubjectId,
    pub is_anonymous: bool,
}

#[derive(Copy, Clone, PartialEq, Eq, Debug, Structural)]
pub struct Service {
    pub destination_node_id: NodeId,
    pub service_id: ServiceId,
    pub is_request: bool,
}

/// Transfer priority; a smaller level is a higher priority.
#[derive(Copy, Clone, PartialEq, Eq, Debug, Structural)]
pub enum Priority {
    Exceptional,
    Immediate,
    Fast,
    High,
    Nominal,
    Low,
    Slow,
    Optional,
}

/// The bit `b` of `v` as a boolean.
pub open spec fn bit(v: u32, b: u32) -> bool {
    v & (1u32 << b) != 0
}

pub open spec fn flag(x: bool, b: u32) -> u32 {
    if x {
        1u32 << b
    } else {
        0
    }
}

/// Bits 7..=25 of the identifier: everything that tells transfer kinds apart.
pub open spec fn kind_bits(k: TransferKind) -> u32 {
    match k {
        TransferKind::Message(m) => ((m.subject_id.spec_inner() as u32) << 8u32) | flag(
            m.is_anonymous,
            24,
        ),
        TransferKind::Service(s) => ((s.destination_node_id.spec_inner() as u32) << 7u32) | ((
        s.service_id.spec_inner() as u32) << 14u32) | flag(s.is_request, 24) | (1u32 << 25u32),
    }
}

/// The 29-bit identifier of `id`.
pub open spec fn encode(id: CanId) -> u32 {
    ((id.priority.level() as u32) << 26u32) | kind_bits(id.transfer_kind) | (
    id.source_node_id.spec_inner() as u32)
}

/// The error that decoding `v` gives, if any.
pub open spec fn decode_error(v: u32) -> Option<Error> {
    if v >> 29u32 != 0 {
        Some(Error::NoneZeroHighBits)
    } else if bit(v, 23) {
        Some(Error::WrongReservedBit)
    } else if !bit(v, 25) && bit(v, 7) {
        Some(Error::WrongReservedBit)
    } else {
        None
    }
}

/// `id` holds the fields that the layout places in `v`.
pub open spec fn decodes_to(v: u32, id: CanId) -> bool {
    &&& id.source_node_id.spec_inner() as u32 == v & 127
    &&& id.priority.level() as u32 == (v >> 26u32) & 7
    &&& match id.transfer_kind {
        TransferKind::Message(m) => {
            &&& !bit(v, 25)
            &&& m.subject_id.spec_inner() as u32 == (v >> 8u32) & 8191
            &&& m.is_anonymous == bit(v, 24)
        },
        TransferKind::Service(s) => {
            &&& bit(v, 25)
            &&& s.destination_node_id.spec_inner() as u32 == (v >> 7u32) & 127
            &&& s.service_id.spec_inner() as u32 == (v >> 14u32) & 511
            &&& s.is_request == bit(v, 24)
        },
    }
}

/// The result of decoding `v`.
pub open spec fn spec_decode(v: u32) -> Result<CanId, Error> {
    match decode_error(v) {
        Some(e) => Err(e),
        None => Ok(choose|id: CanId| decodes_to(v, id)),
    }
}

impl CanId {
    /// Every field is within its range; this holds of every value that exec code holds.
    pub open spec fn valid(&self) -> bool {
        &&& self.source_node_id.spec_inner() <= 127
        &&& match self.transfer_kind {
            TransferKind::Message(m) => m.subject_id.spec_inner() <= 8191,
            TransferKind::Service(s) => s.destination_node_id.spec_inner() <= 127
                && s.service_id.spec_inner() <= 511,
        }
    }

    /// Exec values are always valid.
    fn check_valid(&self)
        ensures
            self.valid(),
    {
        let _ = self.source_node_id.inner();
        match self.transfer_kind {
            TransferKind::Message(m) => {
                let _ = m.subject_id.inner();
            },
            TransferKind::Service(s) => {
                let _ = s.destination_node_id.inner();
                let _ = s.service_id.inner();
            },
        }
    }

    pub fn new_message_kind(
        source_node_id: NodeId,
        subject_id: SubjectId,
        is_anonymous: bool,
        priority: Priority,
    ) -> (r: CanId)
        ensures
            r == (CanId {
                source_node_id,
                transfer_kind: TransferKind::Message(Message { subject_id, is_anonymous }),
                priority,
            }),
    {
        CanId {
            source_node_id,
            transfer_kind: TransferKind::Message(Message { subject_id, is_anonymous }),
            priority,
        }
    }

    pub fn new_service_kind(
        source_node_id: NodeId,
        destination_node_id: NodeId,
        service_id: ServiceId,
        is_request: bool,
        priority: Priority,
    ) -> (r: CanId)
        ensures
            r == (CanId {
                source_node_id,
                transfer_kind: TransferKind::Service(
                    Service { destination_node_id, service_id, is_request },
                ),
                priority,
            }),
    {
        CanId {
            source_node_id,
            transfer_kind: TransferKind::Service(
                Service { destination_node_id, service_id, is_request },
            ),
            priority,
        }
    }

    /// Decodes a raw identifier; see `decode_error` and `decodes_to`.
    pub fn from_raw(value: u32) -> (r: Result<CanId, Error>)
        ensures
            match r {
                Ok(id) => decode_error(value) is None && decodes_to(value, id),
                Err(e) => decode_error(value) == Some(e),
            },
    {
        if (value >> 29u32) & 7 != 0 {
            assert((value >> 29u32) & 7 != 0 ==> value >> 29u32 != 0) by (bit_vector);
            return Err(Error::NoneZeroHighBits);
        }
        assert((value >> 29u32) & 7 == 0 ==> value >> 29u32 == 0) by (bit_vector);
        if value & (1u32 << 23u32) != 0 {
            return Err(Error::WrongReservedBit);
        }
        let src = value & 127;
        assert(value & 127 <= 127) by (bit_vector);
        let source_node_id = NodeId(src as u8);
        let is_service = value & (1u32 << 25u32) != 0;
        let transfer_kind = if is_service {
            let dst = (value >> 7u32) & 127;
            assert((value >> 7u32) & 127 <= 127) by (bit_vector);
            let sid = (value >> 14u32) & 511;
            assert((value >> 14u32) & 511 <= 511) by (bit_vector);
            TransferKind::Service(
                Service {
                    destination_node_id: NodeId(dst as u8),
                    service_id: ServiceId(sid as u16),
                    is_request: value & (1u32 << 24u32) != 0,
                },
            )
        } else {
            if value & (1u32 << 7u32) != 0 {
                return Err(Error::WrongReservedBit);
            }
            let subject = (value >> 8u32) & 8191;
            assert((value >> 8u32) & 8191 <= 8191) by (bit_vector);
            TransferKind::Message(
                Message {
                    subject_id: SubjectId(subject as u16),
                    is_anonymous: value & (1u32 << 24u32) != 0,
                },
            )
        };
        let level = (value >> 26u32) & 7;
        assert((value >> 26u32) & 7 <= 7) by (bit_vector);
        let priority = Priority::from_level(level as u8);
        Ok(CanId { source_node_id, transfer_kind, priority })
    }

    /// The 29-bit identifier of `self`.
    pub fn to_raw(&self) -> (r: u32)
        ensures
            r == encode(*self),
    {
        let source = self.source_node_id.inner() as u32;
        let priority = (self.priority.as_u8() as u32) << 26u32;
        let bits = self.transfer_kind.ser();
        priority | bits | source
    }
}

impl TryFrom<u32> for CanId {
    type Error = Error;

    fn try_from(value: u32) -> (r: Result<CanId, Error>)
        ensures
            r == spec_decode(value),
            match r {
                Ok(id) => decode_error(value) is None && decodes_to(value, id),
                Err(e) => decode_error(value) == Some(e),
            },
    {
        let r = CanId::from_raw(value);
        proof {
            if let Ok(id) = r {
                let c = choose|c: CanId| decodes_to(value, c);
                lemma_decodes_to_unique(value, id, c);
            }
        }
        r
    }
}

impl vstd::std_specs::convert::TryFromSpecImpl<u32> for CanId {
    open spec fn obeys_try_from_spec() -> bool {
        true
    }

    open spec fn try_from_spec(v: u32) -> Result<CanId, Error> {
        spec_decode(v)
    }
}

impl From<CanId> for u32 {
    fn from(id: CanId) -> (r: u32)
        ensures
            r == encode(id),
    {
        id.to_raw()
    }
}

impl vstd::std_specs::convert::FromSpecImpl<CanId> for u32 {
    open spec fn obeys_from_spec() -> bool {
        true
    }

    open spec fn from_spec(id: CanId) -> u32 {
        encode(id)
    }
}

impl TransferKind {
    /// Bits 7..=25 of the identifier; used as part of the session key.
    pub fn ser(&self) -> (r: u32)
        ensures
            r == kind_bits(*self),
    {
        match self {
            TransferKind::Message(message) => {
                let subject_id = (message.subject_id.inner() as u32) << 8u32;
                let is_anonymous: u32 = if message.is_anonymous {
                    1u32 << 24u32
                } else {
                    0
                };
                subject_id | is_anonymous
            },
            TransferKind::Service(service) => {
                let destination_id = (service.destination_node_id.inner() as u32) << 7u32;
                let service_id = (service.service_id.inner() as u32) << 14u32;
                let is_request: u32 = if service.is_request {
                    1u32 << 24u32
                } else {
                    0
                };
                let is_service: u32 = 1u32 << 25u32;
                destination_id | service_id | is_request | is_service
            },
        }
    }
}

impl Priority {
    /// The numeric level, 0 for `Exceptional` up to 7 for `Optional`.
    pub open spec fn level(&self) -> u8 {
        match self {
            Priority::Exceptional => 0,
            Priority::Immediate => 1,
            Priority::Fast => 2,
            Priority::High => 3,
            Priority::Nominal => 4,
            Priority::Low => 5,
            Priority::Slow => 6,
            Priority::Optional => 7,
        }
    }

    /// `Some` exactly for the levels `0..=7`.
    pub fn new(priority: u8) -> (r: Option<Priority>)
        ensures
            r is Some <==> priority <= 7,
            r matches Some(p) ==> p.level() == priority,
    {
        if priority <= 7 {
            Some(Priority::from_level(priority))
        } else {
            None
        }
    }

    fn from_level(priority: u8) -> (r: Priority)
        requires
            priority <= 7,
        ensures
            r.level() == priority,
    {
        match priority {
            0 => Priority::Exceptional,
            1 => Priority::Immediate,
            2 => Priority::Fast,
            3 => Priority::High,
            4 => Priority::Nominal,
            5 => Priority::Low,
            6 => Priority::Slow,
            _ => Priority::Optional,
        }
    }

    #[verifier::when_used_as_spec(level)]
    pub fn as_u8(&self) -> (r: u8)
        ensures
            r == self.level(),
            r <= 7,
    {
        match self {
            Priority::Exceptional => 0,
            Priority::Immediate => 1,
            Priority::Fast => 2,
            Priority::High => 3,
            Priority::Nominal => 4,
            Priority::Low => 5,
            Priority::Slow => 6,
            Priority::Optional => 7,
        }
    }

    /// `self` is more urgent than `other`.
    pub open spec fn higher_than(self, other: Priority) -> bool {
        self.level() < other.level()
    }
}

impl PartialOrd for Priority {
    fn partial_cmp(&self, other: &Priority) -> (r: Option<core::cmp::Ordering>)
        ensures
            r == Some(priority_order(*self, *other)),
    {
        let a = self.as_u8();
        let b = other.as_u8();
        if a < b {
            Some(core::cmp::Ordering::Greater)
        } else if a == b {
            Some(core::cmp::Ordering::Equal)
        } else {
            Some(core::cmp::Ordering::Less)
        }
    }
}

/// The order of priorities: a smaller level compares greater.
pub open spec fn priority_order(a: Priority, b: Priority) -> core::cmp::Ordering {
    if a.level() < b.level() {
        core::cmp::Ordering::Greater
    } else if a.level() == b.level() {
        core::cmp::Ordering::Equal
    } else {
        core::cmp::Ordering::Less
    }
}

impl vstd::std_specs::cmp::PartialOrdSpecImpl for Priority {
    open spec fn obeys_partial_cmp_spec() -> bool {
        true
    }

    open spec fn partial_cmp_spec(&self, other: &Priority) -> Option<core::cmp::Ordering> {
        Some(priority_order(*self, *other))
    }
}

#[verifier::external_type_specification]
#[verifier::external_body]
pub struct ExFrameId(vhrdcan::FrameId);

/// The 29 bits of an extended frame identifier; `None` for a standard one.
pub uninterp spec fn extended_bits(id: vhrdcan::FrameId) -> Option<u32>;

/// Relies on `vhrdcan::FrameId`: the `Extended` variant holds an `ExtendedId` whose `id()`
/// gives its bits, the `Standard` variant holds an 11-bit identifier.
#[verifier::external_body]
fn frame_id_bits(id: &vhrdcan::FrameId) -> (r: Option<u32>)
    ensures
        r == extended_bits(*id),
{
    match id {
        vhrdcan::FrameId::Extended(e) => Some(e.id()),
        vhrdcan::FrameId::Standard(_) => None,
    }
}

/// Relies on `vhrdcan::FrameId::new_extended`: `Some` exactly when bits 29..=31 are clear,
/// holding the given bits.
#[verifier::external_body]
fn new_extended_frame_id(bits: u32) -> (r: Option<vhrdcan::FrameId>)
    ensures
        r is Some <==> bits >> 29u32 == 0,
        r matches Some(f) ==> extended_bits(f) == Some(bits),
{
    vhrdcan::FrameId::new_extended(bits)
}

impl CanId {
    /// Decodes the identifier of a received frame; a standard identifier is refused.
    pub fn from_frame_id(frame_id: vhrdcan::FrameId) -> (r: Result<CanId, Error>)
        ensures
            match extended_bits(frame_id) {
                None => r == Err::<CanId, Error>(Error::StandardIdNotSupported),
                Some(v) => r == spec_decode(v),
            },
    {
        match frame_id_bits(&frame_id) {
            None => Err(Error::StandardIdNotSupported),
            Some(v) => CanId::try_from(v),
        }
    }

    /// The extended frame identifier that carries `self`.
    pub fn to_frame_id(&self) -> (r: vhrdcan::FrameId)
        ensures
            extended_bits(r) == Some(encode(*self)),
    {
        self.check_valid();
        let raw = self.to_raw();
        proof {
            lemma_decode_encode(*self);
        }
        match new_extended_frame_id(raw) {
            Some(f) => f,
            // The encoding of a valid identifier has bits 29..=31 clear.
            None => vstd::pervasive::unreached(),
        }
    }
}

/// Encoding an identifier and decoding it again gives the identifier back.
pub proof fn lemma_decode_encode(id: CanId)
    requires
        id.valid(),
    ensures
        decode_error(encode(id)) is None,
        decodes_to(encode(id), id),
{
    let s = id.source_node_id.spec_inner() as u32;
    let p = id.priority.level() as u32;
    assert(p <= 7);
    assert(1u32 << 24u32 != 0) by (bit_vector);
    match id.transfer_kind {
        TransferKind::Message(m) => {
            let j = m.subject_id.spec_inner() as u32;
            let a = flag(m.is_anonymous, 24);
            assert(a == 0 || a == 1u32 << 24u32);
            assert(s <= 127 && p <= 7 && j <= 8191 && (a == 0 || a == 1u32 << 24u32) ==> {
                let v = (p << 26u32) | ((j << 8u32) | a) | s;
                &&& v >> 29u32 == 0
                &&& v & (1u32 << 23u32) == 0
                &&& v & (1u32 << 25u32) == 0
                &&& v & (1u32 << 7u32) == 0
                &&& v & 127 == s
                &&& (v >> 26u32) & 7 == p
                &&& (v >> 8u32) & 8191 == j
                &&& (v & (1u32 << 24u32) != 0) == (a != 0)
            }) by (bit_vector);
        },
        TransferKind::Service(sv) => {
            let d = sv.destination_node_id.spec_inner() as u32;
            let k = sv.service_id.spec_inner() as u32;
            let q = flag(sv.is_request, 24);
            assert(q == 0 || q == 1u32 << 24u32);
            assert(s <= 127 && p <= 7 && d <= 127 && k <= 511 && (q == 0 || q == 1u32 << 24u32)
                ==> {
                let v = (p << 26u32) | ((d << 7u32) | (k << 14u32) | q | (1u32 << 25u32)) | s;
                &&& v >> 29u32 == 0
                &&& v & (1u32 << 23u32) == 0
                &&& v & (1u32 << 25u32) != 0
                &&& v & 127 == s
                &&& (v >> 26u32) & 7 == p
                &&& (v >> 7u32) & 127 == d
                &&& (v >> 14u32) & 511 == k
                &&& (v & (1u32 << 24u32) != 0) == (q != 0)
            }) by (bit_vector);
        },
    }
}

/// At most one identifier decodes from a raw value.
pub proof fn lemma_decodes_to_unique(v: u32, a: CanId, b: CanId)
    requires
        decodes_to(v, a),
        decodes_to(v, b),
    ensures
        a == b,
{
    assert(a.priority.level() == b.priority.level());
    match (a.transfer_kind, b.transfer_kind) {
        (TransferKind::Message(x), TransferKind::Message(y)) => {
            assert(x.subject_id == y.subject_id);
        },
        (TransferKind::Service(x), TransferKind::Service(y)) => {
            assert(x.destination_node_id == y.destination_node_id);
            assert(x.service_id == y.service_id);
        },
        _ => {},
    }
}

/// Decoding a valid raw identifier and encoding the result gives the raw value back,
/// when the bits 21 and 22 of a message identifier, which decoding ignores, are clear.
pub proof fn lemma_encode_decode(v: u32, id: CanId)
    requires
        decode_error(v) is None,
        !bit(v, 25) ==> !bit(v, 21) && !bit(v, 22),
        decodes_to(v, id),
    ensures
        encode(id) == v,
{
    let s = id.source_node_id.spec_inner() as u32;
    let p = id.priority.level() as u32;
    match id.transfer_kind {
        TransferKind::Message(m) => {
            let j = m.subject_id.spec_inner() as u32;
            let a = flag(m.is_anonymous, 24);
            assert(a == (if bit(v, 24) { 1u32 << 24u32 } else { 0 }));
            assert(v >> 29u32 == 0 && v & (1u32 << 23u32) == 0 && v & (1u32 << 25u32) == 0
                && v & (1u32 << 7u32) == 0 && v & (1u32 << 21u32) == 0 && v & (1u32 << 22u32) == 0 && s == v & 127 && p == (v >> 26u32) & 7 && j == (v
                >> 8u32) & 8191 && a == (if v & (1u32 << 24u32) != 0 { 1u32 << 24u32 } else { 0 })
                ==> (p << 26u32) | ((j << 8u32) | a) | s == v) by (bit_vector);
        },
        TransferKind::Service(sv) => {
            let d = sv.destination_node_id.spec_inner() as u32;
            let k = sv.service_id.spec_inner() as u32;
            let q = flag(sv.is_request, 24);
            assert(q == (if bit(v, 24) { 1u32 << 24u32 } else { 0 }));
            assert(v >> 29u32 == 0 && v & (1u32 << 23u32) == 0 && v & (1u32 << 25u32) != 0 && s
                == v & 127 && p == (v >> 26u32) & 7 && d == (v >> 7u32) & 127 && k == (v
                >> 14u32) & 511 && q == (if v & (1u32 << 24u32) != 0 { 1u32 << 24u32 } else { 0 })
                ==> (p << 26u32) | ((d << 7u32) | (k << 14u32) | q | (1u32 << 25u32)) | s == v)
                by (bit_vector);
        },
    }
}

} // verus!
