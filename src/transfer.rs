use vstd::prelude::*;

use crate::tailbyte::{frame_kind, Kind, TailByte};
use crate::types::{kind_bits, CanId, NodeId, Priority, TransferId, TransferKind};

verus! {

/// Where a session stands in the reassembly of a transfer.
#[derive(Copy, Clone, PartialEq, Eq, Debug, Structural)]
pub enum State {
    Empty,
    AssemblingT1,
    AssemblingT0,
    Done,
    Failure,
}

/// The length of a frame's data, without the tail byte, against the frame capacity.
#[derive(Copy, Clone, PartialEq, Eq, Debug, Structural)]
pub enum PayloadKind {
    Empty,
    LessThanMTU,
    ExactlyMTU,
    Invalid,
}

/// What to do with the frame that drove the state machine.
#[derive(Copy, Clone, PartialEq, Eq, Debug, Structural)]
pub enum TransferMachineOutput {
    /// Ignore the frame's data.
    Ignore,
    /// Store the frame's data.
    Push,
    /// Check the CRC of the whole transfer; store the data on success, wipe the session otherwise.
    CheckCrcAndPush,
    /// Ignore the frame's data and wipe every piece received before.
    Drop,
}

/// The transition table: the next state and the action for a frame.
pub open spec fn transition(state: State, payload: PayloadKind, tail: Option<TailByte>) -> (
    State,
    TransferMachineOutput,
) {
    let fail_drop = (State::Failure, TransferMachineOutput::Drop);
    match tail {
        None => match state {
            State::Empty | State::Failure => (State::Failure, TransferMachineOutput::Ignore),
            State::AssemblingT1 | State::AssemblingT0 => fail_drop,
            State::Done => (State::Done, TransferMachineOutput::Ignore),
        },
        Some(t) => match t.kind {
            Kind::SingleFrameV0 | Kind::MultiFrameV0 => (
                State::Failure,
                TransferMachineOutput::Ignore,
            ),
            Kind::SingleFrame => match state {
                State::AssemblingT1 | State::AssemblingT0 => fail_drop,
                _ => (State::Done, TransferMachineOutput::Push),
            },
            Kind::MultiFrame => match state {
                State::AssemblingT1 | State::AssemblingT0 => fail_drop,
                _ => (State::AssemblingT1, TransferMachineOutput::Push),
            },
            Kind::MiddleT0 => if state == State::AssemblingT1 && payload
                == PayloadKind::ExactlyMTU {
                (State::AssemblingT0, TransferMachineOutput::Push)
            } else {
                fail_drop
            },
            Kind::MiddleT1 => if state == State::AssemblingT0 && payload
                == PayloadKind::ExactlyMTU {
                (State::AssemblingT1, TransferMachineOutput::Push)
            } else {
                fail_drop
            },
            Kind::EndT0 => if state == State::AssemblingT1 && (payload == PayloadKind::LessThanMTU
                || payload == PayloadKind::ExactlyMTU) {
                (State::Done, TransferMachineOutput::CheckCrcAndPush)
            } else {
                fail_drop
            },
            Kind::EndT1 => if state == State::AssemblingT0 && (payload == PayloadKind::LessThanMTU
                || payload == PayloadKind::ExactlyMTU) {
                (State::Done, TransferMachineOutput::CheckCrcAndPush)
            } else {
                fail_drop
            },
        },
    }
}

/// The state of a session after frame `i` of a transfer of several frames: assembling,
/// waiting for the toggle opposite to that of frame `i`.
pub open spec fn state_after_frame(i: nat) -> State {
    if i % 2 == 0 {
        State::AssemblingT1
    } else {
        State::AssemblingT0
    }
}

/// The frames of a transfer of `n` frames complete it in a session that was idle (empty,
/// done or failed), when each carries the tail byte that the generator gives it, the
/// middle frames are full and the last one holds data: frame `i` is stored and moves the
/// session on, and the last frame asks for the CRC check and ends in `Done`. A transfer of
/// one frame is stored and done at once.
pub proof fn lemma_transfer_completes(
    n: nat,
    i: nat,
    id: TransferId,
    payload: PayloadKind,
    idle: State,
)
    requires
        i < n,
        idle == State::Empty || idle == State::Done || idle == State::Failure,
        n > 1 && 0 < i && i + 1 < n ==> payload == PayloadKind::ExactlyMTU,
        n > 1 && i + 1 == n ==> payload == PayloadKind::LessThanMTU || payload
            == PayloadKind::ExactlyMTU,
    ensures
        transition(
            if i == 0 {
                idle
            } else {
                state_after_frame((i - 1) as nat)
            },
            payload,
            Some(TailByte { kind: frame_kind(i, n), id }),
        ) == (if n <= 1 {
            (State::Done, TransferMachineOutput::Push)
        } else if i + 1 == n {
            (State::Done, TransferMachineOutput::CheckCrcAndPush)
        } else {
            (state_after_frame(i), TransferMachineOutput::Push)
        }),
{
}

/// The state of one session and the transfer id of the last frame that carried a tail byte.
#[derive(Copy, Clone, PartialEq, Eq, Debug, Structural)]
pub struct TransferMachine {
    pub state: State,
    pub transfer_id: Option<TransferId>,
}

impl TransferMachine {
    pub fn reset() -> (r: TransferMachine)
        ensures
            r.state == State::Empty,
            r.transfer_id is None,
    {
        TransferMachine { state: State::Empty, transfer_id: None }
    }

    /// Drives the machine with one frame; see `transition`.
    pub fn advance(&mut self, payload_kind: PayloadKind, tail_byte: Option<TailByte>) -> (r:
        TransferMachineOutput)
        ensures
            (final(self).state, r) == transition(old(self).state, payload_kind, tail_byte),
            final(self).transfer_id == (match tail_byte {
                Some(t) => Some(t.id),
                None => old(self).transfer_id,
            }),
    {
        let (next_state, output) = match tail_byte {
            // A frame without a tail byte: nothing to clean up from idle states.
            None => match self.state {
                State::Empty | State::Failure => (State::Failure, TransferMachineOutput::Ignore),
                State::AssemblingT1 | State::AssemblingT0 => (
                    State::Failure,
                    TransferMachineOutput::Drop,
                ),
                // A completed transfer stays readable.
                State::Done => (State::Done, TransferMachineOutput::Ignore),
            },
            Some(tail_byte) => {
                // A transfer id that changes in the middle of a transfer is not refused
                // here; it shows as a CRC mismatch at the end of the transfer.
                self.transfer_id = Some(tail_byte.id);
                match (tail_byte.kind, self.state) {
                    // Single-frame transfer from an idle state.
                    (Kind::SingleFrame, State::Empty)
                    | (Kind::SingleFrame, State::Done)
                    | (Kind::SingleFrame, State::Failure) => (
                        State::Done,
                        TransferMachineOutput::Push,
                    ),
                    // Single-frame transfer in the middle of a multi-frame one.
                    (Kind::SingleFrame, _) => (State::Failure, TransferMachineOutput::Drop),
                    // Start of a multi-frame transfer from an idle state.
                    (Kind::MultiFrame, State::Empty)
                    | (Kind::MultiFrame, State::Done)
                    | (Kind::MultiFrame, State::Failure) => (
                        State::AssemblingT1,
                        TransferMachineOutput::Push,
                    ),
                    // Repeated start in the middle of a multi-frame transfer.
                    (Kind::MultiFrame, _) => (State::Failure, TransferMachineOutput::Drop),
                    // Toggle 0 after toggle 1: middle frames must be full.
                    (Kind::MiddleT0, State::AssemblingT1) => match payload_kind {
                        PayloadKind::ExactlyMTU => (
                            State::AssemblingT0,
                            TransferMachineOutput::Push,
                        ),
                        _ => (State::Failure, TransferMachineOutput::Drop),
                    },
                    (Kind::EndT0, State::AssemblingT1) => match payload_kind {
                        PayloadKind::LessThanMTU | PayloadKind::ExactlyMTU => (
                            State::Done,
                            TransferMachineOutput::CheckCrcAndPush,
                        ),
                        _ => (State::Failure, TransferMachineOutput::Drop),
                    },
                    // Toggle 1 after toggle 0.
                    (Kind::MiddleT1, State::AssemblingT0) => match payload_kind {
                        PayloadKind::ExactlyMTU => (
                            State::AssemblingT1,
                            TransferMachineOutput::Push,
                        ),
                        _ => (State::Failure, TransferMachineOutput::Drop),
                    },
                    (Kind::EndT1, State::AssemblingT0) => match payload_kind {
                        PayloadKind::LessThanMTU | PayloadKind::ExactlyMTU => (
                            State::Done,
                            TransferMachineOutput::CheckCrcAndPush,
                        ),
                        _ => (State::Failure, TransferMachineOutput::Drop),
                    },
                    // Reordered frames, or frames outside of a multi-frame transfer.
                    (Kind::MiddleT0, _)
                    | (Kind::EndT0, _)
                    | (Kind::MiddleT1, _)
                    | (Kind::EndT1, _) => (State::Failure, TransferMachineOutput::Drop),
                    // Tail byte of protocol version 0.
                    (Kind::SingleFrameV0, _) | (Kind::MultiFrameV0, _) => (
                        State::Failure,
                        TransferMachineOutput::Ignore,
                    ),
                }
            },
        };
        self.state = next_state;
        output
    }

    pub fn fail(&mut self)
        ensures
            final(self).state == State::Failure,
            final(self).transfer_id == old(self).transfer_id,
    {
        self.state = State::Failure;
    }
}

/// Identifies a session: the transfer kind and the source node.
#[derive(Copy, Clone, PartialEq, Eq, Debug, Structural)]
pub struct TransfersMapKey {
    pub kind: TransferKind,
    pub source: NodeId,
}

/// The integer that keys a session: bits 0..=25 of the identifier without the priority.
pub open spec fn key_bits(key: TransfersMapKey) -> u32 {
    kind_bits(key.kind) | (key.source.spec_inner() as u32)
}

impl TransfersMapKey {
    pub fn from_can_id(can_id: CanId) -> (r: TransfersMapKey)
        ensures
            r.kind == can_id.transfer_kind,
            r.source == can_id.source_node_id,
    {
        TransfersMapKey { kind: can_id.transfer_kind, source: can_id.source_node_id }
    }

    pub fn to_bits(&self) -> (r: u32)
        ensures
            r == key_bits(*self),
    {
        self.kind.ser() | (self.source.inner() as u32)
    }
}

impl From<CanId> for TransfersMapKey {
    fn from(can_id: CanId) -> (r: TransfersMapKey)
        ensures
            r == (TransfersMapKey { kind: can_id.transfer_kind, source: can_id.source_node_id }),
    {
        TransfersMapKey::from_can_id(can_id)
    }
}

impl vstd::std_specs::convert::FromSpecImpl<CanId> for TransfersMapKey {
    open spec fn obeys_from_spec() -> bool {
        true
    }

    open spec fn from_spec(can_id: CanId) -> TransfersMapKey {
        TransfersMapKey { kind: can_id.transfer_kind, source: can_id.source_node_id }
    }
}

/// One session: its state machine, its list of pieces, and its place in the readout order.
#[derive(Copy, Clone, PartialEq, Eq, Debug, Structural)]
pub struct Transfer {
    pub key: TransfersMapKey,
    pub transfer_machine: TransferMachine,
    pub first_piece_idx: Option<u16>,
    pub last_piece_idx: Option<u16>,
    /// Bytes of the last piece that belong to the transfer.
    pub last_piece_len: u8,
    pub priority: Priority,
    pub sequence_number: i16,
    pub last_changed_timestamp: u32,
}

impl Transfer {
    pub fn new(key: TransfersMapKey, priority: Priority, sequence_number: i16, time_now: u32) -> (r:
        Transfer)
        ensures
            r == (Transfer {
                key,
                transfer_machine: TransferMachine { state: State::Empty, transfer_id: None },
                first_piece_idx: None,
                last_piece_idx: None,
                last_piece_len: 0,
                priority,
                sequence_number,
                last_changed_timestamp: time_now,
            }),
    {
        Transfer {
            key,
            transfer_machine: TransferMachine::reset(),
            first_piece_idx: None,
            last_piece_idx: None,
            last_piece_len: 0,
            priority,
            sequence_number,
            last_changed_timestamp: time_now,
        }
    }
}

} // verus!
