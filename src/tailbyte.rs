use vstd::prelude::*;

use crate::types::TransferId;

verus! {

/// The last byte of every frame: start, end and toggle bits, and the transfer identifier.
#[derive(Copy, Clone, PartialEq, Eq, Debug, Structural)]
pub struct TailByte {
    pub kind: Kind,
    pub id: TransferId,
}

/// The top three bits of a tail byte: start, end and toggle.
#[derive(Copy, Clone, PartialEq, Eq, Debug, Structural)]
pub enum Kind {
    /// start = 0, end = 0, toggle = 0
    MiddleT0,
    /// start = 0, end = 0, toggle = 1
    MiddleT1,
    /// start = 0, end = 1, toggle = 0
    EndT0,
    /// start = 0, end = 1, toggle = 1
    EndT1,
    /// start = 1, end = 0, toggle = 0
    MultiFrameV0,
    /// start = 1, end = 0, toggle = 1
    MultiFrame,
    /// start = 1, end = 1, toggle = 0
    SingleFrameV0,
    /// start = 1, end = 1, toggle = 1
    SingleFrame,
}

impl Kind {
    /// The three bits start, end, toggle as a number.
    pub open spec fn code(&self) -> u8 {
        match self {
            Kind::MiddleT0 => 0,
            Kind::MiddleT1 => 1,
            Kind::EndT0 => 2,
            Kind::EndT1 => 3,
            Kind::MultiFrameV0 => 4,
            Kind::MultiFrame => 5,
            Kind::SingleFrameV0 => 6,
            Kind::SingleFrame => 7,
        }
    }

    #[verifier::when_used_as_spec(code)]
    pub fn as_u8(&self) -> (r: u8)
        ensures
            r == self.code(),
            r <= 7,
    {
        match self {
            Kind::MiddleT0 => 0,
            Kind::MiddleT1 => 1,
            Kind::EndT0 => 2,
            Kind::EndT1 => 3,
            Kind::MultiFrameV0 => 4,
            Kind::MultiFrame => 5,
            Kind::SingleFrameV0 => 6,
            Kind::SingleFrame => 7,
        }
    }
}

/// The kind whose code is the low three bits of `val`.
pub open spec fn kind_of(val: u8) -> Kind {
    let c = val & 7;
    if c == 0 {
        Kind::MiddleT0
    } else if c == 1 {
        Kind::MiddleT1
    } else if c == 2 {
        Kind::EndT0
    } else if c == 3 {
        Kind::EndT1
    } else if c == 4 {
        Kind::MultiFrameV0
    } else if c == 5 {
        Kind::MultiFrame
    } else if c == 6 {
        Kind::SingleFrameV0
    } else {
        Kind::SingleFrame
    }
}

impl From<u8> for Kind {
    fn from(val: u8) -> (r: Kind)
        ensures
            r == kind_of(val),
    {
        let c = val & 7;
        if c == 0 {
            Kind::MiddleT0
        } else if c == 1 {
            Kind::MiddleT1
        } else if c == 2 {
            Kind::EndT0
        } else if c == 3 {
            Kind::EndT1
        } else if c == 4 {
            Kind::MultiFrameV0
        } else if c == 5 {
            Kind::MultiFrame
        } else if c == 6 {
            Kind::SingleFrameV0
        } else {
            Kind::SingleFrame
        }
    }
}

impl vstd::std_specs::convert::FromSpecImpl<u8> for Kind {
    open spec fn obeys_from_spec() -> bool {
        true
    }

    open spec fn from_spec(val: u8) -> Kind {
        kind_of(val)
    }
}

/// The byte that encodes `t`.
pub open spec fn tail_byte_bits(t: TailByte) -> u8 {
    ((t.kind.code() << 5u8) | t.id.spec_inner()) as u8
}

/// `t` is what the byte `b` decodes to.
pub open spec fn decodes_tail(b: u8, t: TailByte) -> bool {
    t.kind == kind_of(b >> 5u8) && t.id.spec_inner() == b & 31
}

/// The kind of frame `i` of a transfer of `n` frames: the toggle bit is 1 on
/// even frames and 0 on odd ones.
pub open spec fn frame_kind(i: nat, n: nat) -> Kind {
    if n <= 1 {
        Kind::SingleFrame
    } else if i == 0 {
        Kind::MultiFrame
    } else if i + 1 == n {
        if i % 2 == 1 {
            Kind::EndT0
        } else {
            Kind::EndT1
        }
    } else if i % 2 == 1 {
        Kind::MiddleT0
    } else {
        Kind::MiddleT1
    }
}

impl TailByte {
    pub fn new_single_frame(id: TransferId) -> (r: TailByte)
        ensures
            r == (TailByte { kind: Kind::SingleFrame, id }),
    {
        TailByte { kind: Kind::SingleFrame, id }
    }

    /// Same as `new_single_frame`.
    pub fn single_frame_transfer(id: TransferId) -> (r: TailByte)
        ensures
            r == (TailByte { kind: Kind::SingleFrame, id }),
    {
        TailByte::new_single_frame(id)
    }

    /// The tail bytes of a transfer of `frame_count` frames, in order.
    pub fn new_multi_frame(id: TransferId, frame_count: usize) -> (r: TailByteIter)
        ensures
            r.wf(),
            r.transfer_id() == id,
            r.position() == 0,
            r.frame_count() == (if frame_count == 0 {
                1
            } else {
                frame_count
            }),
    {
        // A transfer has at least one frame: a count of 0 gives one single-frame tail byte.
        let frame_count = if frame_count == 0 {
            1
        } else {
            frame_count
        };
        TailByteIter {
            tail_byte: TailByte {
                kind: if frame_count > 1 {
                    Kind::MultiFrame
                } else {
                    Kind::SingleFrame
                },
                id,
            },
            current_frame: 0,
            frame_count,
        }
    }

    /// Same as `new_multi_frame`.
    pub fn multi_frame_transfer(id: TransferId, frame_count: usize) -> (r: TailByteIter)
        ensures
            r.wf(),
            r.transfer_id() == id,
            r.position() == 0,
            r.frame_count() == (if frame_count == 0 {
                1
            } else {
                frame_count
            }),
    {
        TailByte::new_multi_frame(id, frame_count)
    }

    pub fn as_byte(&self) -> (r: u8)
        ensures
            r == tail_byte_bits(*self),
    {
        (self.kind.as_u8() << 5u8) | self.id.inner()
    }

    pub fn kind(&self) -> (r: Kind)
        ensures
            r == self.kind,
    {
        self.kind
    }

    pub fn is_multi_frame_middle(&self) -> (r: bool)
        ensures
            r <==> (self.kind == Kind::MiddleT0 || self.kind == Kind::MiddleT1),
    {
        match self.kind {
            Kind::MiddleT0 | Kind::MiddleT1 => true,
            _ => false,
        }
    }

    pub fn is_multi_frame_end(&self) -> (r: bool)
        ensures
            r <==> (self.kind == Kind::EndT0 || self.kind == Kind::EndT1),
    {
        match self.kind {
            Kind::EndT0 | Kind::EndT1 => true,
            _ => false,
        }
    }

    pub fn from_byte(byte: u8) -> (r: TailByte)
        ensures
            decodes_tail(byte, r),
    {
        let id = byte & 31;
        assert(byte & 31 <= 31) by (bit_vector);
        TailByte { kind: Kind::from(byte >> 5u8), id: TransferId::new(id).unwrap() }
    }
}

impl From<u8> for TailByte {
    fn from(byte: u8) -> (r: TailByte)
        ensures
            decodes_tail(byte, r),
            r == (choose|t: TailByte| decodes_tail(byte, t)),
    {
        let r = TailByte::from_byte(byte);
        proof {
            let c = choose|t: TailByte| decodes_tail(byte, t);
            assert(r.id == c.id);
        }
        r
    }
}

impl vstd::std_specs::convert::FromSpecImpl<u8> for TailByte {
    open spec fn obeys_from_spec() -> bool {
        true
    }

    open spec fn from_spec(byte: u8) -> TailByte {
        choose|t: TailByte| decodes_tail(byte, t)
    }
}

impl From<TailByte> for u8 {
    fn from(t: TailByte) -> (r: u8)
        ensures
            r == tail_byte_bits(t),
    {
        t.as_byte()
    }
}

impl vstd::std_specs::convert::FromSpecImpl<TailByte> for u8 {
    open spec fn obeys_from_spec() -> bool {
        true
    }

    open spec fn from_spec(t: TailByte) -> u8 {
        tail_byte_bits(t)
    }
}

/// Decoding the byte of a tail byte gives the tail byte back.
pub proof fn lemma_tail_byte_round_trip(t: TailByte)
    requires
        t.id.spec_inner() <= 31,
    ensures
        decodes_tail(tail_byte_bits(t), t),
{
    let k = t.kind.code();
    let i = t.id.spec_inner();
    assert(k <= 7 && i <= 31 ==> (((k << 5u8) | i) as u8 >> 5u8) & 7 == k && ((k << 5u8) | i) as u8
        & 31 == i) by (bit_vector);
}

/// Produces the tail bytes of a transfer one by one.
pub struct TailByteIter {
    pub(crate) tail_byte: TailByte,
    pub(crate) current_frame: usize,
    pub(crate) frame_count: usize,
}

impl TailByteIter {
    pub open(crate) spec fn transfer_id(&self) -> TransferId {
        self.tail_byte.id
    }

    /// How many tail bytes were handed out.
    pub open(crate) spec fn position(&self) -> nat {
        self.current_frame as nat
    }

    pub open(crate) spec fn frame_count(&self) -> nat {
        self.frame_count as nat
    }

    pub open(crate) spec fn wf(&self) -> bool {
        &&& self.current_frame <= self.frame_count
        &&& self.current_frame == 0 ==> self.tail_byte.kind == (if self.frame_count > 1 {
            Kind::MultiFrame
        } else {
            Kind::SingleFrame
        })
        &&& self.current_frame > 0 ==> self.tail_byte.kind == frame_kind(
            (self.current_frame - 1) as nat,
            self.frame_count as nat,
        )
    }

    /// The next tail byte: that of frame `position()`, until `frame_count()` were handed out.
    pub fn next(&mut self) -> (r: Option<TailByte>)
        requires
            old(self).wf(),
        ensures
            final(self).wf(),
            final(self).transfer_id() == old(self).transfer_id(),
            final(self).frame_count() == old(self).frame_count(),
            old(self).position() < old(self).frame_count() ==> {
                &&& r == Some(
                    TailByte {
                        kind: frame_kind(old(self).position(), old(self).frame_count()),
                        id: old(self).transfer_id(),
                    },
                )
                &&& final(self).position() == old(self).position() + 1
            },
            old(self).position() == old(self).frame_count() ==> {
                &&& r is None
                &&& final(self).position() == old(self).position()
            },
    {
        if self.current_frame == self.frame_count {
            None
        } else {
            if self.current_frame == self.frame_count - 1 && self.tail_byte.kind
                != Kind::SingleFrame {
                self.tail_byte.kind =
                if self.tail_byte.kind == Kind::MiddleT0 {
                    Kind::EndT1
                } else {
                    Kind::EndT0
                };
            } else if self.current_frame == 1 {
                self.tail_byte.kind = Kind::MiddleT0;
            } else if self.current_frame != 0 {
                self.tail_byte.kind =
                if self.tail_byte.kind == Kind::MiddleT0 {
                    Kind::MiddleT1
                } else {
                    Kind::MiddleT0
                };
            }
            self.current_frame = self.current_frame + 1;
            Some(self.tail_byte)
        }
    }
}

} // verus!
