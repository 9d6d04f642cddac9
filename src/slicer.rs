use vstd::prelude::*;

use crate::crc::{be_bytes, crc16, crc16_ccitt_false};
use crate::tailbyte::{frame_kind, tail_byte_bits, Kind, TailByte, TailByteIter};
use crate::types::TransferId;

verus! {

/// How many frames carry a payload of `len` bytes: one if `len < threshold`, else enough
/// frames of `mtu - 1` data bytes for the payload and its two CRC bytes.
pub open spec fn frame_count_spec(len: nat, threshold: nat, mtu: nat) -> nat {
    if len < threshold {
        1
    } else {
        let k = (mtu - 1) as nat;
        (len + 2) / k + (if (len + 2) % k != 0 {
            1nat
        } else {
            0nat
        })
    }
}

/// The bytes that the frames of a transfer carry before their tail bytes: the payload,
/// followed by its CRC (most significant byte first) when it needs more than one frame.
pub open spec fn stream_of(payload: Seq<u8>, crc: u16, mtu: nat) -> Seq<u8> {
    if payload.len() < mtu {
        payload
    } else {
        payload + be_bytes(crc)
    }
}

pub open spec fn min_nat(a: nat, b: nat) -> nat {
    if a < b {
        a
    } else {
        b
    }
}

/// The part of `stream` that frame `k` carries when each frame holds `m` bytes.
pub open spec fn frame_data(stream: Seq<u8>, k: nat, m: nat) -> Seq<u8> {
    stream.subrange(
        min_nat(k * m, stream.len()) as int,
        min_nat((k + 1) * m, stream.len()) as int,
    )
}

/// The bytes of the payload that frame `k` carries, when each frame holds `m` bytes; the
/// rest of the frame is CRC bytes and the tail byte.
pub open spec fn payload_chunk(payload: Seq<u8>, k: nat, m: nat) -> Seq<u8> {
    payload.subrange(min_nat(k * m, payload.len()) as int, min_nat((k + 1) * m, payload.len()) as int)
}

/// The bytes of frame `k` of the transfer of `payload` with the given CRC and transfer id.
pub open spec fn frame_bytes(payload: Seq<u8>, crc: u16, id: TransferId, k: nat, mtu: nat) -> Seq<
    u8,
> {
    let n = frame_count_spec(payload.len(), mtu, mtu);
    frame_data(stream_of(payload, crc, mtu), k, (mtu - 1) as nat).push(
        tail_byte_bits(TailByte { kind: frame_kind(k, n), id }),
    )
}

/// The bytes of frame `k` of the transfer of `payload`.
pub open spec fn frame_of(payload: Seq<u8>, id: TransferId, k: nat, mtu: nat) -> Seq<u8> {
    frame_bytes(payload, crc16_ccitt_false(payload), id, k, mtu)
}

proof fn lemma_split_quotient(n: int, k: int, q: int, rem: int, t: int)
    requires
        k > 0,
        n >= 0,
        q == n / k,
        rem == n % k,
        t == rem + 2,
    ensures
        (n + 2) / k == q + t / k,
        (n + 2) % k == t % k,
{
    vstd::arithmetic::div_mod::lemma_fundamental_div_mod(n, k);
    vstd::arithmetic::div_mod::lemma_fundamental_div_mod(t, k);
    let q2 = t / k;
    let r2 = t % k;
    assert((q + q2) * k == q * k + q2 * k) by (nonlinear_arith);
    assert(n + 2 == (q + q2) * k + r2) by (nonlinear_arith)
        requires
            n == k * q + rem,
            t == k * q2 + r2,
            t == rem + 2,
            (q + q2) * k == q * k + q2 * k,
    ;
    vstd::arithmetic::div_mod::lemma_fundamental_div_mod_converse(n + 2, k, q + q2, r2);
}

/// The number of frames for a payload of `payload_len` bytes: one below `MTU` bytes, else
/// `ceil((payload_len + 2) / (mtu - 1))`.
pub fn frame_count<const MTU: usize>(payload_len: usize, mtu: usize) -> (r: usize)
    requires
        mtu >= 2,
        mtu == 2 ==> payload_len <= usize::MAX - 2,
    ensures
        r == frame_count_spec(payload_len as nat, MTU as nat, mtu as nat),
        r >= 1,
{
    if payload_len < MTU {
        1
    } else {
        let k = mtu - 1;
        let q = payload_len / k;
        let rem = payload_len % k;
        let t = rem + 2;
        proof {
            lemma_split_quotient(payload_len as int, k as int, q as int, rem as int, t as int);
            if k >= 2 {
                assert(q <= payload_len / 2) by (nonlinear_arith)
                    requires
                        k >= 2,
                        q == payload_len / k,
                ;
                assert(t / k <= 1) by (nonlinear_arith)
                    requires
                        k >= 2,
                        t <= k + 1,
                ;
            } else {
                assert(q == payload_len);
            }
            if t < k {
                assert(t % k == t) by (nonlinear_arith)
                    requires
                        t < k,
                        t >= 2,
                ;
            } else {
                assert(t / k >= 1) by (nonlinear_arith)
                    requires
                        t >= k,
                        k >= 1,
                ;
            }
        }
        q + t / k + (if t % k != 0 {
            1
        } else {
            0
        })
    }
}

/// A buffer of `N` bytes of which the first `used` count.
#[derive(Copy, Clone, PartialEq, Eq, Debug)]
pub struct OwnedSlice<const N: usize> {
    pub bytes: [u8; N],
    pub used: usize,
}

impl<const N: usize> View for OwnedSlice<N> {
    type V = Seq<u8>;

    open spec fn view(&self) -> Seq<u8> {
        self.bytes@.subrange(0, self.used as int)
    }
}

impl<const N: usize> OwnedSlice<N> {
    /// The bytes past `used` are zero.
    pub open spec fn zero_padded(&self) -> bool {
        forall|i: int| self.used <= i < N ==> self.bytes@[i] == 0
    }

    pub fn new_one(byte: u8) -> (r: Self)
        requires
            N >= 1,
        ensures
            r@ == seq![byte],
            r.used == 1,
            r.zero_padded(),
    {
        let mut bytes = [0u8; N];
        bytes[0] = byte;
        let r = OwnedSlice { bytes, used: 1 };
        assert(r@ =~= seq![byte]);
        r
    }

    pub fn new_two(byte0: u8, byte1: u8) -> (r: Self)
        requires
            N >= 2,
        ensures
            r@ == seq![byte0, byte1],
            r.used == 2,
            r.zero_padded(),
    {
        let mut bytes = [0u8; N];
        bytes[0] = byte0;
        bytes[1] = byte1;
        let r = OwnedSlice { bytes, used: 2 };
        assert(r@ =~= seq![byte0, byte1]);
        r
    }

    pub fn new_three(byte0: u8, byte1: u8, byte2: u8) -> (r: Self)
        requires
            N >= 3,
        ensures
            r@ == seq![byte0, byte1, byte2],
            r.used == 3,
            r.zero_padded(),
    {
        let mut bytes = [0u8; N];
        bytes[0] = byte0;
        bytes[1] = byte1;
        bytes[2] = byte2;
        let r = OwnedSlice { bytes, used: 3 };
        assert(r@ =~= seq![byte0, byte1, byte2]);
        r
    }

    pub fn new(bytes: [u8; N], used: usize) -> (r: Self)
        requires
            used <= N,
        ensures
            r.bytes == bytes,
            r.used == used,
    {
        OwnedSlice { bytes, used }
    }

    /// A copy of `bytes`, when they fit.
    pub fn from_slice(bytes: &[u8]) -> (r: Option<Self>)
        ensures
            r is Some <==> bytes@.len() <= N,
            r matches Some(s) ==> s@ == bytes@ && s.used == bytes@.len() && s.zero_padded(),
    {
        if bytes.len() <= N {
            let mut copy = [0u8; N];
            let mut i: usize = 0;
            while i < bytes.len()
                invariant
                    bytes@.len() <= N,
                    i <= bytes@.len(),
                    forall|j: int| 0 <= j < i ==> copy@[j] == bytes@[j],
                    forall|j: int| bytes@.len() <= j < N ==> copy@[j] == 0,
                decreases bytes@.len() - i,
            {
                copy[i] = bytes[i];
                i = i + 1;
            }
            let r = OwnedSlice { bytes: copy, used: bytes.len() };
            assert(r@ =~= bytes@);
            Some(r)
        } else {
            None
        }
    }

    /// The bytes in use.
    pub fn as_slice(&self) -> (r: &[u8])
        requires
            self.used <= N,
        ensures
            r@ == self@,
    {
        let all: &[u8] = self.bytes.as_slice();
        &all[0..self.used]
    }
}

/// Cuts a payload into frames: each carries up to `MTU_M1` bytes of the payload and its CRC,
/// and a tail byte.
pub struct Slicer<'a, const MTU: usize, const MTU_M1: usize> {
    pub(crate) payload: &'a [u8],
    pub(crate) crc: u16,
    /// 2 for a transfer of several frames, which carries the CRC; 0 otherwise.
    pub(crate) crc_len: usize,
    /// Where the next frame starts in the stream of payload and CRC bytes.
    pub(crate) offset: usize,
    pub(crate) tail_bytes: TailByteIter,
}

impl<'a, const MTU: usize, const MTU_M1: usize> Slicer<'a, MTU, MTU_M1> {
    pub open(crate) spec fn payload_view(&self) -> Seq<u8> {
        self.payload@
    }

    pub open(crate) spec fn crc_value(&self) -> u16 {
        self.crc
    }

    pub open(crate) spec fn transfer_id(&self) -> TransferId {
        self.tail_bytes.transfer_id()
    }

    /// How many frames were handed out.
    pub open(crate) spec fn sent(&self) -> nat {
        self.tail_bytes.position()
    }

    /// How many frames the transfer has.
    pub open(crate) spec fn total(&self) -> nat {
        self.tail_bytes.frame_count()
    }

    pub open(crate) spec fn wf(&self) -> bool {
        let l = self.payload@.len();
        let s = (l + self.crc_len) as nat;
        &&& MTU == MTU_M1 + 1
        &&& MTU_M1 >= 1
        &&& l + MTU + 2 <= usize::MAX
        &&& self.crc_len == (if l < MTU {
            0nat
        } else {
            2nat
        })
        &&& self.tail_bytes.wf()
        &&& self.total() == frame_count_spec(l, MTU as nat, MTU as nat)
        &&& self.offset == min_nat(self.sent() * (MTU_M1 as nat), s)
    }

    /// The frames of `payload`, whose CRC is `crc`.
    pub fn with_crc(payload: &'a [u8], transfer_id: TransferId, crc: u16) -> (r: Self)
        requires
            MTU == MTU_M1 + 1,
            MTU_M1 >= 1,
            payload@.len() + MTU + 2 <= usize::MAX,
        ensures
            r.wf(),
            r.payload_view() == payload@,
            r.crc_value() == crc,
            r.transfer_id() == transfer_id,
            r.sent() == 0,
    {
        let crc_len: usize = if payload.len() < MTU {
            0
        } else {
            2
        };
        let tail_bytes = TailByte::new_multi_frame(
            transfer_id,
            frame_count::<MTU>(payload.len(), MTU),
        );
        Slicer { payload, crc, crc_len, offset: 0, tail_bytes }
    }

    /// The frames of `payload`.
    pub fn new(payload: &'a [u8], transfer_id: TransferId) -> (r: Self)
        requires
            MTU == MTU_M1 + 1,
            MTU_M1 >= 1,
            payload@.len() + MTU + 2 <= usize::MAX,
        ensures
            r.wf(),
            r.payload_view() == payload@,
            payload@.len() >= MTU ==> r.crc_value() == crc16_ccitt_false(payload@),
            r.transfer_id() == transfer_id,
            r.sent() == 0,
    {
        // A single frame is protected by the CAN bus CRC alone.
        let crc = if payload.len() < MTU {
            0
        } else {
            crc16(payload)
        };
        Slicer::with_crc(payload, transfer_id, crc)
    }

    /// The single frame of a transfer of `payload` with the next transfer id, which then
    /// moves on.
    pub fn new_single(payload: &OwnedSlice<MTU_M1>, transfer_id: &mut TransferId) -> (r:
        OwnedSlice<MTU>)
        requires
            MTU == MTU_M1 + 1,
            payload.used <= MTU_M1,
        ensures
            r@ == payload@.push(
                tail_byte_bits(TailByte { kind: Kind::SingleFrame, id: *old(transfer_id) }),
            ),
            r.zero_padded(),
            final(transfer_id).spec_inner() == (if old(transfer_id).spec_inner() == 31 {
                0
            } else {
                (old(transfer_id).spec_inner() + 1) as u8
            }),
    {
        let tail_byte = TailByte::new_single_frame(*transfer_id);
        transfer_id.increment();
        let mut frame_bytes = [0u8; MTU];
        let mut i: usize = 0;
        while i < payload.used
            invariant
                payload.used <= MTU_M1,
                MTU == MTU_M1 + 1,
                i <= payload.used,
                forall|j: int| 0 <= j < i ==> frame_bytes@[j] == payload.bytes@[j],
                forall|j: int| payload.used <= j < MTU ==> frame_bytes@[j] == 0,
            decreases payload.used - i,
        {
            frame_bytes[i] = payload.bytes[i];
            i = i + 1;
        }
        frame_bytes[payload.used] = tail_byte.as_byte();
        let r = OwnedSlice::new(frame_bytes, payload.used + 1);
        assert(r@ =~= payload@.push(tail_byte_bits(tail_byte)));
        r
    }

    pub fn frames_ref(self) -> (r: RefSlicer<'a, MTU, MTU_M1>)
        ensures
            r.state() == self,
    {
        RefSlicer { slicer: self }
    }

    pub fn frames_owned(self) -> (r: OwnedSlicer<'a, MTU, MTU_M1>)
        ensures
            r.state() == self,
    {
        OwnedSlicer { slicer: self.frames_ref() }
    }
}

/// Hands out each frame as a part of the payload and the bytes that follow it.
pub struct RefSlicer<'a, const MTU: usize, const MTU_M1: usize> {
    pub(crate) slicer: Slicer<'a, MTU, MTU_M1>,
}

impl<'a, const MTU: usize, const MTU_M1: usize> RefSlicer<'a, MTU, MTU_M1> {
    pub open(crate) spec fn state(&self) -> Slicer<'a, MTU, MTU_M1> {
        self.slicer
    }

    /// The next frame: the bytes of the payload it carries, then its CRC bytes and tail byte.
    pub fn next(&mut self) -> (r: Option<(&'a [u8], OwnedSlice<3>)>)
        requires
            old(self).state().wf(),
        ensures
            final(self).state().wf(),
            final(self).state().payload_view() == old(self).state().payload_view(),
            final(self).state().crc_value() == old(self).state().crc_value(),
            final(self).state().transfer_id() == old(self).state().transfer_id(),
            final(self).state().total() == old(self).state().total(),
            old(self).state().sent() < old(self).state().total() ==> {
                &&& r matches Some((chunk, extra)) && {
                    &&& extra.used <= 3
                    &&& chunk@ == payload_chunk(
                        old(self).state().payload_view(),
                        old(self).state().sent(),
                        MTU_M1 as nat,
                    )
                    &&& chunk@ + extra@ == frame_bytes(
                        old(self).state().payload_view(),
                        old(self).state().crc_value(),
                        old(self).state().transfer_id(),
                        old(self).state().sent(),
                        MTU as nat,
                    )
                }
                &&& final(self).state().sent() == old(self).state().sent() + 1
            },
            old(self).state().sent() >= old(self).state().total() ==> r is None,
    {
        let ghost k = self.slicer.sent();
        match self.slicer.tail_bytes.next() {
            None => None,
            Some(tail) => {
                let payload: &'a [u8] = self.slicer.payload;
                let l = payload.len();
                let s_len = l + self.slicer.crc_len;
                let start = self.slicer.offset;
                let end = if start + MTU_M1 < s_len {
                    start + MTU_M1
                } else {
                    s_len
                };
                let c_start = if start < l {
                    start
                } else {
                    l
                };
                let c_end = if end < l {
                    end
                } else {
                    l
                };
                let chunk = &payload[c_start..c_end];
                let ghost stream = stream_of(payload@, self.slicer.crc, MTU as nat);
                let crc = self.slicer.crc;
                let x_start = if start > l {
                    start
                } else if l < end {
                    l
                } else {
                    end
                };
                let mut extra = [0u8; 3];
                let mut used: usize = 0;
                let mut i = x_start;
                assert(stream.len() == s_len);
                while i < end
                    invariant
                        x_start <= i <= end,
                        end <= s_len,
                        s_len == l + self.slicer.crc_len,
                        self.slicer.crc_len == 0 || self.slicer.crc_len == 2,
                        x_start == end || l <= x_start,
                        l == payload@.len(),
                        stream == stream_of(payload@, crc, MTU as nat),
                        stream.len() == s_len,
                        used == i - x_start,
                        used <= 2,
                        extra@.subrange(0, used as int) == stream.subrange(x_start as int, i as int),
                    decreases end - i,
                {
                    assert((crc >> 8u16) < 256 && (crc & 0xffu16) < 256) by (bit_vector);
                    let b = if i - l == 0 {
                        (crc >> 8u16) as u8
                    } else {
                        (crc & 0xffu16) as u8
                    };
                    assert(b == stream[i as int]);
                    extra[used] = b;
                    proof {
                        assert(extra@.subrange(0, used + 1) =~= stream.subrange(
                            x_start as int,
                            i + 1,
                        ));
                    }
                    used = used + 1;
                    i = i + 1;
                }
                let tail_bits = tail.as_byte();
                extra[used] = tail_bits;
                let tail_part = OwnedSlice::new(extra, used + 1);
                proof {
                    let m = MTU_M1 as nat;
                    assert((k + 1) * m == k * m + m) by (nonlinear_arith);
                    assert(start == min_nat(k * m, s_len as nat));
                    assert(end == min_nat((k + 1) * m, s_len as nat));
                    let data = frame_data(stream, k, m);
                    assert(data =~= stream.subrange(start as int, end as int));
                    assert(chunk@ =~= stream.subrange(c_start as int, c_end as int));
                    let tb = tail_byte_bits(
                        TailByte {
                            kind: frame_kind(k, self.slicer.total()),
                            id: self.slicer.transfer_id(),
                        },
                    );
                    assert(tail_bits == tb);
                    assert(tail_part@ =~= stream.subrange(x_start as int, end as int).push(tb));
                    if start > l {
                        assert(chunk@ =~= Seq::<u8>::empty());
                        assert(chunk@ + stream.subrange(x_start as int, end as int) =~= data);
                    } else {
                        assert(c_end == x_start);
                        assert(chunk@ + stream.subrange(x_start as int, end as int) =~= data);
                    }
                    assert(chunk@ + tail_part@ =~= data.push(
                        tail_byte_bits(
                            TailByte {
                                kind: frame_kind(k, self.slicer.total()),
                                id: self.slicer.transfer_id(),
                            },
                        ),
                    ));
                }
                self.slicer.offset = end;
                Some((chunk, tail_part))
            },
        }
    }
}

/// Hands out each frame as a buffer of `MTU` bytes, padded with zeroes.
pub struct OwnedSlicer<'a, const MTU: usize, const MTU_M1: usize> {
    pub(crate) slicer: RefSlicer<'a, MTU, MTU_M1>,
}

impl<'a, const MTU: usize, const MTU_M1: usize> OwnedSlicer<'a, MTU, MTU_M1> {
    pub open(crate) spec fn state(&self) -> Slicer<'a, MTU, MTU_M1> {
        self.slicer.slicer
    }

    /// The next frame.
    pub fn next(&mut self) -> (r: Option<OwnedSlice<MTU>>)
        requires
            old(self).state().wf(),
        ensures
            final(self).state().wf(),
            final(self).state().payload_view() == old(self).state().payload_view(),
            final(self).state().crc_value() == old(self).state().crc_value(),
            final(self).state().transfer_id() == old(self).state().transfer_id(),
            final(self).state().total() == old(self).state().total(),
            old(self).state().sent() < old(self).state().total() ==> {
                &&& r matches Some(f) && {
                    &&& f.used <= MTU
                    &&& f.zero_padded()
                    &&& f@ == frame_bytes(
                        old(self).state().payload_view(),
                        old(self).state().crc_value(),
                        old(self).state().transfer_id(),
                        old(self).state().sent(),
                        MTU as nat,
                    )
                }
                &&& final(self).state().sent() == old(self).state().sent() + 1
            },
            old(self).state().sent() >= old(self).state().total() ==> r is None,
    {
        match self.slicer.next() {
            Some((a, b)) => {
                let ghost whole = a@ + b@;
                proof {
                    lemma_frame_len(
                        self.slicer.slicer.payload_view(),
                        self.slicer.slicer.crc_value(),
                        self.slicer.slicer.transfer_id(),
                        (self.slicer.slicer.sent() - 1) as nat,
                        MTU as nat,
                    );
                }
                let mut frame = [0u8; MTU];
                let mut i: usize = 0;
                while i < a.len()
                    invariant
                        i <= a@.len(),
                        a@.len() + b.used <= MTU,
                        b.used <= 3,
                        forall|j: int| 0 <= j < i ==> frame@[j] == a@[j],
                        forall|j: int| a@.len() <= j < MTU ==> frame@[j] == 0,
                    decreases a@.len() - i,
                {
                    frame[i] = a[i];
                    i = i + 1;
                }
                let mut j: usize = 0;
                while j < b.used
                    invariant
                        j <= b.used,
                        a@.len() + b.used <= MTU,
                        b.used <= 3,
                        forall|x: int| 0 <= x < a@.len() ==> frame@[x] == a@[x],
                        forall|x: int| 0 <= x < j ==> frame@[a@.len() + x] == b.bytes@[x],
                        forall|x: int| a@.len() + j <= x < MTU ==> frame@[x] == 0,
                    decreases b.used - j,
                {
                    frame[a.len() + j] = b.bytes[j];
                    j = j + 1;
                }
                let f = OwnedSlice::new(frame, a.len() + b.used);
                assert(f@ =~= whole);
                Some(f)
            },
            None => None,
        }
    }
}

/// The frame counts of classic CAN, whose frames hold 8 bytes: one frame up to 7 bytes,
/// two up to 12, three up to 19, four up to 26.
pub proof fn lemma_frame_count_classic_can(n: nat)
    ensures
        n <= 7 ==> frame_count_spec(n, 8, 8) == 1,
        8 <= n <= 12 ==> frame_count_spec(n, 8, 8) == 2,
        13 <= n <= 19 ==> frame_count_spec(n, 8, 8) == 3,
        20 <= n <= 26 ==> frame_count_spec(n, 8, 8) == 4,
{
    let t = n + 2;
    if 8 <= n <= 12 {
        assert(t / 7 + (if t % 7 != 0 {
            1nat
        } else {
            0nat
        }) == 2) by (nonlinear_arith)
            requires
                10 <= t <= 14,
        ;
    }
    if 13 <= n <= 19 {
        assert(t / 7 + (if t % 7 != 0 {
            1nat
        } else {
            0nat
        }) == 3) by (nonlinear_arith)
            requires
                15 <= t <= 21,
        ;
    }
    if 20 <= n <= 26 {
        assert(t / 7 + (if t % 7 != 0 {
            1nat
        } else {
            0nat
        }) == 4) by (nonlinear_arith)
            requires
                22 <= t <= 28,
        ;
    }
}

/// The data of the first `n` frames, one after the other.
///
/// (`lemma_frames_concat_prefix`: that is the first `n * m` bytes of the stream.)
pub open spec fn frames_concat(stream: Seq<u8>, m: nat, n: nat) -> Seq<u8>
    decreases n,
{
    if n == 0 {
        Seq::empty()
    } else {
        frames_concat(stream, m, (n - 1) as nat) + frame_data(stream, (n - 1) as nat, m)
    }
}

pub proof fn lemma_frames_concat_prefix(stream: Seq<u8>, m: nat, n: nat)
    ensures
        frames_concat(stream, m, n) == stream.subrange(0, min_nat(n * m, stream.len()) as int),
    decreases n,
{
    if n == 0 {
        assert(0 * m == 0);
        assert(stream.subrange(0, 0) =~= Seq::<u8>::empty());
    } else {
        let k = (n - 1) as nat;
        lemma_frames_concat_prefix(stream, m, k);
        assert((k + 1) * m == k * m + m) by (nonlinear_arith);
        assert(k * m <= n * m) by (nonlinear_arith)
            requires
                k <= n,
        ;
        assert(stream.subrange(0, min_nat(k * m, stream.len()) as int) + frame_data(stream, k, m)
            =~= stream.subrange(0, min_nat(n * m, stream.len()) as int));
    }
}

/// The frames of a transfer carry its payload, then its CRC when it has several frames,
/// in order and in full: their data, one after the other, is exactly that stream.
pub proof fn lemma_frames_cover_stream(payload: Seq<u8>, crc: u16, mtu: nat)
    requires
        mtu >= 2,
    ensures
        frames_concat(
            stream_of(payload, crc, mtu),
            (mtu - 1) as nat,
            frame_count_spec(payload.len(), mtu, mtu),
        ) == stream_of(payload, crc, mtu),
{
    let stream = stream_of(payload, crc, mtu);
    let m = (mtu - 1) as nat;
    let n = frame_count_spec(payload.len(), mtu, mtu);
    lemma_frames_concat_prefix(stream, m, n);
    if payload.len() < mtu {
        assert(n * m == m);
    } else {
        let s = stream.len();
        vstd::arithmetic::div_mod::lemma_fundamental_div_mod(s as int, m as int);
        let q = s / m;
        if s % m != 0 {
            assert(n == q + 1);
            assert(n * m == m * q + m) by (nonlinear_arith)
                requires
                    n == q + 1,
            ;
        } else {
            assert(n == q);
            assert(s == m * q);
            assert(n * m == m * q) by (nonlinear_arith)
                requires
                    n == q,
            ;
        }
    }
    assert(stream.subrange(0, stream.len() as int) =~= stream);
}

/// A frame carries at most `mtu` bytes.
proof fn lemma_frame_len(payload: Seq<u8>, crc: u16, id: TransferId, k: nat, mtu: nat)
    requires
        mtu >= 2,
    ensures
        frame_bytes(payload, crc, id, k, mtu).len() <= mtu,
{
    let m = (mtu - 1) as nat;
    let s = stream_of(payload, crc, mtu).len();
    assert((k + 1) * m == k * m + m) by (nonlinear_arith);
}

} // verus!
