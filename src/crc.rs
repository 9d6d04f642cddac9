use vstd::prelude::*;

verus! {

/// The CRC-16/CCITT-FALSE checksum of `data` (polynomial 0x1021, initial value 0xFFFF,
/// no reflection, no final xor).
pub uninterp spec fn crc16_ccitt_false(data: Seq<u8>) -> u16;

/// Relies on `crc_any::CRCu16::crc16ccitt_false`, `digest` and `get_crc`: a fresh
/// CRC-16/CCITT-FALSE state fed with `data` yields a checksum that depends on the bytes alone.
#[verifier::external_body]
pub(crate) fn crc16(data: &[u8]) -> (r: u16)
    ensures
        r == crc16_ccitt_false(data@),
{
    let mut crc = crc_any::CRCu16::crc16ccitt_false();
    crc.digest(data);
    crc.get_crc()
}

/// The two bytes of `c`, most significant first.
pub open spec fn be_bytes(c: u16) -> Seq<u8> {
    seq![(c >> 8u16) as u8, (c & 0xffu16) as u8]
}

} // verus!
