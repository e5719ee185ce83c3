//! The twelve-byte, bit-packed message header, and big-endian integers.
use vstd::prelude::*;

use crate::error::DnsError;

verus! {

/// Number of bytes of the fixed message header.
pub const HEADER_LEN: usize = 12;

/// The fixed, bit-packed message header.
#[derive(Clone, Copy, Debug, PartialEq, Eq, Structural)]
pub struct DnsHeader {
    /// Packet id.
    pub id: u16,
    /// Query (false) or response (true).
    pub qr: bool,
    /// Operation code (4 bits).
    pub opcode: u8,
    /// Authoritative answer.
    pub aa: bool,
    /// Truncated message.
    pub tc: bool,
    /// Recursion desired.
    pub rd: bool,
    /// Recursion available.
    pub ra: bool,
    /// Reserved (3 bits).
    pub z: u8,
    /// Response code (4 bits).
    pub rcode: u8,
    /// Question count.
    pub qdcount: u16,
    /// Answer count.
    pub ancount: u16,
    /// Authority count.
    pub nscount: u16,
    /// Additional count.
    pub arcount: u16,
}

/// Big-endian 16-bit value at `p`.
pub open spec fn be16(b: Seq<u8>, p: int) -> u16 {
    (b[p] as int * 256 + b[p + 1] as int) as u16
}

/// Big-endian 32-bit value at `p`.
pub open spec fn be32(b: Seq<u8>, p: int) -> u32 {
    (b[p] as int * 0x100_0000 + b[p + 1] as int * 0x1_0000 + b[p + 2] as int * 0x100
        + b[p + 3] as int) as u32
}

/// The two big-endian bytes of `v`.
pub open spec fn u16_bytes(v: u16) -> Seq<u8> {
    seq![(v / 256) as u8, (v % 256) as u8]
}

/// The four big-endian bytes of `v`.
pub open spec fn u32_bytes(v: u32) -> Seq<u8> {
    seq![(v / 0x100_0000) as u8, ((v / 0x1_0000) % 256) as u8, ((v / 256) % 256) as u8, (v % 256) as u8]
}

pub open spec fn bit(b: bool, weight: int) -> int {
    if b { weight } else { 0 }
}

/// Third header byte: qr, opcode, aa, tc, rd from the high bit down.
pub open spec fn flags_hi(h: DnsHeader) -> u8 {
    (bit(h.qr, 128) + h.opcode as int * 8 + bit(h.aa, 4) + bit(h.tc, 2) + bit(h.rd, 1)) as u8
}

/// Fourth header byte: ra, z, rcode from the high bit down.
pub open spec fn flags_lo(h: DnsHeader) -> u8 {
    (bit(h.ra, 128) + h.z as int * 16 + h.rcode as int) as u8
}

/// Whether every bit field of `h` fits its width.
pub open spec fn header_fields_fit(h: DnsHeader) -> bool {
    h.opcode < 16 && h.z < 8 && h.rcode < 16
}

/// The twelve wire bytes of `h`.
pub open spec fn header_bytes(h: DnsHeader) -> Seq<u8> {
    u16_bytes(h.id) + seq![flags_hi(h), flags_lo(h)] + u16_bytes(h.qdcount) + u16_bytes(h.ancount)
        + u16_bytes(h.nscount) + u16_bytes(h.arcount)
}

/// The header that the twelve bytes at `p` describe.
pub open spec fn header_from(b: Seq<u8>, p: int) -> DnsHeader {
    let hi = b[p + 2];
    let lo = b[p + 3];
    DnsHeader {
        id: be16(b, p),
        qr: hi >= 128,
        opcode: (hi / 8) % 16,
        aa: (hi / 4) % 2 == 1,
        tc: (hi / 2) % 2 == 1,
        rd: hi % 2 == 1,
        ra: lo >= 128,
        z: (lo / 16) % 8,
        rcode: lo % 16,
        qdcount: be16(b, p + 4),
        ancount: be16(b, p + 6),
        nscount: be16(b, p + 8),
        arcount: be16(b, p + 10),
    }
}

/// Decoding the header at `p`: the header and the position after it.
pub open spec fn header_at(b: Seq<u8>, p: int) -> Result<(DnsHeader, int), DnsError> {
    if 0 <= p && p + 12 <= b.len() {
        Ok((header_from(b, p), p + 12))
    } else {
        Err(DnsError::TruncatedInput)
    }
}

/// Reads the big-endian 16-bit value at `p`.
pub fn read_u16(buf: &[u8], p: usize) -> (r: u16)
    requires
        p + 2 <= buf@.len(),
    ensures
        r == be16(buf@, p as int),
{
    (buf[p] as u16) * 256 + (buf[p + 1] as u16)
}

/// Reads the big-endian 32-bit value at `p`.
pub fn read_u32(buf: &[u8], p: usize) -> (r: u32)
    requires
        p + 4 <= buf@.len(),
    ensures
        r == be32(buf@, p as int),
{
    (buf[p] as u32) * 0x100_0000 + (buf[p + 1] as u32) * 0x1_0000 + (buf[p + 2] as u32) * 0x100
        + (buf[p + 3] as u32)
}

/// Appends the big-endian bytes of `v`.
pub fn write_u16(out: &mut Vec<u8>, v: u16)
    ensures
        final(out)@ == old(out)@ + u16_bytes(v),
{
    out.push((v / 256) as u8);
    out.push((v % 256) as u8);
    assert(final(out)@ =~= old(out)@ + u16_bytes(v));
}

/// Appends the big-endian bytes of `v`.
pub fn write_u32(out: &mut Vec<u8>, v: u32)
    ensures
        final(out)@ == old(out)@ + u32_bytes(v),
{
    out.push((v / 0x100_0000) as u8);
    out.push(((v / 0x1_0000) % 256) as u8);
    out.push(((v / 256) % 256) as u8);
    out.push((v % 256) as u8);
    assert(final(out)@ =~= old(out)@ + u32_bytes(v));
}

impl DnsHeader {
    /// Decodes the twelve header bytes at `pos`; returns the header and the
    /// position after it.
    pub fn decode(buf: &[u8], pos: usize) -> (r: Result<(DnsHeader, usize), DnsError>)
        ensures
            match header_at(buf@, pos as int) {
                Ok((h, e)) => r matches Ok((x, n)) && x == h && n == e,
                Err(e) => r == Err::<(DnsHeader, usize), DnsError>(e),
            },
    {
        if pos > buf.len() || buf.len() - pos < HEADER_LEN {
            return Err(DnsError::TruncatedInput);
        }
        let hi = buf[pos + 2];
        let lo = buf[pos + 3];
        let h = DnsHeader {
            id: read_u16(buf, pos),
            qr: hi >= 128,
            opcode: (hi / 8) % 16,
            aa: (hi / 4) % 2 == 1,
            tc: (hi / 2) % 2 == 1,
            rd: hi % 2 == 1,
            ra: lo >= 128,
            z: (lo / 16) % 8,
            rcode: lo % 16,
            qdcount: read_u16(buf, pos + 4),
            ancount: read_u16(buf, pos + 6),
            nscount: read_u16(buf, pos + 8),
            arcount: read_u16(buf, pos + 10),
        };
        Ok((h, pos + HEADER_LEN))
    }

    /// Appends the twelve header bytes; fails when a bit field is wider than
    /// its width on the wire.
    pub fn encode(&self, out: &mut Vec<u8>) -> (r: Result<(), DnsError>)
        ensures
            r is Ok <==> header_fields_fit(*self),
            r is Ok ==> final(out)@ == old(out)@ + header_bytes(*self),
            r is Err ==> r == Err::<(), DnsError>(DnsError::FieldOutOfRange) && final(out)@
                == old(out)@,
    {
        if self.opcode >= 16 || self.z >= 8 || self.rcode >= 16 {
            return Err(DnsError::FieldOutOfRange);
        }
        let hi: u8 = (if self.qr { 128u8 } else { 0u8 }) + self.opcode * 8 + (if self.aa { 4u8 } else { 0u8 })
            + (if self.tc { 2u8 } else { 0u8 }) + (if self.rd { 1u8 } else { 0u8 });
        let lo: u8 = (if self.ra { 128u8 } else { 0u8 }) + self.z * 16 + self.rcode;
        write_u16(out, self.id);
        out.push(hi);
        out.push(lo);
        write_u16(out, self.qdcount);
        write_u16(out, self.ancount);
        write_u16(out, self.nscount);
        write_u16(out, self.arcount);
        assert(final(out)@ =~= old(out)@ + header_bytes(*self));
        Ok(())
    }
}

} // verus!
