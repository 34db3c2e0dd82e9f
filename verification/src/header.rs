use vstd::prelude::*;

use crate::error::Error;

verus! {

/// DNS record type of an A record (IPv4 address)
pub const DNS_TYPE_A: u16 = 1;

/// DNS record type of an MX record (mail exchange)
pub const DNS_TYPE_MX: u16 = 15;

/// DNS record type of an AAAA record (IPv6 address)
pub const DNS_TYPE_AAAA: u16 = 28;

/// Size in bytes of the fixed DNS header
pub const HEADER_LEN: usize = 12;

/// The big-endian 16-bit value of the two bytes `hi`, `lo`.
pub open spec fn be16(hi: u8, lo: u8) -> u16 {
    (hi as int * 256 + lo as int) as u16
}

/// The big-endian 16-bit value at offset `i` of `buf`.
pub open spec fn be16_at(buf: Seq<u8>, i: int) -> u16 {
    be16(buf[i], buf[i + 1])
}

/// Reads the big-endian 16-bit value at `pos`.
pub fn read_be16(buffer: &[u8], pos: usize) -> (v: u16)
    requires
        pos + 1 < buffer@.len(),
    ensures
        v == be16_at(buffer@, pos as int),
{
    (buffer[pos] as u16) * 256 + (buffer[pos + 1] as u16)
}

/// DNS header structure
#[derive(Debug, Clone, Copy, PartialEq, Eq)]
pub struct DnsHeader {
    /// Transaction ID
    pub id: u16,
    /// Flags field
    pub flags: u16,
    /// Number of questions
    pub questions: u16,
    /// Number of answer records
    pub answers: u16,
    /// Number of authority records
    pub authorities: u16,
    /// Number of additional records
    pub additionals: u16,
}

/// The response code of a header: the lower four bits of its flags.
pub open spec fn rcode(flags: u16) -> u16 {
    flags % 16
}

/// The header that the first twelve bytes of `buf` spell, field by field.
pub open spec fn header_fields(buf: Seq<u8>) -> DnsHeader {
    DnsHeader {
        id: be16_at(buf, 0),
        flags: be16_at(buf, 2),
        questions: be16_at(buf, 4),
        answers: be16_at(buf, 6),
        authorities: be16_at(buf, 8),
        additionals: be16_at(buf, 10),
    }
}

/// What parsing the header of `buf` gives: too short a buffer is malformed,
/// a nonzero response code is the server's error.
pub open spec fn header_spec(buf: Seq<u8>) -> Result<DnsHeader, Error> {
    if buf.len() < 12 {
        Err(Error::MalformedPacket)
    } else if rcode(header_fields(buf).flags) != 0 {
        Err(Error::ServerError(rcode(header_fields(buf).flags)))
    } else {
        Ok(header_fields(buf))
    }
}

/// Parse DNS header from buffer
pub fn parse_dns_header(buffer: &[u8]) -> (res: Result<DnsHeader, Error>)
    ensures
        res == header_spec(buffer@),
{
    if buffer.len() < 12 {
        return Err(Error::MalformedPacket);
    }
    let header = DnsHeader {
        id: read_be16(buffer, 0),
        flags: read_be16(buffer, 2),
        questions: read_be16(buffer, 4),
        answers: read_be16(buffer, 6),
        authorities: read_be16(buffer, 8),
        additionals: read_be16(buffer, 10),
    };
    // Check response code (lower 4 bits of flags)
    let flags = header.flags;
    let code = flags & 0x0F;
    assert(flags & 0x0F == flags % 16) by (bit_vector);
    if code != 0 {
        return Err(Error::ServerError(code));
    }
    Ok(header)
}

} // verus!
