use vstd::prelude::*;

use crate::error::Error;
use crate::header::{be16_at, read_be16, DNS_TYPE_A, DNS_TYPE_AAAA, DNS_TYPE_MX};
use crate::name::{name_end, name_spec, parse_dns_name, skip_name};

verus! {

/// An IP address as its bytes in network order.
#[derive(Debug, Clone, Copy, PartialEq, Eq)]
pub enum IpAddress {
    /// An IPv4 address
    V4([u8; 4]),
    /// An IPv6 address
    V6([u8; 16]),
}

/// An IP address as a sequence of bytes, tagged with its family.
pub enum IpAddressView {
    V4(Seq<u8>),
    V6(Seq<u8>),
}

impl View for IpAddress {
    type V = IpAddressView;

    open spec fn view(&self) -> IpAddressView {
        match self {
            IpAddress::V4(b) => IpAddressView::V4(b@),
            IpAddress::V6(b) => IpAddressView::V6(b@),
        }
    }
}

/// DNS record data variants
#[derive(Debug, Clone)]
pub enum RecordData {
    /// MX record with priority and server hostname
    MX {
        /// Priority value (lower is preferred)
        priority: u16,
        /// Server hostname
        server: String,
    },
    /// A record with IPv4 address
    A([u8; 4]),
    /// AAAA record with IPv6 address
    AAAA([u8; 16]),
    /// Unknown record type
    Unknown,
}

/// Record data with the server name as text and the addresses as byte
/// sequences.
pub enum RecordDataView {
    MX { priority: u16, server: Seq<char> },
    A(Seq<u8>),
    AAAA(Seq<u8>),
    Unknown,
}

impl View for RecordData {
    type V = RecordDataView;

    open spec fn view(&self) -> RecordDataView {
        match self {
            RecordData::MX { priority, server } => RecordDataView::MX {
                priority: *priority,
                server: server@,
            },
            RecordData::A(b) => RecordDataView::A(b@),
            RecordData::AAAA(b) => RecordDataView::AAAA(b@),
            RecordData::Unknown => RecordDataView::Unknown,
        }
    }
}

/// DNS record structure
#[derive(Debug)]
pub struct DnsRecord {
    /// DNS record type
    pub record_type: u16,
    /// Record data based on type
    pub data: RecordData,
}

/// A record: its type and the view of its data.
pub struct DnsRecordView {
    pub record_type: u16,
    pub data: RecordDataView,
}

impl View for DnsRecord {
    type V = DnsRecordView;

    open spec fn view(&self) -> DnsRecordView {
        DnsRecordView { record_type: self.record_type, data: self.data@ }
    }
}

/// The data of a record of type `record_type` whose data of `data_len` bytes
/// starts at `p`, with the position after it.
pub open spec fn record_data_spec(buf: Seq<u8>, record_type: u16, p: int, data_len: int) -> Result<
    (RecordDataView, int),
    Error,
> {
    if record_type == DNS_TYPE_MX {
        if data_len < 2 {
            Err(Error::MalformedPacket)
        } else {
            match name_spec(buf, p + 2) {
                Ok(server) => Ok(
                    (RecordDataView::MX { priority: be16_at(buf, p), server }, p + data_len),
                ),
                Err(e) => Err(e),
            }
        }
    } else if record_type == DNS_TYPE_A {
        if data_len != 4 {
            Err(Error::MalformedPacket)
        } else {
            Ok((RecordDataView::A(buf.subrange(p, p + 4)), p + 4))
        }
    } else if record_type == DNS_TYPE_AAAA {
        if data_len != 16 {
            Err(Error::MalformedPacket)
        } else {
            Ok((RecordDataView::AAAA(buf.subrange(p, p + 16)), p + 16))
        }
    } else {
        Ok((RecordDataView::Unknown, p + data_len))
    }
}

/// What parsing the answer record at `pos` gives: the record and the position
/// after it. After the owner name come type, class, TTL and data length (ten
/// bytes), then the data.
pub open spec fn answer_spec(buf: Seq<u8>, pos: int) -> Result<(DnsRecordView, int), Error> {
    match name_end(buf, pos) {
        None => Err(Error::MalformedPacket),
        Some(end) => if end + 10 > buf.len() {
            Err(Error::MalformedPacket)
        } else {
            let record_type = be16_at(buf, end);
            let data_len = be16_at(buf, end + 8) as int;
            let p = end + 10;
            if p + data_len > buf.len() {
                Err(Error::MalformedPacket)
            } else {
                match record_data_spec(buf, record_type, p, data_len) {
                    Ok((data, next)) => Ok((DnsRecordView { record_type, data }, next)),
                    Err(e) => Err(e),
                }
            }
        },
    }
}

/// The answer parsed, as views, or the error.
pub open spec fn answer_view(res: Result<(DnsRecord, usize), Error>) -> Result<
    (DnsRecordView, int),
    Error,
> {
    match res {
        Ok((record, next)) => Ok((record@, next as int)),
        Err(e) => Err(e),
    }
}

/// Parse DNS answer record
pub fn parse_answer(buffer: &[u8], pos: usize) -> (res: Result<(DnsRecord, usize), Error>)
    ensures
        answer_view(res) == answer_spec(buffer@, pos as int),
        res matches Ok((_, next)) ==> pos < next <= buffer@.len(),
{
    let len = buffer.len();
    // Skip name field
    let end = match skip_name(buffer, pos) {
        Some(end) => end,
        None => return Err(Error::MalformedPacket),
    };
    // Ensure we have enough bytes for the record header
    if len - end < 10 {
        return Err(Error::MalformedPacket);
    }
    // Parse record type; skip class and TTL
    let record_type = read_be16(buffer, end);
    // Get data length
    let data_len = read_be16(buffer, end + 8) as usize;
    let p = end + 10;
    // Ensure we have enough bytes for the record data
    if data_len > len - p {
        return Err(Error::MalformedPacket);
    }
    proof {
        assert(name_end(buffer@, pos as int) == Some(end as int));
    }
    let data;
    let next;
    if record_type == DNS_TYPE_MX {
        if data_len < 2 {
            return Err(Error::MalformedPacket);
        }
        let priority = read_be16(buffer, p);
        // Extract hostname (rest of data)
        let server = match parse_dns_name(buffer, p + 2) {
            Ok(server) => server,
            Err(e) => return Err(e),
        };
        data = RecordData::MX { priority, server };
        next = p + data_len;
    } else if record_type == DNS_TYPE_A {
        if data_len != 4 {
            return Err(Error::MalformedPacket);
        }
        let ipv4 = [buffer[p], buffer[p + 1], buffer[p + 2], buffer[p + 3]];
        assert(ipv4@ =~= buffer@.subrange(p as int, p + 4));
        data = RecordData::A(ipv4);
        next = p + 4;
    } else if record_type == DNS_TYPE_AAAA {
        if data_len != 16 {
            return Err(Error::MalformedPacket);
        }
        let ipv6 = [
            buffer[p],
            buffer[p + 1],
            buffer[p + 2],
            buffer[p + 3],
            buffer[p + 4],
            buffer[p + 5],
            buffer[p + 6],
            buffer[p + 7],
            buffer[p + 8],
            buffer[p + 9],
            buffer[p + 10],
            buffer[p + 11],
            buffer[p + 12],
            buffer[p + 13],
            buffer[p + 14],
            buffer[p + 15],
        ];
        assert(ipv6@ =~= buffer@.subrange(p as int, p + 16));
        data = RecordData::AAAA(ipv6);
        next = p + 16;
    } else {
        // Skip unknown record types
        data = RecordData::Unknown;
        next = p + data_len;
    }
    Ok((DnsRecord { record_type, data }, next))
}

} // verus!
