//! A minimal DNS resolver library: building DNS queries, parsing DNS
//! responses (headers, names with compression pointers, MX, A and AAAA
//! records), and the decisions of a lookup that asks a list of name servers in
//! turn. Every function states its result in its contract, over the spec
//! functions of its module; `laws` proves what holds across them.
//!
//! The network exchange itself is not here: a caller sends the query that a
//! `DnsLookup` hands out and gives the reply back to it.

pub mod error;
pub mod header;
pub mod laws;
pub mod name;
pub mod query;
pub mod record;
pub mod resolver;
pub mod response;
pub mod wire_laws;

pub use error::Error;
pub use header::{parse_dns_header, DnsHeader, DNS_TYPE_A, DNS_TYPE_AAAA, DNS_TYPE_MX};
pub use name::{parse_dns_name, skip_question, MAX_JUMPS};
pub use query::build_dns_query;
pub use record::{parse_answer, DnsRecord, IpAddress, RecordData};
pub use resolver::{
    merge_ip_reply, merge_server_ips, nonempty_or_no_records, DnsConfig, DnsLookup, LookupAction,
    ServerIpRecord, DEFAULT_DNS_SERVERS,
};
pub use response::{parse_ip_records, parse_mx_records, MxRecord};
