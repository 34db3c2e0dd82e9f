use vstd::prelude::*;
use vstd::string::StringSliceAdditionalSpecFns;

use crate::error::Error;
use crate::query::{build_dns_query, query_spec};
use crate::record::{IpAddress, IpAddressView};
use crate::response::{ip_response_spec, ip_views, parse_ip_records};

verus! {

/// Default DNS servers to try (in order)
pub const DEFAULT_DNS_SERVERS: [&'static str; 4] = [
    "1.1.1.1",  // Cloudflare primary (fastest)
    "1.0.0.1",  // Cloudflare secondary
    "8.8.8.8",  // Google primary
    "8.8.4.4",  // Google secondary
];

/// The texts of the default servers, in the order they are tried.
pub open spec fn default_servers() -> Seq<Seq<char>> {
    seq!["1.1.1.1"@, "1.0.0.1"@, "8.8.8.8"@, "8.8.4.4"@]
}

/// The texts of a sequence of strings.
pub open spec fn texts(v: Seq<String>) -> Seq<Seq<char>> {
    v.map_values(|s: String| s@)
}

/// DNS query configuration
#[derive(Debug, Clone)]
pub struct DnsConfig {
    /// List of DNS servers to try
    pub servers: Vec<String>,
    /// Query timeout in seconds
    pub timeout: u64,
}

impl Default for DnsConfig {
    fn default() -> (config: Self)
        ensures
            texts(config.servers@) == default_servers(),
            config.timeout == 5,
    {
        let mut servers: Vec<String> = Vec::new();
        let mut i: usize = 0;
        while i < DEFAULT_DNS_SERVERS.len()
            invariant
                i <= 4,
                texts(servers@) == default_servers().take(i as int),
            decreases 4 - i,
        {
            assert(DEFAULT_DNS_SERVERS@ == seq!["1.1.1.1", "1.0.0.1", "8.8.8.8", "8.8.4.4"]);
            let ghost before = servers@;
            servers.push(String::from_str(DEFAULT_DNS_SERVERS[i]));
            assert(texts(servers@) =~= texts(before).push(default_servers()[i as int]));
            assert(default_servers().take(i + 1) =~= default_servers().take(i as int).push(
                default_servers()[i as int],
            ));
            i = i + 1;
        }
        assert(default_servers().take(4) =~= default_servers());
        DnsConfig { servers, timeout: 5 }
    }
}

/// The servers a lookup tries: those of the configuration, or the defaults.
pub open spec fn config_servers(config: Option<DnsConfig>) -> Seq<Seq<char>> {
    match config {
        Some(c) => texts(c.servers@),
        None => default_servers(),
    }
}

/// The timeout a lookup runs with: that of the configuration, or the default.
pub open spec fn config_timeout(config: Option<DnsConfig>) -> u64 {
    match config {
        Some(c) => c.timeout,
        None => 5,
    }
}

/// The address, with the DNS port, at which `server` is asked.
pub open spec fn server_address(server: Seq<char>) -> Seq<char> {
    server + ":53"@
}

/// A lookup of the records of one type of one domain, asking the servers of
/// its configuration in turn.
pub struct DnsLookup {
    query: Vec<u8>,
    servers: Vec<String>,
    timeout: u64,
    next: usize,
}

/// A lookup's query, servers, timeout and the index of the next server to
/// ask.
pub struct DnsLookupView {
    pub query: Seq<u8>,
    pub servers: Seq<Seq<char>>,
    pub timeout: u64,
    pub next: int,
}

impl View for DnsLookup {
    type V = DnsLookupView;

    closed spec fn view(&self) -> DnsLookupView {
        DnsLookupView {
            query: self.query@,
            servers: texts(self.servers@),
            timeout: self.timeout,
            next: self.next as int,
        }
    }
}

/// What a lookup does next.
pub enum LookupAction {
    /// Send the query to the server at this address and hand the reply back
    Send(String),
    /// Stop with this error: every server has been tried
    Fail(Error),
}

impl DnsLookup {
    /// Starts the lookup of the records of `record_type` for `domain`, with the
    /// given configuration or the default one.
    pub fn new(domain: &str, record_type: u16, config: Option<DnsConfig>) -> (res: Result<
        DnsLookup,
        Error,
    >)
        ensures
            match res {
                Ok(lookup) => {
                    &&& query_spec(domain.spec_bytes(), record_type) == Ok::<Seq<u8>, Error>(
                        lookup@.query,
                    )
                    &&& lookup@.servers == config_servers(config)
                    &&& lookup@.timeout == config_timeout(config)
                    &&& lookup@.next == 0
                },
                Err(e) => query_spec(domain.spec_bytes(), record_type) == Err::<Seq<u8>, Error>(e),
            },
    {
        let config = match config {
            Some(c) => c,
            None => DnsConfig::default(),
        };
        // Build DNS query packet
        let query = match build_dns_query(domain, record_type) {
            Ok(q) => q,
            Err(e) => return Err(e),
        };
        Ok(DnsLookup { query, servers: config.servers, timeout: config.timeout, next: 0 })
    }

    /// The query packet to send.
    pub fn query(&self) -> (q: &[u8])
        ensures
            q@ == self@.query,
    {
        self.query.as_slice()
    }

    /// The timeout of each query, in seconds.
    pub fn timeout(&self) -> (t: u64)
        ensures
            t == self@.timeout,
    {
        self.timeout
    }

    /// What to do next: ask the next server, or fail with a timeout once every
    /// server has been tried.
    pub fn next_action(&self) -> (action: LookupAction)
        ensures
            self@.next < self@.servers.len() ==> (action matches LookupAction::Send(address)
                && address@ == server_address(self@.servers[self@.next])),
            self@.next >= self@.servers.len() ==> action matches LookupAction::Fail(
                Error::Timeout,
            ),
    {
        if self.next < self.servers.len() {
            let mut address = self.servers[self.next].clone();
            address.append(":53");
            LookupAction::Send(address)
        } else {
            LookupAction::Fail(Error::Timeout)
        }
    }

    /// Takes the reply of the server last asked: a response ends the lookup, as
    /// does an error other than a timeout or an I/O error; after those the next
    /// server is tried (`None`).
    pub fn handle_reply(&mut self, reply: Result<Vec<u8>, Error>) -> (outcome: Option<
        Result<Vec<u8>, Error>,
    >)
        ensures
            final(self)@.query == old(self)@.query,
            final(self)@.servers == old(self)@.servers,
            final(self)@.timeout == old(self)@.timeout,
            match reply {
                Ok(response) => outcome == Some(Ok::<Vec<u8>, Error>(response))
                    && final(self)@.next == old(self)@.next,
                Err(Error::Timeout) | Err(Error::Io(_)) => outcome is None && final(self)@.next == if old(
                    self,
                )@.next < old(self)@.servers.len() {
                    old(self)@.next + 1
                } else {
                    old(self)@.next
                },
                Err(e) => outcome == Some(Err::<Vec<u8>, Error>(e)) && final(self)@.next == old(
                    self,
                )@.next,
            },
    {
        match reply {
            Ok(response) => Some(Ok(response)),
            // Try next server
            Err(Error::Timeout) | Err(Error::Io(_)) => {
                if self.next < self.servers.len() {
                    self.next = self.next + 1;
                }
                None
            },
            Err(e) => Some(Err(e)),
        }
    }
}

/// Server with resolved IP addresses
#[derive(Debug, Clone, PartialEq)]
pub struct ServerIpRecord {
    /// Server hostname
    pub server: String,
    /// List of IP addresses (v4 and v6)
    pub ip_addresses: Vec<IpAddress>,
}

/// A server's name as text and its addresses as views.
pub struct ServerIpRecordView {
    pub server: Seq<char>,
    pub ip_addresses: Seq<IpAddressView>,
}

impl View for ServerIpRecord {
    type V = ServerIpRecordView;

    open spec fn view(&self) -> ServerIpRecordView {
        ServerIpRecordView { server: self.server@, ip_addresses: ip_views(self.ip_addresses@) }
    }
}

/// Adds to `ips` the addresses that the reply to one address lookup holds. A
/// reply without records, or a lookup that found none, adds nothing; any other
/// error ends the whole lookup.
pub fn merge_ip_reply(ips: &mut Vec<IpAddress>, reply: Result<Vec<u8>, Error>) -> (res: Result<
    (),
    Error,
>)
    ensures
        match reply {
            Ok(response) => match ip_response_spec(response@) {
                Ok(found) => res is Ok && ip_views(final(ips)@) == ip_views(old(ips)@) + found,
                Err(Error::NoRecordsFound) => res is Ok && final(ips)@ == old(ips)@,
                Err(e) => res == Err::<(), Error>(e) && final(ips)@ == old(ips)@,
            },
            Err(Error::NoRecordsFound) => res is Ok && final(ips)@ == old(ips)@,
            Err(e) => res == Err::<(), Error>(e) && final(ips)@ == old(ips)@,
        },
{
    match reply {
        Ok(response) => match parse_ip_records(response.as_slice()) {
            Ok(found) => {
                let ghost before = ips@;
                let ghost added = found@;
                let mut found = found;
                ips.append(&mut found);
                assert(ip_views(ips@) =~= ip_views(before) + ip_views(added));
                Ok(())
            },
            // Ignore if no records found
            Err(Error::NoRecordsFound) => Ok(()),
            Err(e) => Err(e),
        },
        // Ignore if no records found
        Err(Error::NoRecordsFound) => Ok(()),
        Err(e) => Err(e),
    }
}

/// Adds `server` with its addresses to the servers resolved so far. A server
/// without address records is skipped; any other error ends the resolution.
pub fn merge_server_ips(
    servers: &mut Vec<ServerIpRecord>,
    server: String,
    lookup: Result<Vec<IpAddress>, Error>,
) -> (res: Result<(), Error>)
    ensures
        match lookup {
            Ok(ips) => res is Ok && final(servers)@ == old(servers)@.push(
                ServerIpRecord { server, ip_addresses: ips },
            ),
            Err(Error::NoRecordsFound) => res is Ok && final(servers)@ == old(servers)@,
            Err(e) => res == Err::<(), Error>(e) && final(servers)@ == old(servers)@,
        },
{
    match lookup {
        Ok(ips) => {
            servers.push(ServerIpRecord { server, ip_addresses: ips });
            Ok(())
        },
        // Skip servers with no IP records
        Err(Error::NoRecordsFound) => Ok(()),
        Err(e) => Err(e),
    }
}

/// The records found, or `NoRecordsFound` when there are none.
pub fn nonempty_or_no_records<T>(items: Vec<T>) -> (res: Result<Vec<T>, Error>)
    ensures
        items@.len() == 0 ==> res matches Err(Error::NoRecordsFound),
        items@.len() > 0 ==> (res matches Ok(v) && v@ == items@),
{
    if items.len() == 0 {
        Err(Error::NoRecordsFound)
    } else {
        Ok(items)
    }
}

} // verus!
