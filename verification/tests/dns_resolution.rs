use microdns::{
    build_dns_query, merge_ip_reply, nonempty_or_no_records, parse_mx_records, DnsConfig,
    DnsLookup, Error, IpAddress, LookupAction, DNS_TYPE_A, DNS_TYPE_AAAA, DNS_TYPE_MX,
};

/// Encodes a dotted name in wire form.
fn wire_name(name: &str) -> Vec<u8> {
    let mut out = Vec::new();
    for part in name.split('.').filter(|p| !p.is_empty()) {
        out.push(part.len() as u8);
        out.extend_from_slice(part.as_bytes());
    }
    out.push(0);
    out
}

/// A response to `query` (whose question is copied) with the given answer
/// records, each as (type, rdata), owned by the question's name through a
/// compression pointer.
fn response(query: &[u8], answers: &[(u16, Vec<u8>)]) -> Vec<u8> {
    let mut out = query.to_vec();
    out[2] = 0x81;
    out[3] = 0x80;
    out[6] = 0;
    out[7] = answers.len() as u8;
    for (record_type, rdata) in answers {
        out.extend_from_slice(&[0xC0, 0x0C]);
        out.extend_from_slice(&record_type.to_be_bytes());
        out.extend_from_slice(&[0x00, 0x01, 0x00, 0x00, 0x01, 0x2C]);
        out.extend_from_slice(&(rdata.len() as u16).to_be_bytes());
        out.extend_from_slice(rdata);
    }
    out
}

fn mx_rdata(priority: u16, server: &str) -> Vec<u8> {
    let mut out = priority.to_be_bytes().to_vec();
    out.extend_from_slice(&wire_name(server));
    out
}

/// A stand-in for the name servers of google.com: the reply a server gives to
/// each query.
fn google_server(query: &[u8]) -> Result<Vec<u8>, Error> {
    let record_type = u16::from_be_bytes([query[query.len() - 4], query[query.len() - 3]]);
    let name = microdns::parse_dns_name(query, 12)?;
    let answers: Vec<(u16, Vec<u8>)> = match (name.as_str(), record_type) {
        ("google.com", DNS_TYPE_MX) => vec![(DNS_TYPE_MX, mx_rdata(10, "smtp.google.com"))],
        ("google.com", DNS_TYPE_A) | ("smtp.google.com", DNS_TYPE_A) => {
            vec![(DNS_TYPE_A, vec![142, 250, 185, 78])]
        }
        ("google.com", DNS_TYPE_AAAA) | ("smtp.google.com", DNS_TYPE_AAAA) => vec![(
            DNS_TYPE_AAAA,
            vec![0x2a, 0x00, 0x14, 0x50, 0x40, 0x01, 0x08, 0x2e, 0, 0, 0, 0, 0, 0, 0x20, 0x0e],
        )],
        _ => vec![],
    };
    Ok(response(query, &answers))
}

/// Runs a lookup against the stand-in servers.
fn lookup(domain: &str, record_type: u16, config: Option<DnsConfig>) -> Result<Vec<u8>, Error> {
    let mut lookup = DnsLookup::new(domain, record_type, config)?;
    loop {
        match lookup.next_action() {
            LookupAction::Fail(e) => return Err(e),
            LookupAction::Send(address) => {
                assert!(address.ends_with(":53"));
                let reply = google_server(lookup.query());
                if let Some(result) = lookup.handle_reply(reply) {
                    return result;
                }
            }
        }
    }
}

fn lookup_mx_records(domain: &str) -> Result<Vec<microdns::MxRecord>, Error> {
    let response = lookup(domain, DNS_TYPE_MX, None)?;
    parse_mx_records(&response)
}

fn lookup_ip_addresses_with_config(
    hostname: &str,
    config: Option<DnsConfig>,
) -> Result<Vec<IpAddress>, Error> {
    let mut ips = Vec::new();
    merge_ip_reply(&mut ips, lookup(hostname, DNS_TYPE_A, config.clone()))?;
    merge_ip_reply(&mut ips, lookup(hostname, DNS_TYPE_AAAA, config))?;
    nonempty_or_no_records(ips)
}

fn lookup_ip_addresses(hostname: &str) -> Result<Vec<IpAddress>, Error> {
    lookup_ip_addresses_with_config(hostname, None)
}

#[test]
fn test_google_mx_records() -> Result<(), Error> {
    let mx_records = lookup_mx_records("google.com")?;

    // Verify we got some MX records
    assert!(!mx_records.is_empty(), "No MX records found for google.com");

    // Google mail servers usually contain "google.com" in their names
    let google_mx = mx_records
        .iter()
        .find(|mx| mx.server.contains("google.com"));
    assert!(
        google_mx.is_some(),
        "No Google mail servers found in MX records"
    );

    Ok(())
}

#[test]
fn test_a_record_resolution() -> Result<(), Error> {
    let ips = lookup_ip_addresses("google.com")?;

    // Verify we got some IP addresses
    assert!(!ips.is_empty(), "No IP addresses found for google.com");

    // Check that we have at least one IPv4 address
    let has_ipv4 = ips.iter().any(|ip| matches!(ip, IpAddress::V4(_)));
    assert!(has_ipv4, "No IPv4 addresses found for google.com");

    Ok(())
}

#[test]
fn test_aaaa_record_resolution() -> Result<(), Error> {
    // Create config with slightly longer timeout for IPv6
    let config = DnsConfig {
        timeout: 10,
        ..Default::default()
    };

    let ips = lookup_ip_addresses_with_config("google.com", Some(config))?;

    if !ips.is_empty() {
        println!("Found {} IP addresses for google.com", ips.len());
        for ip in &ips {
            println!("  {:?}", ip);
        }
        let has_ipv6 = ips.iter().any(|ip| matches!(ip, IpAddress::V6(_)));
        assert!(has_ipv6, "the stand-in servers answer AAAA queries");
    }

    Ok(())
}

#[test]
fn test_mx_server_ip_resolution() -> Result<(), Error> {
    // First get MX records
    let mx_records = lookup_mx_records("google.com")?;
    assert!(!mx_records.is_empty(), "No MX records found for google.com");

    // Then try to resolve the first MX server
    let first_mx = &mx_records[0];
    println!("Resolving IP for MX server: {}", first_mx.server);

    let ips = lookup_ip_addresses(&first_mx.server)?;

    // Verify we got some IP addresses for the MX server
    assert!(
        !ips.is_empty(),
        "No IP addresses found for MX server {}",
        first_mx.server
    );

    println!("Found {} IP addresses for {}", ips.len(), first_mx.server);
    for ip in ips {
        println!("  {:?}", ip);
    }

    Ok(())
}

#[test]
fn google_query_is_sent_to_each_default_server_in_turn() {
    let query = build_dns_query("google.com", DNS_TYPE_MX).unwrap();
    let mut lookup = DnsLookup::new("google.com", DNS_TYPE_MX, None).unwrap();
    assert_eq!(lookup.query(), query.as_slice());
    assert_eq!(lookup.timeout(), 5);
    let mut asked = Vec::new();
    loop {
        match lookup.next_action() {
            LookupAction::Send(address) => {
                asked.push(address);
                assert!(lookup.handle_reply(Err(Error::Timeout)).is_none());
            }
            LookupAction::Fail(e) => {
                assert!(matches!(e, Error::Timeout));
                break;
            }
        }
    }
    assert_eq!(asked, vec!["1.1.1.1:53", "1.0.0.1:53", "8.8.8.8:53", "8.8.4.4:53"]);
}
