use vstd::prelude::*;

use vstd::string::StringSliceAdditionalSpecFns;

use crate::error::Error;

verus! {

/// The byte of the dot that separates the labels of a domain.
pub const DOT: u8 = 0x2E;

/// The longest label a name may hold.
pub const MAX_LABEL_LEN: usize = 63;

/// The index of the first dot in `s`, or its length when it holds none.
pub open spec fn first_dot(s: Seq<u8>) -> int
    decreases s.len(),
{
    if s.len() == 0 {
        0
    } else if s[0] == DOT {
        0
    } else {
        1 + first_dot(s.drop_first())
    }
}

/// The first dot lies within the sequence.
pub proof fn lemma_first_dot_bounds(s: Seq<u8>)
    ensures
        0 <= first_dot(s) <= s.len(),
        first_dot(s) < s.len() ==> s[first_dot(s)] == DOT,
        forall|k: int| 0 <= k < first_dot(s) ==> s[k] != DOT,
    decreases s.len(),
{
    if s.len() > 0 && s[0] != DOT {
        lemma_first_dot_bounds(s.drop_first());
        assert forall|k: int| 0 <= k < first_dot(s) implies s[k] != DOT by {
            if k > 0 {
                assert(s[k] == s.drop_first()[k - 1]);
            }
        }
    }
}

/// A position with no dot before it and a dot (or the end) at it is the
/// first dot.
pub proof fn lemma_first_dot_at(s: Seq<u8>, m: int)
    requires
        0 <= m <= s.len(),
        forall|k: int| 0 <= k < m ==> s[k] != DOT,
        m == s.len() || s[m] == DOT,
    ensures
        first_dot(s) == m,
    decreases s.len(),
{
    if m > 0 {
        assert forall|k: int| 0 <= k < m - 1 implies s.drop_first()[k] != DOT by {
            assert(s.drop_first()[k] == s[k + 1]);
        }
        lemma_first_dot_at(s.drop_first(), m - 1);
    }
}

/// The wire form of one label: its length, then its bytes; nothing for an
/// empty label.
pub open spec fn encode_label(part: Seq<u8>) -> Seq<u8> {
    if part.len() == 0 {
        Seq::empty()
    } else {
        seq![part.len() as u8] + part
    }
}

/// The labels of a dotted domain in wire form, empty labels left out; `None`
/// when a label is longer than 63 bytes.
pub open spec fn encode_labels(s: Seq<u8>) -> Option<Seq<u8>>
    decreases s.len(),
{
    let i = first_dot(s);
    let part = s.take(i);
    if part.len() > MAX_LABEL_LEN {
        None
    } else if i >= s.len() {
        Some(encode_label(part))
    } else {
        proof {
            lemma_first_dot_bounds(s);
        }
        match encode_labels(s.skip(i + 1)) {
            Some(rest) => Some(encode_label(part) + rest),
            None => None,
        }
    }
}

/// The header of a standard query: ID 1, recursion desired, one question.
pub open spec fn query_header() -> Seq<u8> {
    seq![0x00, 0x01, 0x01, 0x00, 0x00, 0x01, 0x00, 0x00, 0x00, 0x00, 0x00, 0x00]
}

/// The question's type, big-endian, and its class IN.
pub open spec fn question_tail(record_type: u16) -> Seq<u8> {
    seq![0x00, (record_type / 256) as u8, (record_type % 256) as u8, 0x00, 0x01]
}

/// The query that asks for records of `record_type` of the domain spelled by
/// `domain`.
pub open spec fn query_spec(domain: Seq<u8>, record_type: u16) -> Result<Seq<u8>, Error> {
    match encode_labels(domain) {
        Some(labels) => Ok(query_header() + labels + question_tail(record_type)),
        None => Err(Error::MalformedPacket),
    }
}

/// `prefix` put before the bytes of `rest`, if any.
pub open spec fn prepend_bytes(prefix: Seq<u8>, rest: Option<Seq<u8>>) -> Option<Seq<u8>> {
    match rest {
        Some(r) => Some(prefix + r),
        None => None,
    }
}

/// Builds the query packet for the domain spelled by the bytes `domain`.
fn build_query_from_bytes(domain: &[u8], record_type: u16) -> (res: Result<Vec<u8>, Error>)
    ensures
        match res {
            Ok(packet) => query_spec(domain@, record_type) == Ok::<Seq<u8>, Error>(packet@),
            Err(e) => query_spec(domain@, record_type) == Err::<Seq<u8>, Error>(e),
        },
{
    let mut packet: Vec<u8> = Vec::new();
    // DNS header (12 bytes)
    packet.push(0x00);
    packet.push(0x01);  // ID: 1
    packet.push(0x01);
    packet.push(0x00);  // Flags: standard query
    packet.push(0x00);
    packet.push(0x01);  // Questions: 1
    packet.push(0x00);
    packet.push(0x00);  // Answer RRs: 0
    packet.push(0x00);
    packet.push(0x00);  // Authority RRs: 0
    packet.push(0x00);
    packet.push(0x00);  // Additional RRs: 0
    assert(packet@ =~= query_header());
    // Encode domain name in DNS format
    let len = domain.len();
    let mut start: usize = 0;
    let ghost mut labels: Seq<u8> = Seq::empty();
    proof {
        assert(domain@.skip(0) =~= domain@);
        if let Some(r) = encode_labels(domain@) {
            assert(labels + r =~= r);
        }
    }
    loop
        invariant_except_break
            encode_labels(domain@) == prepend_bytes(labels, encode_labels(domain@.skip(start as int))),
        invariant
            start <= len == domain@.len(),
            packet@ == query_header() + labels,
        ensures
            encode_labels(domain@) == Some(labels),
        decreases len - start,
    {
        let mut end = start;
        while end < len && domain[end] != DOT
            invariant
                start <= end <= len == domain@.len(),
                forall|k: int| start <= k < end ==> domain@[k] != DOT,
            decreases len - end,
        {
            end = end + 1;
        }
        let ghost rest = domain@.skip(start as int);
        proof {
            assert forall|k: int| 0 <= k < end - start implies rest[k] != DOT by {
                assert(rest[k] == domain@[start + k]);
            }
            lemma_first_dot_at(rest, end - start);
            assert(rest.take(end - start) =~= domain@.subrange(start as int, end as int));
        }
        let part_len = end - start;
        if part_len > MAX_LABEL_LEN {
            return Err(Error::MalformedPacket);
        }
        let ghost before = packet@;
        if part_len > 0 {
            packet.push(part_len as u8);
            let mut k = start;
            while k < end
                invariant
                    start <= k <= end <= len == domain@.len(),
                    part_len == end - start <= MAX_LABEL_LEN,
                    packet@ == before + seq![part_len as u8] + domain@.subrange(start as int, k as int),
                decreases end - k,
            {
                packet.push(domain[k]);
                assert(domain@.subrange(start as int, k + 1) =~= domain@.subrange(start as int, k as int).push(domain@[k as int]));
                k = k + 1;
            }
        }
        let ghost part = domain@.subrange(start as int, end as int);
        assert(packet@ =~= before + encode_label(part));
        proof {
            let prev = labels;
            labels = labels + encode_label(part);
            if end < len {
                assert(rest.skip(end - start + 1) =~= domain@.skip(end + 1));
                if let Some(r) = encode_labels(domain@.skip(end + 1)) {
                    assert(prev + (encode_label(part) + r) =~= labels + r);
                }
            } else {
                assert(encode_labels(rest) == Some(encode_label(part)));
                assert(prev + encode_label(part) =~= labels);
            }
        }
        if end == len {
            break;
        }
        start = end + 1;
    }
    packet.push(0);  // Terminating zero byte
    // Query type and class (IN = 1)
    packet.push((record_type / 256) as u8);
    packet.push((record_type % 256) as u8);
    packet.push(0x00);
    packet.push(0x01);
    assert(packet@ =~= query_header() + labels + question_tail(record_type));
    Ok(packet)
}

/// Build DNS query packet
pub fn build_dns_query(domain: &str, record_type: u16) -> (res: Result<Vec<u8>, Error>)
    ensures
        match res {
            Ok(packet) => query_spec(domain.spec_bytes(), record_type) == Ok::<Seq<u8>, Error>(
                packet@,
            ),
            Err(e) => query_spec(domain.spec_bytes(), record_type) == Err::<Seq<u8>, Error>(e),
        },
{
    build_query_from_bytes(domain.as_bytes(), record_type)
}

} // verus!
