use vstd::prelude::*;

use crate::error::Error;
use crate::header::{header_spec, parse_dns_header, DnsHeader, DNS_TYPE_MX, HEADER_LEN};
use crate::name::{question_end, skip_question};
use crate::record::{
    answer_spec, parse_answer, DnsRecordView, IpAddress, IpAddressView, RecordData,
    RecordDataView,
};

verus! {

/// MX record structure
#[derive(Debug, Clone, PartialEq)]
pub struct MxRecord {
    /// Priority value (lower is preferred)
    pub priority: u16,
    /// Server hostname
    pub server: String,
}

/// An MX record with its server name as text.
pub struct MxRecordView {
    pub priority: u16,
    pub server: Seq<char>,
}

impl View for MxRecord {
    type V = MxRecordView;

    open spec fn view(&self) -> MxRecordView {
        MxRecordView { priority: self.priority, server: self.server@ }
    }
}

/// The views of a sequence of MX records.
pub open spec fn mx_views(v: Seq<MxRecord>) -> Seq<MxRecordView> {
    v.map_values(|r: MxRecord| r@)
}

/// The views of a sequence of IP addresses.
pub open spec fn ip_views(v: Seq<IpAddress>) -> Seq<IpAddressView> {
    v.map_values(|a: IpAddress| a@)
}

/// Where the section of `n` questions that starts at `pos` ends.
pub open spec fn questions_end(buf: Seq<u8>, pos: int, n: nat) -> Option<int>
    decreases n,
{
    if n == 0 {
        Some(pos)
    } else {
        match questions_end(buf, pos, (n - 1) as nat) {
            Some(p) => question_end(buf, p),
            None => None,
        }
    }
}

/// The `n` answer records that start at `pos`, in order, and the position
/// after them; the first error met otherwise.
pub open spec fn answers_spec(buf: Seq<u8>, pos: int, n: nat) -> Result<
    (Seq<DnsRecordView>, int),
    Error,
>
    decreases n,
{
    if n == 0 {
        Ok((Seq::empty(), pos))
    } else {
        match answers_spec(buf, pos, (n - 1) as nat) {
            Ok((records, p)) => match answer_spec(buf, p) {
                Ok((record, next)) => Ok((records.push(record), next)),
                Err(e) => Err(e),
            },
            Err(e) => Err(e),
        }
    }
}

/// The MX record that an answer holds, if it is one.
pub open spec fn mx_of(record: DnsRecordView) -> Seq<MxRecordView> {
    match record.data {
        RecordDataView::MX { priority, server } => if record.record_type == DNS_TYPE_MX {
            seq![MxRecordView { priority, server }]
        } else {
            Seq::empty()
        },
        _ => Seq::empty(),
    }
}

/// The MX records among the answers, in order.
pub open spec fn mx_records_of(records: Seq<DnsRecordView>) -> Seq<MxRecordView>
    decreases records.len(),
{
    if records.len() == 0 {
        Seq::empty()
    } else {
        mx_records_of(records.drop_last()) + mx_of(records.last())
    }
}

/// The address that an answer holds, if it is an A or AAAA record.
pub open spec fn ip_of(record: DnsRecordView) -> Seq<IpAddressView> {
    match record.data {
        RecordDataView::A(b) => seq![IpAddressView::V4(b)],
        RecordDataView::AAAA(b) => seq![IpAddressView::V6(b)],
        _ => Seq::empty(),
    }
}

/// The addresses among the answers, in order.
pub open spec fn ip_records_of(records: Seq<DnsRecordView>) -> Seq<IpAddressView>
    decreases records.len(),
{
    if records.len() == 0 {
        Seq::empty()
    } else {
        ip_records_of(records.drop_last()) + ip_of(records.last())
    }
}

/// `r` put into `s` after every record whose priority is not above its own,
/// scanning from the end.
pub open spec fn insert_by_priority(s: Seq<MxRecordView>, r: MxRecordView) -> Seq<MxRecordView>
    decreases s.len(),
{
    if s.len() == 0 {
        seq![r]
    } else if s.last().priority <= r.priority {
        s.push(r)
    } else {
        insert_by_priority(s.drop_last(), r).push(s.last())
    }
}

/// The records sorted by priority, lowest first, records of equal priority
/// kept in their order.
pub open spec fn sort_by_priority(s: Seq<MxRecordView>) -> Seq<MxRecordView>
    decreases s.len(),
{
    if s.len() == 0 {
        Seq::empty()
    } else {
        insert_by_priority(sort_by_priority(s.drop_last()), s.last())
    }
}

/// What parsing the MX records of a response gives.
pub open spec fn mx_response_spec(buf: Seq<u8>) -> Result<Seq<MxRecordView>, Error> {
    match header_spec(buf) {
        Err(e) => Err(e),
        Ok(header) => if header.answers == 0 {
            Err(Error::NoRecordsFound)
        } else {
            match questions_end(buf, HEADER_LEN as int, header.questions as nat) {
                None => Err(Error::MalformedPacket),
                Some(p) => match answers_spec(buf, p, header.answers as nat) {
                    Err(e) => Err(e),
                    Ok((records, _)) => if mx_records_of(records).len() == 0 {
                        Err(Error::NoRecordsFound)
                    } else {
                        Ok(sort_by_priority(mx_records_of(records)))
                    },
                },
            }
        },
    }
}

/// What parsing the IP addresses of a response gives.
pub open spec fn ip_response_spec(buf: Seq<u8>) -> Result<Seq<IpAddressView>, Error> {
    match header_spec(buf) {
        Err(e) => Err(e),
        Ok(header) => match questions_end(buf, HEADER_LEN as int, header.questions as nat) {
            None => Err(Error::MalformedPacket),
            Some(p) => match answers_spec(buf, p, header.answers as nat) {
                Err(e) => Err(e),
                Ok((records, _)) => if ip_records_of(records).len() == 0 {
                    Err(Error::NoRecordsFound)
                } else {
                    Ok(ip_records_of(records))
                },
            },
        },
    }
}

/// Skips `count` questions from the end of the header.
fn skip_questions(buffer: &[u8], count: u16) -> (res: Result<usize, Error>)
    ensures
        match res {
            Ok(p) => questions_end(buffer@, HEADER_LEN as int, count as nat) == Some(p as int),
            Err(e) => questions_end(buffer@, HEADER_LEN as int, count as nat) is None && e
                == Error::MalformedPacket,
        },
{
    let mut pos = HEADER_LEN;
    let mut i: u16 = 0;
    while i < count
        invariant
            i <= count,
            questions_end(buffer@, HEADER_LEN as int, i as nat) == Some(pos as int),
        decreases count - i,
    {
        pos = match skip_question(buffer, pos) {
            Ok(p) => p,
            Err(e) => {
                proof {
                    lemma_questions_end_fails(buffer@, i as nat, count as nat);
                }
                return Err(e);
            },
        };
        i = i + 1;
    }
    Ok(pos)
}

/// Once a question fails to parse, so does every longer question section.
proof fn lemma_questions_end_fails(buf: Seq<u8>, i: nat, n: nat)
    requires
        i < n,
        questions_end(buf, HEADER_LEN as int, (i + 1) as nat) is None,
    ensures
        questions_end(buf, HEADER_LEN as int, n) is None,
    decreases n,
{
    if n > i + 1 {
        lemma_questions_end_fails(buf, i, (n - 1) as nat);
    }
}

/// Once an answer fails to parse, so does every longer answer section, with
/// the same error.
proof fn lemma_answers_fail(buf: Seq<u8>, pos: int, i: nat, n: nat)
    requires
        i < n,
        answers_spec(buf, pos, (i + 1) as nat) is Err,
    ensures
        answers_spec(buf, pos, n) == answers_spec(buf, pos, (i + 1) as nat),
    decreases n,
{
    if n > i + 1 {
        lemma_answers_fail(buf, pos, i, (n - 1) as nat);
    }
}

/// Inserting past a tail of records of higher priority: the tail stays after
/// the inserted record.
proof fn lemma_insert_suffix(s: Seq<MxRecordView>, r: MxRecordView, k: int)
    requires
        0 <= k <= s.len(),
        forall|j: int| k <= j < s.len() ==> #[trigger] s[j].priority > r.priority,
    ensures
        insert_by_priority(s, r) == insert_by_priority(s.take(k), r) + s.skip(k),
    decreases s.len(),
{
    if k == s.len() {
        assert(s.take(k) =~= s);
        assert(insert_by_priority(s, r) + s.skip(k) =~= insert_by_priority(s, r));
    } else {
        let t = s.drop_last();
        lemma_insert_suffix(t, r, k);
        assert(t.take(k) =~= s.take(k));
        assert(t.skip(k).push(s.last()) =~= s.skip(k));
        assert((insert_by_priority(t.take(k), r) + t.skip(k)).push(s.last()) =~= insert_by_priority(
            s.take(k),
            r,
        ) + s.skip(k));
    }
}

/// Inserts `r` into `sorted` after every record whose priority is not above
/// its own.
fn insert_mx_record(sorted: &mut Vec<MxRecord>, r: MxRecord)
    ensures
        mx_views(final(sorted)@) == insert_by_priority(mx_views(old(sorted)@), r@),
{
    let mut idx = sorted.len();
    while idx > 0 && sorted[idx - 1].priority > r.priority
        invariant
            idx <= sorted@.len(),
            forall|j: int| idx <= j < sorted@.len() ==> #[trigger] sorted@[j].priority > r.priority,
        decreases idx,
    {
        idx = idx - 1;
    }
    let ghost s = mx_views(sorted@);
    proof {
        lemma_insert_suffix(s, r@, idx as int);
        assert(insert_by_priority(s.take(idx as int), r@) =~= s.take(idx as int).push(r@));
    }
    sorted.insert(idx, r);
    assert(mx_views(sorted@) =~= s.take(idx as int).push(r@) + s.skip(idx as int));
}

/// Sorts the records by priority, lowest first, keeping records of equal
/// priority in their order.
fn sort_mx_records(records: Vec<MxRecord>) -> (sorted: Vec<MxRecord>)
    ensures
        mx_views(sorted@) == sort_by_priority(mx_views(records@)),
{
    let ghost all = records@;
    let total = records.len();
    let mut rest = records;
    let mut sorted: Vec<MxRecord> = Vec::new();
    let mut done: usize = 0;
    assert(mx_views(all.take(0)) =~= Seq::<MxRecordView>::empty());
    while rest.len() > 0
        invariant
            done + rest@.len() == all.len() == total,
            rest@ == all.skip(done as int),
            mx_views(sorted@) == sort_by_priority(mx_views(all.take(done as int))),
        decreases rest@.len(),
    {
        let r = rest.remove(0);
        insert_mx_record(&mut sorted, r);
        proof {
            assert(mx_views(all.take(done + 1)).drop_last() =~= mx_views(all.take(done as int)));
            assert(rest@ =~= all.skip(done + 1));
        }
        done = done + 1;
    }
    assert(all.take(done as int) =~= all);
    sorted
}

/// Parse MX records from DNS response
pub fn parse_mx_records(buffer: &[u8]) -> (res: Result<Vec<MxRecord>, Error>)
    ensures
        match res {
            Ok(records) => mx_response_spec(buffer@) == Ok::<Seq<MxRecordView>, Error>(
                mx_views(records@),
            ),
            Err(e) => mx_response_spec(buffer@) == Err::<Seq<MxRecordView>, Error>(e),
        },
{
    let header = match parse_dns_header(buffer) {
        Ok(h) => h,
        Err(e) => return Err(e),
    };
    if header.answers == 0 {
        return Err(Error::NoRecordsFound);
    }
    // Skip question section
    let mut pos = match skip_questions(buffer, header.questions) {
        Ok(p) => p,
        Err(e) => return Err(e),
    };
    let ghost start = pos as int;
    let ghost mut answers: Seq<DnsRecordView> = Seq::empty();
    let mut records: Vec<MxRecord> = Vec::new();
    let mut i: u16 = 0;
    // Parse answer section
    while i < header.answers
        invariant
            i <= header.answers,
            header_spec(buffer@) == Ok::<DnsHeader, Error>(header),
            header.answers != 0,
            questions_end(buffer@, HEADER_LEN as int, header.questions as nat) == Some(start),
            answers_spec(buffer@, start, i as nat) == Ok::<(Seq<DnsRecordView>, int), Error>(
                (answers, pos as int),
            ),
            mx_views(records@) == mx_records_of(answers),
        decreases header.answers - i,
    {
        let (record, next) = match parse_answer(buffer, pos) {
            Ok(x) => x,
            Err(e) => {
                proof {
                    lemma_answers_fail(buffer@, start, i as nat, header.answers as nat);
                }
                return Err(e);
            },
        };
        let ghost before = records@;
        proof {
            let prev = answers;
            answers = answers.push(record@);
            assert(answers.drop_last() =~= prev);
        }
        pos = next;
        if record.record_type == DNS_TYPE_MX {
            if let RecordData::MX { priority, server } = record.data {
                records.push(MxRecord { priority, server });
            }
        }
        proof {
            assert(mx_views(records@) =~= mx_views(before) + mx_of(answers.last()));
        }
        i = i + 1;
    }
    if records.len() == 0 {
        return Err(Error::NoRecordsFound);
    }
    // Sort by priority (lower is preferred)
    Ok(sort_mx_records(records))
}

/// Parse IP records from DNS response
pub fn parse_ip_records(buffer: &[u8]) -> (res: Result<Vec<IpAddress>, Error>)
    ensures
        match res {
            Ok(ips) => ip_response_spec(buffer@) == Ok::<Seq<IpAddressView>, Error>(
                ip_views(ips@),
            ),
            Err(e) => ip_response_spec(buffer@) == Err::<Seq<IpAddressView>, Error>(e),
        },
{
    let header = match parse_dns_header(buffer) {
        Ok(h) => h,
        Err(e) => return Err(e),
    };
    // Skip question section
    let mut pos = match skip_questions(buffer, header.questions) {
        Ok(p) => p,
        Err(e) => return Err(e),
    };
    let ghost start = pos as int;
    let ghost mut answers: Seq<DnsRecordView> = Seq::empty();
    let mut ips: Vec<IpAddress> = Vec::new();
    let mut i: u16 = 0;
    // Parse answer section
    while i < header.answers
        invariant
            i <= header.answers,
            header_spec(buffer@) == Ok::<DnsHeader, Error>(header),
            questions_end(buffer@, HEADER_LEN as int, header.questions as nat) == Some(start),
            answers_spec(buffer@, start, i as nat) == Ok::<(Seq<DnsRecordView>, int), Error>(
                (answers, pos as int),
            ),
            ip_views(ips@) == ip_records_of(answers),
        decreases header.answers - i,
    {
        let (record, next) = match parse_answer(buffer, pos) {
            Ok(x) => x,
            Err(e) => {
                proof {
                    lemma_answers_fail(buffer@, start, i as nat, header.answers as nat);
                }
                return Err(e);
            },
        };
        let ghost before = ips@;
        proof {
            let prev = answers;
            answers = answers.push(record@);
            assert(answers.drop_last() =~= prev);
        }
        pos = next;
        match record.data {
            RecordData::A(ipv4) => ips.push(IpAddress::V4(ipv4)),
            RecordData::AAAA(ipv6) => ips.push(IpAddress::V6(ipv6)),
            _ => {},
        }
        proof {
            assert(ip_views(ips@) =~= ip_views(before) + ip_of(answers.last()));
        }
        i = i + 1;
    }
    if ips.len() == 0 {
        return Err(Error::NoRecordsFound);
    }
    Ok(ips)
}

} // verus!
