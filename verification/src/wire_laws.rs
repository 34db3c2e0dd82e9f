use vstd::prelude::*;

use crate::error::Error;
use crate::header::header_spec;
use crate::laws::sorted_by_priority;
use crate::name::{name_spec, name_text, MAX_JUMPS};
use crate::record::{answer_spec, DnsRecordView, IpAddressView, RecordDataView};
use crate::response::{
    answers_spec, ip_records_of, mx_records_of, mx_response_spec, questions_end, MxRecordView,
};

verus! {

/// The big-endian value of the two bytes at `i`, as an integer.
pub open spec fn word(buf: Seq<u8>, i: int) -> int {
    buf[i] * 256 + buf[i + 1]
}

/// A header is accepted exactly when the buffer holds twelve bytes and the
/// low four bits of the flags (the response code, in byte 3) are zero; a
/// nonzero response code is the server's error, whatever its value; the fields
/// of an accepted header are the six big-endian words of the buffer.
pub proof fn header_reports_every_response_code(buf: Seq<u8>)
    ensures
        buf.len() < 12 ==> header_spec(buf) == Err::<crate::header::DnsHeader, Error>(
            Error::MalformedPacket,
        ),
        buf.len() >= 12 && buf[3] % 16 != 0 ==> header_spec(buf) == Err::<
            crate::header::DnsHeader,
            Error,
        >(Error::ServerError((buf[3] % 16) as u16)),
        buf.len() >= 12 && buf[3] % 16 == 0 ==> (header_spec(buf) matches Ok(h) && {
            &&& h.id == word(buf, 0)
            &&& h.flags == word(buf, 2)
            &&& h.questions == word(buf, 4)
            &&& h.answers == word(buf, 6)
            &&& h.authorities == word(buf, 8)
            &&& h.additionals == word(buf, 10)
        }),
{
    if buf.len() >= 12 {
        let hi = buf[2] as int;
        let lo = buf[3] as int;
        assert((hi * 256 + lo) % 16 == lo % 16) by (nonlinear_arith)
            requires
                0 <= hi < 256,
                0 <= lo < 256,
        ;
    }
}

/// A compression pointer whose bytes are `0xC0 + q / 256` and `q % 256`
/// continues the name at offset `q`, for every offset a pointer can hold
/// (up to 0x3FFF): the text read there follows the dot, if any, with one
/// pointer fewer left to follow.
pub proof fn pointer_continues_at_its_offset(buf: Seq<u8>, p: int, q: int, first: bool, jumps: nat)
    requires
        0 <= p,
        p + 1 < buf.len(),
        0 <= q <= 0x3FFF,
        buf[p] == 0xC0 + q / 256,
        buf[p + 1] == q % 256,
        jumps > 0,
    ensures
        name_text(buf, p, first, jumps) == match name_text(buf, q, true, (jumps - 1) as nat) {
            Some(text) => Some(
                if first {
                    text
                } else {
                    seq!['.'] + text
                },
            ),
            None => None,
        },
{
    assert(((0xC0 + q / 256) - 0xC0) * 256 + q % 256 == q);
    if let Some(text) = name_text(buf, q, true, (jumps - 1) as nat) {
        if first {
            assert(Seq::<char>::empty() + text =~= text);
        }
    }
}

/// Parsing a name that starts with a pointer to offset `q` gives the name
/// read at `q`, where that name may follow nine more pointers (ten in all).
pub proof fn pointer_name_parses_as_its_target(buf: Seq<u8>, p: int, q: int, text: Seq<char>)
    requires
        0 <= p,
        p + 1 < buf.len(),
        0 <= q <= 0x3FFF,
        buf[p] == 0xC0 + q / 256,
        buf[p + 1] == q % 256,
        name_text(buf, q, true, 9) == Some(text),
    ensures
        name_spec(buf, p) == Ok::<Seq<char>, Error>(text),
{
    assert(MAX_JUMPS == 10);
    pointer_continues_at_its_offset(buf, p, q, true, MAX_JUMPS as nat);
}

/// What an answer whose owner name ends at `end` parses as, read straight
/// off its bytes: type and data length at `end` and `end + 8`, data from
/// `end + 10`. An A record of four bytes and an AAAA record of sixteen give
/// their address, an MX record its priority and the name after it, and a
/// record of any other type, whole in the buffer, is skipped as `Unknown`.
pub proof fn answers_parse_by_their_type(buf: Seq<u8>, pos: int, end: int)
    requires
        crate::name::name_end(buf, pos) == Some(end),
        end + 10 <= buf.len(),
        end + 10 + word(buf, end + 8) <= buf.len(),
    ensures
        ({
            let t = word(buf, end);
            let len = word(buf, end + 8);
            let p = end + 10;
            &&& t == 1 && len == 4 ==> answer_spec(buf, pos) == Ok::<(DnsRecordView, int), Error>(
                (
                    DnsRecordView {
                        record_type: 1,
                        data: RecordDataView::A(buf.subrange(p, p + 4)),
                    },
                    p + 4,
                ),
            )
            &&& t == 28 && len == 16 ==> answer_spec(buf, pos) == Ok::<
                (DnsRecordView, int),
                Error,
            >(
                (
                    DnsRecordView {
                        record_type: 28,
                        data: RecordDataView::AAAA(buf.subrange(p, p + 16)),
                    },
                    p + 16,
                ),
            )
            &&& (t == 1 && len != 4) || (t == 28 && len != 16) || (t == 15 && len < 2)
                ==> answer_spec(buf, pos) == Err::<(DnsRecordView, int), Error>(
                Error::MalformedPacket,
            )
            &&& t == 15 && len >= 2 ==> match name_spec(buf, p + 2) {
                Ok(server) => answer_spec(buf, pos) == Ok::<(DnsRecordView, int), Error>(
                    (
                        DnsRecordView {
                            record_type: 15,
                            data: RecordDataView::MX { priority: word(buf, p) as u16, server },
                        },
                        p + len,
                    ),
                ),
                Err(e) => answer_spec(buf, pos) == Err::<(DnsRecordView, int), Error>(e),
            }
            &&& t != 1 && t != 15 && t != 28 ==> answer_spec(buf, pos) == Ok::<
                (DnsRecordView, int),
                Error,
            >(
                (DnsRecordView { record_type: t as u16, data: RecordDataView::Unknown }, p + len),
            )
        }),
{
}

/// The addresses of a list of answers are its A and AAAA answers, in order,
/// every one of them: none is dropped, whatever the number of answers.
pub proof fn addresses_are_every_a_and_aaaa_answer(records: Seq<DnsRecordView>, r: DnsRecordView)
    ensures
        ip_records_of(Seq::empty()) == Seq::<IpAddressView>::empty(),
        ip_records_of(records.push(r)) == ip_records_of(records) + match r.data {
            RecordDataView::A(b) => seq![IpAddressView::V4(b)],
            RecordDataView::AAAA(b) => seq![IpAddressView::V6(b)],
            _ => Seq::empty(),
        },
{
    assert(records.push(r).drop_last() =~= records);
}

/// The MX records of a list of answers are its answers of type MX, in order,
/// every one of them, whatever its priority.
pub proof fn mx_records_are_every_mx_answer(records: Seq<DnsRecordView>, r: DnsRecordView)
    ensures
        mx_records_of(Seq::empty()) == Seq::<MxRecordView>::empty(),
        mx_records_of(records.push(r)) == mx_records_of(records) + match r.data {
            RecordDataView::MX { priority, server } => if r.record_type == 15 {
                seq![MxRecordView { priority, server }]
            } else {
                Seq::empty()
            },
            _ => Seq::empty(),
        },
{
    assert(records.push(r).drop_last() =~= records);
}

/// Parsing the MX records of a response keeps every MX answer of its answer
/// section, each once (the same multiset), sorted by priority.
pub proof fn mx_response_keeps_every_mx_answer(
    buf: Seq<u8>,
    p: int,
    records: Seq<DnsRecordView>,
    next: int,
)
    requires
        header_spec(buf) is Ok,
        header_spec(buf)->Ok_0.answers != 0,
        questions_end(buf, 12, header_spec(buf)->Ok_0.questions as nat) == Some(p),
        answers_spec(buf, p, header_spec(buf)->Ok_0.answers as nat) == Ok::<
            (Seq<DnsRecordView>, int),
            Error,
        >((records, next)),
        mx_records_of(records).len() > 0,
    ensures
        mx_response_spec(buf) is Ok,
        mx_response_spec(buf)->Ok_0.to_multiset() == mx_records_of(records).to_multiset(),
        sorted_by_priority(mx_response_spec(buf)->Ok_0),
{
    crate::laws::sort_orders_keeps_and_is_stable(mx_records_of(records));
}

/// Where a name ends, read off its first byte: a zero byte is the whole
/// name, a pointer takes two bytes, and a label of `l` bytes is followed by
/// the rest of the name; a question takes four more bytes after its name.
pub proof fn names_end_by_their_bytes(buf: Seq<u8>, pos: int)
    requires
        0 <= pos < buf.len(),
    ensures
        buf[pos] == 0 ==> crate::name::name_end(buf, pos) == Some(pos + 1),
        buf[pos] >= 0xC0 ==> crate::name::name_end(buf, pos) == Some(pos + 2),
        0 < buf[pos] < 0xC0 && pos + 1 + buf[pos] < buf.len() ==> crate::name::name_end(buf, pos)
            == crate::name::name_end(buf, pos + 1 + buf[pos]),
        0 < buf[pos] < 0xC0 && pos + 1 + buf[pos] >= buf.len() ==> crate::name::name_end(buf, pos)
            is None,
        crate::name::question_end(buf, pos) == match crate::name::name_end(buf, pos) {
            Some(end) => if end + 4 <= buf.len() {
                Some(end + 4)
            } else {
                None
            },
            None => None,
        },
{
}

/// Reading a name label by label: a zero byte ends it, and a label of `l`
/// bytes (below 0xC0) contributes its text, after a dot unless it comes
/// first, then the name goes on after it.
pub proof fn labels_read_in_order(buf: Seq<u8>, pos: int, first: bool, jumps: nat)
    requires
        0 <= pos < buf.len(),
    ensures
        buf[pos] == 0 ==> name_text(buf, pos, first, jumps) == Some(Seq::<char>::empty()),
        0 < buf[pos] < 0xC0 && pos + 1 + buf[pos] <= buf.len() ==> name_text(buf, pos, first, jumps)
            == match name_text(buf, pos + 1 + buf[pos], false, jumps) {
            Some(rest) => Some(
                (if first {
                    Seq::empty()
                } else {
                    seq!['.']
                }) + crate::name::label_text(buf.subrange(pos + 1, pos + 1 + buf[pos])) + rest,
            ),
            None => None,
        },
        0 < buf[pos] < 0xC0 && pos + 1 + buf[pos] > buf.len() ==> name_text(buf, pos, first, jumps)
            is None,
{
}

/// An answer section of `n` records parsed gives exactly `n` records.
pub proof fn answer_sections_hold_every_record(buf: Seq<u8>, pos: int, n: nat)
    ensures
        answers_spec(buf, pos, n) matches Ok((records, _)) ==> records.len() == n,
    decreases n,
{
    if n > 0 {
        answer_sections_hold_every_record(buf, pos, (n - 1) as nat);
    }
}

/// Both kinds of response parsing report the header's error; a response
/// with no answers has no MX records, and none that has no A or AAAA answer
/// has addresses.
pub proof fn responses_report_errors_and_absence(buf: Seq<u8>)
    ensures
        header_spec(buf) matches Err(e) ==> mx_response_spec(buf) == Err::<Seq<MxRecordView>, Error>(
            e,
        ) && crate::response::ip_response_spec(buf) == Err::<Seq<IpAddressView>, Error>(e),
        header_spec(buf) matches Ok(h) && h.answers == 0 ==> mx_response_spec(buf) == Err::<
            Seq<MxRecordView>,
            Error,
        >(Error::NoRecordsFound),
        header_spec(buf) matches Ok(h) ==> match questions_end(buf, 12, h.questions as nat) {
            None => h.answers != 0 ==> mx_response_spec(buf) == Err::<Seq<MxRecordView>, Error>(
                Error::MalformedPacket,
            ),
            Some(p) => match answers_spec(buf, p, h.answers as nat) {
                Ok((records, _)) => ip_records_of(records).len() == 0
                    ==> crate::response::ip_response_spec(buf) == Err::<
                    Seq<IpAddressView>,
                    Error,
                >(Error::NoRecordsFound),
                Err(e) => h.answers != 0 ==> mx_response_spec(buf) == Err::<
                    Seq<MxRecordView>,
                    Error,
                >(e),
            },
        },
        header_spec(buf) matches Ok(h) ==> questions_end(buf, 12, h.questions as nat) is None
            ==> crate::response::ip_response_spec(buf) == Err::<Seq<IpAddressView>, Error>(
            Error::MalformedPacket,
        ),
{
}

/// The value of a sequence of decimal digit characters, most significant
/// first.
pub open spec fn digits_value(s: Seq<char>) -> int
    decreases s.len(),
{
    if s.len() == 0 {
        0
    } else {
        digits_value(s.drop_last()) * 10 + (s.last() as int - 48)
    }
}

/// The decimal text of a number is made of digits, starts with a nonzero
/// digit unless the number is zero, and reads back as the number.
pub proof fn decimal_reads_back(n: nat)
    ensures
        crate::error::decimal(n).len() > 0,
        forall|i: int|
            0 <= i < crate::error::decimal(n).len() ==> '0' <= #[trigger] crate::error::decimal(
                n,
            )[i] <= '9',
        n > 0 ==> crate::error::decimal(n)[0] != '0',
        digits_value(crate::error::decimal(n)) == n,
    decreases n,
{
    let d = crate::error::decimal(n);
    if n < 10 {
        assert(d =~= seq![((n + 48) as char)]);
        assert(((n + 48) as char) as int == n + 48);
        assert(d.drop_last() =~= Seq::<char>::empty());
        assert(digits_value(d.drop_last()) == 0);
        assert(d.last() as int - 48 == n);
        assert(digits_value(d) == n);
    } else {
        decimal_reads_back(n / 10);
        let h = crate::error::decimal(n / 10);
        assert(d.drop_last() =~= h);
        assert(d[0] == h[0]);
        assert forall|i: int| 0 <= i < d.len() implies '0' <= #[trigger] d[i] <= '9' by {
            if i < h.len() {
                assert(d[i] == h[i]);
            }
        }
        assert(((n % 10 + 48) as char) as int == n % 10 + 48);
        assert(d.last() == ((n % 10 + 48) as char));
        assert(n == (n / 10) * 10 + n % 10);
        assert(digits_value(d.drop_last()) == n / 10);
        assert(digits_value(d) == digits_value(d.drop_last()) * 10 + (d.last() as int - 48));
    }
}

/// A question section of `n + 1` questions is the section of `n` questions
/// followed by one more question; one of none ends where it starts.
pub proof fn question_sections_skip_every_question(buf: Seq<u8>, pos: int, n: nat)
    ensures
        questions_end(buf, pos, 0) == Some(pos),
        questions_end(buf, pos, n + 1) == match questions_end(buf, pos, n) {
            Some(p) => crate::name::question_end(buf, p),
            None => None,
        },
{
}

/// An answer section of `n + 1` records is the section of `n` records
/// followed by the record that starts where they end; the first error met
/// ends the section.
pub proof fn answer_sections_parse_in_order(buf: Seq<u8>, pos: int, n: nat)
    ensures
        answers_spec(buf, pos, 0) == Ok::<(Seq<DnsRecordView>, int), Error>((Seq::empty(), pos)),
        answers_spec(buf, pos, n + 1) == match answers_spec(buf, pos, n) {
            Ok((records, p)) => match answer_spec(buf, p) {
                Ok((record, next)) => Ok((records.push(record), next)),
                Err(e) => Err(e),
            },
            Err(e) => Err(e),
        },
{
}

/// A lookup without a configuration asks Cloudflare's two servers, then
/// Google's two, each with a five-second timeout.
pub proof fn default_lookup_servers()
    ensures
        crate::resolver::config_servers(None) == seq!["1.1.1.1"@, "1.0.0.1"@, "8.8.8.8"@, "8.8.4.4"@],
        crate::resolver::config_timeout(None) == 5,
{
}

} // verus!
