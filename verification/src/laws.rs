use vstd::prelude::*;
use vstd::utf8::{
    decode_utf8, encode_scalar, encode_utf8, has_width_1_encoding, is_scalar, pop_first_scalar,
    valid_utf8,
};

use crate::error::Error;
use crate::header::{be16_at, header_spec, DnsHeader, HEADER_LEN};
use crate::name::{
    is_pointer, label_text, name_end, name_spec, name_text, pointer_offset, question_end,
    separator, MAX_JUMPS,
};
use crate::response::{
    insert_by_priority, mx_response_spec, sort_by_priority, MxRecordView,
};
use crate::query::{
    encode_label, encode_labels, first_dot, lemma_first_dot_at, lemma_first_dot_bounds, query_spec,
    DOT, MAX_LABEL_LEN,
};

verus! {

/// The text that the name built from the dotted domain `s` reads back as: its
/// non-empty labels, each read as its `label_text`, joined by dots. `first` tells whether no label has come before.
pub open spec fn domain_text(s: Seq<u8>, first: bool) -> Seq<char>
    decreases s.len(),
{
    let i = first_dot(s);
    let part = s.take(i);
    let piece = if part.len() == 0 {
        Seq::empty()
    } else {
        separator(first) + label_text(part)
    };
    if i >= s.len() {
        piece
    } else {
        proof {
            lemma_first_dot_bounds(s);
        }
        piece + domain_text(s.skip(i + 1), first && part.len() == 0)
    }
}

/// The labels encoded from `s`, laid in `buf` at `p` and closed by a zero
/// byte, read back as the text of `s` and end just after that zero byte.
proof fn lemma_labels_read_back(s: Seq<u8>, buf: Seq<u8>, p: int, first: bool, jumps: nat)
    requires
        encode_labels(s) is Some,
        0 <= p,
        p + encode_labels(s)->0.len() < buf.len(),
        buf.subrange(p, p + encode_labels(s)->0.len()) == encode_labels(s)->0,
        buf[p + encode_labels(s)->0.len()] == 0,
    ensures
        name_text(buf, p, first, jumps) == Some(domain_text(s, first)),
        name_end(buf, p) == Some(p + encode_labels(s)->0.len() + 1),
    decreases s.len(),
{
    lemma_first_dot_bounds(s);
    let e = encode_labels(s)->0;
    let i = first_dot(s);
    let part = s.take(i);
    let n = part.len() as int;
    let last = i >= s.len();
    let r = if last {
        Seq::<u8>::empty()
    } else {
        encode_labels(s.skip(i + 1))->0
    };
    assert(e =~= encode_label(part) + r);
    let q = p + encode_label(part).len();
    assert(buf.subrange(q, q + r.len()) =~= r) by {
        assert forall|k: int| 0 <= k < r.len() implies buf.subrange(q, q + r.len())[k] == r[k] by {
            assert(buf.subrange(p, p + e.len())[q - p + k] == e[q - p + k]);
        }
    }
    if !last {
        lemma_labels_read_back(s.skip(i + 1), buf, q, first && n == 0, jumps);
        if n != 0 {
            lemma_labels_read_back(s.skip(i + 1), buf, q, false, jumps);
        }
    }
    if n == 0 {
        assert(encode_label(part) =~= Seq::<u8>::empty());
        if !last {
            assert(Seq::<char>::empty() + domain_text(s.skip(i + 1), first) =~= domain_text(
                s.skip(i + 1),
                first,
            ));
        }
    } else {
        assert(buf[p] == e[0]);
        assert(buf[p] == n);
        assert(buf.subrange(p + 1, p + 1 + n) =~= part) by {
            assert forall|k: int| 0 <= k < n implies buf.subrange(p + 1, p + 1 + n)[k] == part[k] by {
                assert(buf.subrange(p, p + e.len())[1 + k] == e[1 + k]);
            }
        }
        assert(q == p + 1 + n);
        if last {
            assert(buf[q] == 0);
            assert(separator(first) + label_text(part) + Seq::<char>::empty() =~= separator(first)
                + label_text(part));
        } else {
            assert(separator(first) + label_text(part) + domain_text(s.skip(i + 1), false) =~= (
            separator(first) + label_text(part)) + domain_text(s.skip(i + 1), false));
        }
    }
}

/// A query built for a domain reads back as that query: a header with ID 1,
/// recursion desired, no error and one question; a question section that ends
/// where the packet ends; a name whose text is the domain's non-empty labels
/// joined by dots; and the requested type with class IN.
pub proof fn query_reads_back(domain: Seq<u8>, record_type: u16)
    requires
        query_spec(domain, record_type) is Ok,
    ensures
        ({
            let q = query_spec(domain, record_type)->Ok_0;
            &&& header_spec(q) == Ok::<DnsHeader, Error>(
                (DnsHeader {
                    id: 1,
                    flags: 0x0100,
                    questions: 1,
                    answers: 0,
                    authorities: 0,
                    additionals: 0,
                }),
            )
            &&& question_end(q, HEADER_LEN as int) == Some(q.len() as int)
            &&& name_spec(q, HEADER_LEN as int) == Ok::<Seq<char>, Error>(domain_text(domain, true))
            &&& be16_at(q, q.len() - 4) == record_type
            &&& be16_at(q, q.len() - 2) == 1
        }),
{
    let q = query_spec(domain, record_type)->Ok_0;
    let e = encode_labels(domain)->0;
    assert(q.subrange(12, 12 + e.len() as int) =~= e);
    assert(q[12 + e.len() as int] == 0);
    lemma_labels_read_back(domain, q, 12, true, MAX_JUMPS as nat);
    assert(((record_type / 256) as u8 as int * 256 + (record_type % 256) as u8 as int) as u16
        == record_type);
}

/// The records are in ascending order of priority.
pub open spec fn sorted_by_priority(s: Seq<MxRecordView>) -> bool {
    forall|i: int, j: int| 0 <= i <= j < s.len() ==> s[i].priority <= s[j].priority
}

/// The records of priority `p`, in their order.
pub open spec fn with_priority(s: Seq<MxRecordView>, p: u16) -> Seq<MxRecordView>
    decreases s.len(),
{
    if s.len() == 0 {
        Seq::empty()
    } else if s.last().priority == p {
        with_priority(s.drop_last(), p).push(s.last())
    } else {
        with_priority(s.drop_last(), p)
    }
}

/// Inserting a record keeps every priority under a bound that all the records
/// keep.
proof fn lemma_insert_bound(s: Seq<MxRecordView>, r: MxRecordView, b: u16)
    requires
        forall|i: int| 0 <= i < s.len() ==> s[i].priority <= b,
        r.priority <= b,
    ensures
        insert_by_priority(s, r).len() == s.len() + 1,
        forall|i: int|
            0 <= i < insert_by_priority(s, r).len() ==> insert_by_priority(s, r)[i].priority <= b,
    decreases s.len(),
{
    if s.len() > 0 && s.last().priority > r.priority {
        lemma_insert_bound(s.drop_last(), r, b);
    }
}

/// Inserting a record into sorted records keeps them sorted and adds just
/// that record.
proof fn lemma_insert_sorted(s: Seq<MxRecordView>, r: MxRecordView)
    requires
        sorted_by_priority(s),
    ensures
        sorted_by_priority(insert_by_priority(s, r)),
        insert_by_priority(s, r).to_multiset() == s.to_multiset().insert(r),
    decreases s.len(),
{
    broadcast use vstd::seq_lib::group_to_multiset_ensures;

    if s.len() == 0 {
        assert(seq![r] =~= Seq::<MxRecordView>::empty().push(r));
    } else if s.last().priority <= r.priority {
    } else {
        let t = s.drop_last();
        let l = s.last();
        lemma_insert_sorted(t, r);
        lemma_insert_bound(t, r, l.priority);
        assert(s =~= t.push(l));
        assert(insert_by_priority(t, r).push(l).to_multiset() =~= s.to_multiset().insert(r));
    }
}

/// Inserting a record puts it after the records of its priority and leaves
/// the records of every other priority as they were.
proof fn lemma_insert_stable(s: Seq<MxRecordView>, r: MxRecordView, p: u16)
    ensures
        with_priority(insert_by_priority(s, r), p) == if r.priority == p {
            with_priority(s, p).push(r)
        } else {
            with_priority(s, p)
        },
    decreases s.len(),
{
    if s.len() == 0 {
        assert(seq![r].drop_last() =~= Seq::<MxRecordView>::empty());
        assert(with_priority(Seq::<MxRecordView>::empty(), p).push(r) =~= seq![r]);
    } else if s.last().priority <= r.priority {
        assert(s.push(r).drop_last() =~= s);
        assert(s.push(r).last() == r);
    } else {
        let t = s.drop_last();
        lemma_insert_stable(t, r, p);
        assert(insert_by_priority(t, r).push(s.last()).drop_last() =~= insert_by_priority(t, r));
        if r.priority == p && s.last().priority == p {
            assert(false);
        }
        if s.last().priority == p {
            assert(with_priority(s, p) =~= with_priority(t, p).push(s.last()));
        }
    }
}

/// Sorting by priority orders the records, keeps every record (the same
/// multiset), and keeps the records of each priority in their order.
pub proof fn sort_orders_keeps_and_is_stable(s: Seq<MxRecordView>)
    ensures
        sorted_by_priority(sort_by_priority(s)),
        sort_by_priority(s).to_multiset() == s.to_multiset(),
        forall|p: u16| #[trigger] with_priority(sort_by_priority(s), p) == with_priority(s, p),
    decreases s.len(),
{
    broadcast use vstd::seq_lib::group_to_multiset_ensures;

    if s.len() == 0 {
        assert(s.to_multiset() =~= vstd::multiset::Multiset::empty());
    } else {
        let t = s.drop_last();
        sort_orders_keeps_and_is_stable(t);
        lemma_insert_sorted(sort_by_priority(t), s.last());
        assert(s =~= t.push(s.last()));
        assert forall|p: u16| #[trigger] with_priority(sort_by_priority(s), p) == with_priority(s, p) by {
            lemma_insert_stable(sort_by_priority(t), s.last(), p);
        }
    }
}

/// The MX records that a response gives are sorted by priority, lowest
/// first, and there is at least one.
pub proof fn mx_records_come_sorted(buf: Seq<u8>)
    requires
        mx_response_spec(buf) is Ok,
    ensures
        sorted_by_priority(mx_response_spec(buf)->Ok_0),
        mx_response_spec(buf)->Ok_0.len() > 0,
{
    broadcast use vstd::seq_lib::group_to_multiset_ensures;

    let v = mx_response_spec(buf)->Ok_0;
    let u = choose|u: Seq<MxRecordView>| u.len() > 0 && v == sort_by_priority(u);
    sort_orders_keeps_and_is_stable(u);
}

/// Bytes below 0x80 are valid UTF-8 and decode one character per byte, each
/// with the byte's value.
pub proof fn ascii_bytes_decode_as_chars(x: Seq<u8>)
    requires
        forall|k: int| 0 <= k < x.len() ==> x[k] < 0x80,
    ensures
        valid_utf8(x),
        decode_utf8(x).len() == x.len(),
        forall|k: int| 0 <= k < x.len() ==> (#[trigger] decode_utf8(x)[k]) as u32 == x[k] as u32,
    decreases x.len(),
{
    if x.len() > 0 {
        let b = x[0];
        let rest = x.subrange(1, x.len() as int);
        assert(b & 0x7F == b) by (bit_vector)
            requires
                b < 0x80,
        ;
        assert(pop_first_scalar(x) =~= rest);
        ascii_bytes_decode_as_chars(rest);
        let d = decode_utf8(x);
        assert forall|k: int| 0 <= k < x.len() implies (#[trigger] d[k]) as u32 == x[k] as u32 by {
            if k > 0 {
                assert(d[k] == decode_utf8(rest)[k - 1]);
                assert(x[k] == rest[k - 1]);
            }
        }
    }
}

/// The index of the first `.` in `s`, or its length when it holds none.
pub open spec fn first_dot_char(s: Seq<char>) -> int
    decreases s.len(),
{
    if s.len() == 0 {
        0
    } else if s[0] == '.' {
        0
    } else {
        1 + first_dot_char(s.drop_first())
    }
}

/// The dotted text `s` with its empty labels left out: its non-empty labels
/// joined by dots. `first` tells whether no label has come before.
pub open spec fn dotted_text(s: Seq<char>, first: bool) -> Seq<char>
    decreases s.len(),
{
    let i = first_dot_char(s);
    let part = s.take(i);
    let piece = if part.len() == 0 {
        Seq::empty()
    } else {
        separator(first) + part
    };
    if i >= s.len() || i < 0 {
        piece
    } else {
        piece + dotted_text(s.skip(i + 1), first && part.len() == 0)
    }
}

/// The first `.` of a text lies within it, and no `.` comes before it.
proof fn lemma_first_dot_char_bounds(s: Seq<char>)
    ensures
        0 <= first_dot_char(s) <= s.len(),
        first_dot_char(s) < s.len() ==> s[first_dot_char(s)] == '.',
        forall|k: int| 0 <= k < first_dot_char(s) ==> s[k] != '.',
    decreases s.len(),
{
    if s.len() > 0 && s[0] != '.' {
        lemma_first_dot_char_bounds(s.drop_first());
        assert forall|k: int| 0 <= k < first_dot_char(s) implies s[k] != '.' by {
            if k > 0 {
                assert(s[k] == s.drop_first()[k - 1]);
            }
        }
    }
}

/// The encoding of two texts put together is their encodings put together.
proof fn lemma_encode_concat(a: Seq<char>, b: Seq<char>)
    ensures
        encode_utf8(a + b) == encode_utf8(a) + encode_utf8(b),
    decreases a.len(),
{
    if a.len() == 0 {
        assert(a + b =~= b);
        assert(encode_utf8(a) + encode_utf8(b) =~= encode_utf8(b));
    } else {
        assert((a + b).drop_first() =~= a.drop_first() + b);
        lemma_encode_concat(a.drop_first(), b);
        assert(encode_scalar(a[0] as u32) + (encode_utf8(a.drop_first()) + encode_utf8(b))
            =~= encode_scalar(a[0] as u32) + encode_utf8(a.drop_first()) + encode_utf8(b));
    }
}

/// Each byte of a scalar's encoding is the scalar itself, for a scalar of one
/// byte, and at least 0x80 otherwise.
proof fn lemma_scalar_bytes(v: u32)
    requires
        is_scalar(v),
    ensures
        encode_scalar(v).len() >= 1,
        has_width_1_encoding(v) ==> encode_scalar(v) == seq![v as u8],
        !has_width_1_encoding(v) ==> forall|j: int|
            0 <= j < encode_scalar(v).len() ==> encode_scalar(v)[j] >= 0x80,
{
    assert(v <= 0x7F ==> (v & 0x7F) as u8 == v as u8) by (bit_vector);
    assert(forall|x: u8| #![auto] (0xC0u8 | x) >= 0x80) by (bit_vector);
    assert(forall|x: u8| #![auto] (0xE0u8 | x) >= 0x80) by (bit_vector);
    assert(forall|x: u8| #![auto] (0xF0u8 | x) >= 0x80) by (bit_vector);
    assert(forall|x: u8| #![auto] (0x80u8 | x) >= 0x80) by (bit_vector);
    if has_width_1_encoding(v) {
        assert(encode_scalar(v) =~= seq![v as u8]);
    }
}

/// The encoding of a text is at least as long as the text, and holds a dot
/// byte only where the text holds a `.`: none at all in a text without one.
proof fn lemma_encode_dot_free(s: Seq<char>)
    ensures
        encode_utf8(s).len() >= s.len(),
        (forall|k: int| 0 <= k < s.len() ==> s[k] != '.') ==> forall|j: int|
            0 <= j < encode_utf8(s).len() ==> encode_utf8(s)[j] != DOT,
    decreases s.len(),
{
    if s.len() > 0 {
        let c = s[0];
        let v = c as u32;
        vstd::utf8::char_is_scalar(c);
        lemma_scalar_bytes(v);
        lemma_encode_dot_free(s.drop_first());
        let e = encode_scalar(v);
        let r = encode_utf8(s.drop_first());
        if forall|k: int| 0 <= k < s.len() ==> s[k] != '.' {
            assert(forall|k: int| 0 <= k < s.drop_first().len() ==> s.drop_first()[k] != '.') by {
                assert forall|k: int| 0 <= k < s.drop_first().len() implies s.drop_first()[k]
                    != '.' by {
                    assert(s.drop_first()[k] == s[k + 1]);
                }
            }
            assert(s[0] != '.');
            assert('.' as u32 == 0x2E);
            if has_width_1_encoding(v) {
                if v == 0x2E {
                    vstd::utf8::char_u32_cast(c, 0x2E);
                    vstd::utf8::char_u32_cast('.', 0x2E);
                }
                assert(e[0] != DOT);
            }
            assert forall|j: int| 0 <= j < encode_utf8(s).len() implies encode_utf8(s)[j]
                != DOT by {
                if j < e.len() {
                    assert(encode_utf8(s)[j] == e[j]);
                } else {
                    assert(encode_utf8(s)[j] == r[j - e.len()]);
                }
            }
        }
    }
}

/// The name built from the encoding of a text reads back as that text with its
/// empty labels left out.
proof fn lemma_utf8_domain_text(s: Seq<char>, first: bool)
    ensures
        domain_text(encode_utf8(s), first) == dotted_text(s, first),
    decreases s.len(),
{
    lemma_first_dot_char_bounds(s);
    let i = first_dot_char(s);
    let a = s.take(i);
    let b = encode_utf8(s);
    let ea = encode_utf8(a);
    let m = ea.len() as int;
    assert forall|k: int| 0 <= k < a.len() implies a[k] != '.' by {
        assert(a[k] == s[k]);
    }
    lemma_encode_dot_free(a);
    vstd::utf8::encode_utf8_valid_utf8(a);
    vstd::utf8::encode_utf8_decode_utf8(a);
    if i < s.len() {
        let rest = s.skip(i + 1);
        assert(s =~= a + (seq!['.'] + rest));
        lemma_encode_concat(a, seq!['.'] + rest);
        lemma_encode_concat(seq!['.'], rest);
        assert('.' as u32 == 0x2E);
        lemma_scalar_bytes('.' as u32);
        assert(seq!['.'].drop_first() =~= Seq::<char>::empty());
        assert(seq!['.'][0] == '.');
        assert(encode_utf8(Seq::<char>::empty()) =~= Seq::<u8>::empty());
        assert(encode_scalar('.' as u32) == seq![DOT]);
        assert(encode_utf8(seq!['.']) =~= seq![DOT]);
        let er = encode_utf8(rest);
        assert(b =~= ea + seq![DOT] + er);
        assert(b[m] == DOT);
        lemma_first_dot_at(b, m);
        assert(b.take(m) =~= ea);
        assert(b.skip(m + 1) =~= er);
        lemma_encode_dot_free(rest);
        lemma_utf8_domain_text(rest, first && a.len() == 0);
    } else {
        assert(a =~= s);
        lemma_first_dot_at(b, m);
        assert(b.take(m) =~= ea);
    }
}

/// A query built for a domain holds a name that reads back as the domain with
/// its empty labels left out: `"example.com."` and `"example..com"` read back
/// as `"example.com"`, and a label in any script reads back as itself.
pub proof fn query_reads_back_as_domain(domain: Seq<char>, record_type: u16)
    requires
        query_spec(encode_utf8(domain), record_type) is Ok,
    ensures
        name_spec(query_spec(encode_utf8(domain), record_type)->Ok_0, HEADER_LEN as int)
            == Ok::<Seq<char>, Error>(dotted_text(domain, true)),
{
    query_reads_back(encode_utf8(domain), record_type);
    lemma_utf8_domain_text(domain, true);
}

/// The non-empty labels of the dotted domain `s`, in order.
pub open spec fn labels_of(s: Seq<u8>) -> Seq<Seq<u8>>
    decreases s.len(),
{
    let i = first_dot(s);
    let part = s.take(i);
    let head = if part.len() == 0 {
        Seq::empty()
    } else {
        seq![part]
    };
    if i >= s.len() {
        head
    } else {
        proof {
            lemma_first_dot_bounds(s);
        }
        head + labels_of(s.skip(i + 1))
    }
}

/// The wire form of a list of labels; `None` when one is longer than 63
/// bytes.
pub open spec fn encode_parts(labels: Seq<Seq<u8>>) -> Option<Seq<u8>>
    decreases labels.len(),
{
    if labels.len() == 0 {
        Some(Seq::empty())
    } else if labels[0].len() > MAX_LABEL_LEN {
        None
    } else {
        match encode_parts(labels.drop_first()) {
            Some(rest) => Some(encode_label(labels[0]) + rest),
            None => None,
        }
    }
}

/// The labels of a domain are encoded from its non-empty labels alone.
proof fn lemma_encode_labels_by_parts(s: Seq<u8>)
    ensures
        encode_labels(s) == encode_parts(labels_of(s)),
    decreases s.len(),
{
    lemma_first_dot_bounds(s);
    let i = first_dot(s);
    let part = s.take(i);
    if part.len() > MAX_LABEL_LEN {
        assert(labels_of(s)[0] == part);
    } else if i < s.len() {
        let rest = s.skip(i + 1);
        lemma_encode_labels_by_parts(rest);
        if part.len() == 0 {
            assert(Seq::<Seq<u8>>::empty() + labels_of(rest) =~= labels_of(rest));
            if let Some(r) = encode_labels(rest) {
                assert(encode_label(part) + r =~= r);
            }
        } else {
            let ls = seq![part] + labels_of(rest);
            assert(ls[0] == part);
            assert(ls.drop_first() =~= labels_of(rest));
        }
    } else if part.len() != 0 {
        assert(labels_of(s) == seq![part]);
        assert(seq![part].drop_first() =~= Seq::<Seq<u8>>::empty());
        assert(encode_parts(Seq::<Seq<u8>>::empty()) == Some(Seq::<u8>::empty()));
        assert(encode_label(part) + Seq::<u8>::empty() =~= encode_label(part));
    } else {
        assert(labels_of(s) =~= Seq::<Seq<u8>>::empty());
        assert(encode_label(part) =~= Seq::<u8>::empty());
    }
}

/// Empty labels are ignored: two domains with the same non-empty labels (such
/// as `"example.com."` and `"..example.com"`) give the same query.
pub proof fn queries_depend_on_nonempty_labels_only(d1: Seq<u8>, d2: Seq<u8>, record_type: u16)
    requires
        labels_of(d1) == labels_of(d2),
    ensures
        query_spec(d1, record_type) == query_spec(d2, record_type),
{
    lemma_encode_labels_by_parts(d1);
    lemma_encode_labels_by_parts(d2);
}

/// Where reading labels from `pos` runs into a compression pointer: its
/// position, or `None` when the name ends first or is cut short.
pub open spec fn next_pointer(buf: Seq<u8>, pos: int) -> Option<int>
    decreases buf.len() - pos,
{
    if !(0 <= pos < buf.len()) {
        None
    } else if buf[pos] == 0 {
        None
    } else if is_pointer(buf[pos]) {
        Some(pos)
    } else if pos + 1 + buf[pos] > buf.len() {
        None
    } else {
        next_pointer(buf, pos + 1 + buf[pos])
    }
}

/// The position that the pointer at `p` points to.
pub open spec fn target(buf: Seq<u8>, p: int) -> int {
    pointer_offset(buf[p], buf[p + 1])
}

/// `p` holds a whole compression pointer.
pub open spec fn is_pointer_at(buf: Seq<u8>, p: int) -> bool {
    0 <= p && p + 1 < buf.len() && is_pointer(buf[p])
}

/// A name that reaches a pointer from whose name nothing can be read cannot
/// be read either.
proof fn lemma_refused_through_labels(buf: Seq<u8>, pos: int, first: bool, jumps: nat, q: int)
    requires
        next_pointer(buf, pos) == Some(q),
        forall|g: bool| #[trigger] name_text(buf, q, g, jumps) is None,
    ensures
        name_text(buf, pos, first, jumps) is None,
    decreases buf.len() - pos,
{
    if pos != q {
        lemma_refused_through_labels(buf, pos + 1 + buf[pos], false, jumps, q);
    } else {
        assert(name_text(buf, q, first, jumps) is None);
    }
}

/// A chain of pointers, each reached from the target of the one before, with
/// more pointers than may still be followed, cannot be read.
proof fn lemma_chain_refused(buf: Seq<u8>, chain: Seq<int>, jumps: nat)
    requires
        chain.len() > jumps,
        forall|i: int| 0 <= i < chain.len() ==> is_pointer_at(buf, #[trigger] chain[i]),
        forall|i: int|
            0 <= i < chain.len() - 1 ==> next_pointer(buf, target(buf, #[trigger] chain[i]))
                == Some(chain[i + 1]),
    ensures
        forall|g: bool| #[trigger] name_text(buf, chain[0], g, jumps) is None,
    decreases jumps,
{
    assert(is_pointer_at(buf, chain[0]));
    if jumps > 0 {
        let rest = chain.drop_first();
        assert forall|i: int| 0 <= i < rest.len() - 1 implies next_pointer(
            buf,
            target(buf, #[trigger] rest[i]),
        ) == Some(rest[i + 1]) by {
            assert(rest[i] == chain[i + 1]);
            assert(rest[i + 1] == chain[i + 2]);
        }
        assert forall|i: int| 0 <= i < rest.len() implies is_pointer_at(buf, #[trigger] rest[i]) by {
            assert(rest[i] == chain[i + 1]);
        }
        lemma_chain_refused(buf, rest, (jumps - 1) as nat);
        assert(next_pointer(buf, target(buf, chain[0])) == Some(chain[1]));
        lemma_refused_through_labels(buf, target(buf, chain[0]), true, (jumps - 1) as nat, rest[0]);
    }
}

/// A name that runs through more than `MAX_JUMPS` compression pointers is
/// malformed: `chain` lists the pointers met, the first reached from `pos`,
/// each next one reached by reading labels from the target of the one before.
pub proof fn too_many_pointers_is_malformed(buf: Seq<u8>, pos: int, chain: Seq<int>)
    requires
        chain.len() > MAX_JUMPS,
        next_pointer(buf, pos) == Some(chain[0]),
        forall|i: int| 0 <= i < chain.len() ==> is_pointer_at(buf, #[trigger] chain[i]),
        forall|i: int|
            0 <= i < chain.len() - 1 ==> next_pointer(buf, target(buf, #[trigger] chain[i]))
                == Some(chain[i + 1]),
    ensures
        name_spec(buf, pos) == Err::<Seq<char>, Error>(Error::MalformedPacket),
{
    lemma_chain_refused(buf, chain, MAX_JUMPS as nat);
    lemma_refused_through_labels(buf, pos, true, MAX_JUMPS as nat, chain[0]);
}

/// A loop of compression pointers is never followed for ever: when reading
/// from `pos` runs into a cycle of pointers, each reached from the target of
/// the one before and the first from the target of the last, the name cannot
/// be read, whatever number of pointers may be followed.
pub proof fn pointer_loop_is_malformed(buf: Seq<u8>, pos: int, cycle: Seq<int>, jumps: nat)
    requires
        cycle.len() > 0,
        next_pointer(buf, pos) == Some(cycle[0]),
        forall|i: int| 0 <= i < cycle.len() ==> is_pointer_at(buf, #[trigger] cycle[i]),
        forall|i: int|
            0 <= i < cycle.len() - 1 ==> next_pointer(buf, target(buf, #[trigger] cycle[i]))
                == Some(cycle[i + 1]),
        next_pointer(buf, target(buf, cycle.last())) == Some(cycle[0]),
    ensures
        name_text(buf, pos, true, jumps) is None,
        name_spec(buf, pos) == Err::<Seq<char>, Error>(Error::MalformedPacket),
{
    lemma_cycle_refused(buf, cycle, jumps);
    lemma_refused_through_labels(buf, pos, true, jumps, cycle[0]);
    lemma_cycle_refused(buf, cycle, MAX_JUMPS as nat);
    lemma_refused_through_labels(buf, pos, true, MAX_JUMPS as nat, cycle[0]);
}

/// No pointer of a cycle can be read from, whatever the budget.
proof fn lemma_cycle_refused(buf: Seq<u8>, cycle: Seq<int>, jumps: nat)
    requires
        cycle.len() > 0,
        forall|i: int| 0 <= i < cycle.len() ==> is_pointer_at(buf, #[trigger] cycle[i]),
        forall|i: int|
            0 <= i < cycle.len() - 1 ==> next_pointer(buf, target(buf, #[trigger] cycle[i]))
                == Some(cycle[i + 1]),
        next_pointer(buf, target(buf, cycle.last())) == Some(cycle[0]),
    ensures
        forall|i: int, g: bool|
            0 <= i < cycle.len() ==> #[trigger] name_text(buf, cycle[i], g, jumps) is None,
    decreases jumps,
{
    if jumps > 0 {
        lemma_cycle_refused(buf, cycle, (jumps - 1) as nat);
        assert forall|i: int, g: bool| 0 <= i < cycle.len() implies #[trigger] name_text(
            buf,
            cycle[i],
            g,
            jumps,
        ) is None by {
            assert(is_pointer_at(buf, cycle[i]));
            let next = if i < cycle.len() - 1 {
                i + 1
            } else {
                0
            };
            assert(next_pointer(buf, target(buf, cycle[i])) == Some(cycle[next]));
            assert forall|h: bool| #[trigger] name_text(buf, cycle[next], h, (jumps - 1) as nat) is None by {
            }
            lemma_refused_through_labels(buf, target(buf, cycle[i]), true, (jumps - 1) as nat, cycle[next]);
        }
    } else {
        assert forall|i: int, g: bool| 0 <= i < cycle.len() implies #[trigger] name_text(
            buf,
            cycle[i],
            g,
            jumps,
        ) is None by {
            assert(is_pointer_at(buf, cycle[i]));
        }
    }
}

} // verus!
