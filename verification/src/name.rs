use vstd::prelude::*;
use vstd::utf8::{decode_utf8, valid_utf8};

use crate::error::Error;

verus! {

/// How many compression pointers a name may follow before it is taken
/// for a loop.
pub const MAX_JUMPS: usize = 10;

/// A length byte that starts a compression pointer (its two high bits set).
pub open spec fn is_pointer(b: u8) -> bool {
    b >= 0xC0
}

/// The offset that the pointer starting with `hi` and followed by `lo` names.
pub open spec fn pointer_offset(hi: u8, lo: u8) -> int {
    (hi - 0xC0) * 256 + lo
}

/// Where the name starting at `pos` ends, skipping its labels without
/// following a pointer: `None` when the name runs past the buffer.
pub open spec fn name_end(buf: Seq<u8>, pos: int) -> Option<int>
    decreases buf.len() - pos,
{
    if !(0 <= pos < buf.len()) {
        None
    } else if buf[pos] == 0 {
        Some(pos + 1)
    } else if is_pointer(buf[pos]) {
        Some(pos + 2)
    } else if pos + buf[pos] + 1 >= buf.len() {
        None
    } else {
        name_end(buf, pos + buf[pos] + 1)
    }
}

/// Where the question that starts at `pos` ends: its name, then four bytes
/// of type and class.
pub open spec fn question_end(buf: Seq<u8>, pos: int) -> Option<int> {
    match name_end(buf, pos) {
        Some(end) => if end + 4 <= buf.len() {
            Some(end + 4)
        } else {
            None
        },
        None => None,
    }
}

/// Skips the name that starts at `pos`; the position after it, where that
/// lies within the buffer.
pub fn skip_name(buffer: &[u8], pos: usize) -> (res: Option<usize>)
    ensures
        res matches Some(end) ==> name_end(buffer@, pos as int) == Some(end as int) && pos < end
            <= buffer@.len(),
        res is None ==> match name_end(buffer@, pos as int) {
            Some(end) => end > buffer@.len(),
            None => true,
        },
{
    let len = buffer.len();
    if pos >= len {
        return None;
    }
    let mut p = pos;
    loop
        invariant
            pos <= p < len == buffer@.len(),
            name_end(buffer@, p as int) == name_end(buffer@, pos as int),
        decreases len - p,
    {
        let l = buffer[p];
        if l == 0 {
            return Some(p + 1);
        }
        // Handle compression pointers (0xC0 mask)
        assert(l & 0xC0 == 0xC0 <==> l >= 0xC0) by (bit_vector);
        if l & 0xC0 == 0xC0 {
            if len - p < 2 {
                return None;
            }
            return Some(p + 2);
        }
        if l as usize + 1 >= len - p {
            return None;
        }
        p = p + l as usize + 1;
    }
}

/// Skip DNS question section
pub fn skip_question(buffer: &[u8], pos: usize) -> (res: Result<usize, Error>)
    ensures
        res matches Ok(end) ==> question_end(buffer@, pos as int) == Some(end as int) && pos < end
            <= buffer@.len(),
        res is Err ==> question_end(buffer@, pos as int) is None && res == Err::<usize, Error>(
            Error::MalformedPacket,
        ),
{
    match skip_name(buffer, pos) {
        Some(end) => {
            // Skip type and class (4 bytes)
            if buffer.len() - end < 4 {
                Err(Error::MalformedPacket)
            } else {
                Ok(end + 4)
            }
        },
        None => Err(Error::MalformedPacket),
    }
}

/// A name for the text that `String::from_utf8_lossy` makes of a byte
/// string: the bytes decoded as UTF-8, each invalid sequence replaced by
/// U+FFFD.
pub uninterp spec fn utf8_lossy(bytes: Seq<u8>) -> Seq<char>;

/// Calls `String::from_utf8_lossy`. Claimed: the text is `utf8_lossy` of the
/// bytes, and for valid UTF-8 it is the decoded text, unchanged, as the std
/// documentation says; what the replacement of invalid sequences gives is
/// left unsaid beyond the name.
#[verifier::external_body]
fn lossy_text(bytes: &[u8]) -> (text: String)
    ensures
        text@ == utf8_lossy(bytes@),
        valid_utf8(bytes@) ==> text@ == decode_utf8(bytes@),
{
    String::from_utf8_lossy(bytes).into_owned()
}

/// The text of a label's bytes: the decoded text for valid UTF-8, what
/// `String::from_utf8_lossy` makes of them otherwise.
pub open spec fn label_text(bytes: Seq<u8>) -> Seq<char> {
    if valid_utf8(bytes) {
        decode_utf8(bytes)
    } else {
        utf8_lossy(bytes)
    }
}

/// The dot put before a label or a pointed-to remainder, unless it is the
/// first part of the name.
pub open spec fn separator(first: bool) -> Seq<char> {
    if first {
        Seq::empty()
    } else {
        seq!['.']
    }
}

/// The text of the name that starts at `pos`, read label by label: `first`
/// tells whether nothing has been read yet, `jumps` how many more pointers may
/// be followed. `None` when the name is malformed.
pub open spec fn name_text(buf: Seq<u8>, pos: int, first: bool, jumps: nat) -> Option<Seq<char>>
    decreases jumps, buf.len() - pos,
{
    if !(0 <= pos < buf.len()) {
        None
    } else if buf[pos] == 0 {
        Some(Seq::empty())
    } else if is_pointer(buf[pos]) {
        if pos + 1 >= buf.len() || jumps == 0 {
            None
        } else {
            match name_text(buf, pointer_offset(buf[pos], buf[pos + 1]), true, (jumps - 1) as nat) {
                Some(rest) => Some(separator(first) + rest),
                None => None,
            }
        }
    } else if pos + 1 + buf[pos] > buf.len() {
        None
    } else {
        let end = pos + 1 + buf[pos];
        match name_text(buf, end, false, jumps) {
            Some(rest) => Some(separator(first) + label_text(buf.subrange(pos + 1, end)) + rest),
            None => None,
        }
    }
}

/// What parsing the name at `pos` gives.
pub open spec fn name_spec(buf: Seq<u8>, pos: int) -> Result<Seq<char>, Error> {
    match name_text(buf, pos, true, MAX_JUMPS as nat) {
        Some(text) => Ok(text),
        None => Err(Error::MalformedPacket),
    }
}

/// `prefix` put before the text of `rest`, if any.
pub open spec fn prepend(prefix: Seq<char>, rest: Option<Seq<char>>) -> Option<Seq<char>> {
    match rest {
        Some(r) => Some(prefix + r),
        None => None,
    }
}

/// Reads the name at `pos`, following at most `jumps` pointers.
fn read_name(buffer: &[u8], pos: usize, jumps: usize) -> (res: Option<String>)
    ensures
        res matches Some(text) ==> name_text(buffer@, pos as int, true, jumps as nat) == Some(
            text@,
        ),
        res is None ==> name_text(buffer@, pos as int, true, jumps as nat) is None,
    decreases jumps,
{
    let len = buffer.len();
    if pos >= len {
        return None;
    }
    let mut name = String::new();
    let mut first = true;
    let mut p = pos;
    proof {
        if let Some(r) = name_text(buffer@, pos as int, true, jumps as nat) {
            assert(name@ + r =~= r);
        }
    }
    loop
        invariant
            p <= len == buffer@.len(),
            first ==> name@ == Seq::<char>::empty(),
            name_text(buffer@, pos as int, true, jumps as nat) == prepend(
                name@,
                name_text(buffer@, p as int, first, jumps as nat),
            ),
        decreases len - p,
    {
        if p >= len {
            return None;
        }
        let l = buffer[p];
        // End of name
        if l == 0 {
            assert(name@ + Seq::<char>::empty() =~= name@);
            return Some(name);
        }
        // Handle compression pointers
        assert(l & 0xC0 == 0xC0 <==> l >= 0xC0) by (bit_vector);
        if l & 0xC0 == 0xC0 {
            if p + 1 >= len || jumps == 0 {
                return None;
            }
            let offset = (l - 0xC0) as usize * 256 + buffer[p + 1] as usize;
            let ghost before = name@;
            if !first {
                proof {
                    reveal_strlit(".");
                }
                name.append(".");
            }
            // Append the name from the offset position
            match read_name(buffer, offset, jumps - 1) {
                Some(remainder) => {
                    name.append(remainder.as_str());
                    assert(before + (separator(first) + remainder@) =~= name@);
                    return Some(name);
                },
                None => {
                    return None;
                },
            }
        }
        // Regular label
        if l as usize > len - p - 1 {
            return None;
        }
        let end = p + 1 + l as usize;
        let ghost before = name@;
        let ghost was_first = first;
        let ghost rest = name_text(buffer@, end as int, false, jumps as nat);
        if !first {
            proof {
                reveal_strlit(".");
            }
            name.append(".");
        }
        first = false;
        let label = lossy_text(&buffer[p + 1..end]);
        name.append(label.as_str());
        proof {
            if rest is Some {
                assert(before + (separator(was_first) + label@ + rest->0) =~= name@ + rest->0);
            }
        }
        p = end;
    }
}

/// Parse DNS name from buffer
///
/// Compression pointers are followed, at most `MAX_JUMPS` of them in all: a
/// name that needs more, such as one whose pointers form a loop, is malformed.
pub fn parse_dns_name(buffer: &[u8], pos: usize) -> (res: Result<String, Error>)
    ensures
        match res {
            Ok(text) => name_spec(buffer@, pos as int) == Ok::<Seq<char>, Error>(text@),
            Err(e) => name_spec(buffer@, pos as int) is Err && e == Error::MalformedPacket,
        },
{
    match read_name(buffer, pos, MAX_JUMPS) {
        Some(name) => Ok(name),
        None => Err(Error::MalformedPacket),
    }
}

} // verus!
