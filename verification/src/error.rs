use vstd::prelude::*;
use vstd::string::to_string_from_display_ensures;

verus! {

/// `std::io::Error`, carried unopened in `Error::Io`.
#[verifier::external_type_specification]
#[verifier::external_body]
pub struct ExIoError(std::io::Error);

/// Error type for DNS operations
#[derive(Debug)]
pub enum Error {
    /// An IO error occurred
    Io(std::io::Error),
    /// DNS query timed out
    Timeout,
    /// DNS server returned an error code
    ServerError(u16),
    /// No records found for the requested domain/type
    NoRecordsFound,
    /// Malformed DNS packet
    MalformedPacket,
}

impl From<std::io::Error> for Error {
    fn from(err: std::io::Error) -> (res: Self) {
        Error::Io(err)
    }
}

impl vstd::std_specs::convert::FromSpecImpl<std::io::Error> for Error {
    open spec fn obeys_from_spec() -> bool {
        true
    }

    open spec fn from_spec(err: std::io::Error) -> Error {
        Error::Io(err)
    }
}

/// The decimal digits of `n`, most significant first, with no leading zero.
pub open spec fn decimal(n: nat) -> Seq<char>
    decreases n,
{
    if n < 10 {
        seq![digit_char(n)]
    } else {
        decimal(n / 10) + seq![digit_char(n % 10)]
    }
}

/// The character of the decimal digit `d`.
pub open spec fn digit_char(d: nat) -> char {
    (d + 48) as char
}

/// The text of the decimal digit `d`.
fn digit_str(d: u16) -> (s: &'static str)
    requires
        d < 10,
    ensures
        s@ == seq![digit_char(d as nat)],
{
    proof {
        reveal_strlit("0");
        reveal_strlit("1");
        reveal_strlit("2");
        reveal_strlit("3");
        reveal_strlit("4");
        reveal_strlit("5");
        reveal_strlit("6");
        reveal_strlit("7");
        reveal_strlit("8");
        reveal_strlit("9");
    }
    let s = if d == 0 {
        "0"
    } else if d == 1 {
        "1"
    } else if d == 2 {
        "2"
    } else if d == 3 {
        "3"
    } else if d == 4 {
        "4"
    } else if d == 5 {
        "5"
    } else if d == 6 {
        "6"
    } else if d == 7 {
        "7"
    } else if d == 8 {
        "8"
    } else {
        "9"
    };
    assert(s@ =~= seq![digit_char(d as nat)]);
    s
}

/// The decimal text of `n`.
pub fn decimal_text(n: u16) -> (text: String)
    ensures
        text@ == decimal(n as nat),
    decreases n,
{
    if n < 10 {
        String::from_str(digit_str(n))
    } else {
        let mut text = decimal_text(n / 10);
        text.append(digit_str(n % 10));
        text
    }
}

impl Error {
    /// The message that describes the error.
    pub fn message(&self) -> (text: String)
        ensures
            match self {
                Error::Io(err) => exists|detail: String|
                    #[trigger] to_string_from_display_ensures::<std::io::Error>(err, detail)
                        && text@ == "IO error: "@ + detail@,
                Error::Timeout => text@ == "DNS query timed out"@,
                Error::ServerError(code) => text@ == "DNS server returned error code: "@ + decimal(
                    *code as nat,
                ),
                Error::NoRecordsFound => text@ == "No DNS records found"@,
                Error::MalformedPacket => text@ == "Malformed DNS packet"@,
            },
    {
        match self {
            Error::Io(err) => {
                let mut text = String::from_str("IO error: ");
                let detail = err.to_string();
                proof {
                    reveal_strlit("IO error: ");
                }
                text.append(detail.as_str());
                assert(to_string_from_display_ensures::<std::io::Error>(err, detail));
                text
            },
            Error::Timeout => String::from_str("DNS query timed out"),
            Error::ServerError(code) => {
                let mut text = String::from_str("DNS server returned error code: ");
                let digits = decimal_text(*code);
                text.append(digits.as_str());
                text
            },
            Error::NoRecordsFound => String::from_str("No DNS records found"),
            Error::MalformedPacket => String::from_str("Malformed DNS packet"),
        }
    }
}

} // verus!
