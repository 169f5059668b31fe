//! What can go wrong.
use vstd::prelude::*;
use vstd::string::*;

use crate::digits::{digits, to_digits};
use crate::envelope::{ExpectedVersion, Version};

verus! {

#[derive(Debug)]
pub enum Error {
    VersionConflict { stream: String, expected: ExpectedVersion, actual: Option<Version> },
    FenceMismatch { stream: String, current_token: String },
    /// The storage backend failed.
    Backend(String),
    /// A record does not hold what its key promises.
    Encoding(String),
    /// A binary record could not be written or read.
    Bincode(String),
    InvalidInput(String),
}

/// `e` refuses an input with this text.
pub open spec fn says(e: Error, text: Seq<char>) -> bool {
    e is InvalidInput && e->InvalidInput_0@ == text
}

/// A number as text.
pub open spec fn number_text(v: nat) -> Seq<char> {
    Seq::new(digits(v).len(), |i: int| digits(v)[i] as char)
}

/// The error that refuses an input with this text.
pub fn refuse(text: &str) -> (e: Error)
    ensures
        says(e, text@),
{
    Error::InvalidInput(text.to_owned())
}

/// Appends a number to a text.
pub(crate) fn push_number(msg: &mut String, v: u64)
    ensures
        final(msg)@ == old(msg)@ + number_text(v as nat),
{
    let d = to_digits(v);
    let ghost start = msg@;
    let ghost text = number_text(v as nat);
    let mut i: usize = 0;
    assert(start + text.take(0) =~= start);
    while i < d.len()
        invariant
            i <= d.len(),
            d@ == digits(v as nat),
            text == number_text(v as nat),
            msg@ == start + text.take(i as int),
        decreases d.len() - i,
    {
        proof {
            digit_texts();
            digit_range(v as nat, i as int);
        }
        let c: &str = match d[i] {
            0x30 => "0",
            0x31 => "1",
            0x32 => "2",
            0x33 => "3",
            0x34 => "4",
            0x35 => "5",
            0x36 => "6",
            0x37 => "7",
            0x38 => "8",
            _ => "9",
        };
        msg.append(c);
        assert(c@ =~= seq![text[i as int]]);
        assert(start + text.take(i + 1) =~= start + text.take(i as int) + c@);
        i += 1;
    }
    assert(text.take(i as int) =~= text);
}

proof fn digit_range(v: nat, i: int)
    requires
        0 <= i < digits(v).len(),
    ensures
        48 <= digits(v)[i] <= 57,
    decreases v,
{
    if v >= 10 && i < digits(v).len() - 1 {
        digit_range(v / 10, i);
        assert(digits(v)[i] == digits(v / 10)[i]);
    }
}

proof fn digit_texts()
    ensures
        "0"@ == seq!['0'],
        "1"@ == seq!['1'],
        "2"@ == seq!['2'],
        "3"@ == seq!['3'],
        "4"@ == seq!['4'],
        "5"@ == seq!['5'],
        "6"@ == seq!['6'],
        "7"@ == seq!['7'],
        "8"@ == seq!['8'],
        "9"@ == seq!['9'],
{
    reveal_strlit("0");
    reveal_strlit("1");
    reveal_strlit("2");
    reveal_strlit("3");
    reveal_strlit("4");
    reveal_strlit("5");
    reveal_strlit("6");
    reveal_strlit("7");
    reveal_strlit("8");
    reveal_strlit("9");
    assert("0"@ =~= seq!['0']);
    assert("1"@ =~= seq!['1']);
    assert("2"@ =~= seq!['2']);
    assert("3"@ =~= seq!['3']);
    assert("4"@ =~= seq!['4']);
    assert("5"@ =~= seq!['5']);
    assert("6"@ =~= seq!['6']);
    assert("7"@ =~= seq!['7']);
    assert("8"@ =~= seq!['8']);
    assert("9"@ =~= seq!['9']);
}

/// An expectation as text.
pub open spec fn expected_text(e: ExpectedVersion) -> Seq<char> {
    match e {
        ExpectedVersion::Any => "Any"@,
        ExpectedVersion::NoStream => "NoStream"@,
        ExpectedVersion::Exact(v) => "Exact("@ + number_text(v as nat) + ")"@,
    }
}

/// A version that may be missing as text.
pub open spec fn version_text(v: Option<Version>) -> Seq<char> {
    match v {
        Some(v) => "Some("@ + number_text(v as nat) + ")"@,
        None => "None"@,
    }
}

/// An error as text.
pub open spec fn error_text(e: Error) -> Seq<char> {
    match e {
        Error::VersionConflict { stream, expected, actual } => "version conflict on '"@ + stream@
            + "': expected "@ + expected_text(expected) + ", actual "@ + version_text(actual),
        Error::FenceMismatch { stream, current_token } => "fence mismatch on '"@ + stream@
            + "': current token is '"@ + current_token@ + "'"@,
        Error::Backend(text) => "backend: "@ + text@,
        Error::Encoding(text) => "encoding: "@ + text@,
        Error::Bincode(text) => "encoding: "@ + text@,
        Error::InvalidInput(text) => text@,
    }
}

impl Error {
    /// The error as text.
    pub fn message(&self) -> (r: String)
        ensures
            r@ == error_text(*self),
    {
        match self {
            Error::VersionConflict { stream, expected, actual } => {
                let mut msg = "version conflict on '".to_owned();
                msg.append(stream.as_str());
                msg.append("': expected ");
                msg.append(expectation(*expected).as_str());
                msg.append(", actual ");
                msg.append(version(*actual).as_str());
                msg
            },
            Error::FenceMismatch { stream, current_token } => {
                let mut msg = "fence mismatch on '".to_owned();
                msg.append(stream.as_str());
                msg.append("': current token is '");
                msg.append(current_token.as_str());
                msg.append("'");
                msg
            },
            Error::Backend(text) => {
                let mut msg = "backend: ".to_owned();
                msg.append(text.as_str());
                msg
            },
            Error::Encoding(text) => {
                let mut msg = "encoding: ".to_owned();
                msg.append(text.as_str());
                msg
            },
            Error::Bincode(text) => {
                let mut msg = "encoding: ".to_owned();
                msg.append(text.as_str());
                msg
            },
            Error::InvalidInput(text) => text.clone(),
        }
    }
}

fn expectation(e: ExpectedVersion) -> (r: String)
    ensures
        r@ == expected_text(e),
{
    match e {
        ExpectedVersion::Any => "Any".to_owned(),
        ExpectedVersion::NoStream => "NoStream".to_owned(),
        ExpectedVersion::Exact(v) => {
            let mut msg = "Exact(".to_owned();
            push_number(&mut msg, v);
            msg.append(")");
            msg
        },
    }
}

fn version(v: Option<Version>) -> (r: String)
    ensures
        r@ == version_text(v),
{
    match v {
        Some(v) => {
            let mut msg = "Some(".to_owned();
            push_number(&mut msg, v);
            msg.append(")");
            msg
        },
        None => "None".to_owned(),
    }
}

} // verus!
