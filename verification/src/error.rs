//! Codec error types.

use crate::grammar;
use vstd::prelude::*;

verus! {

/// The decimal form of a number as text.
pub open spec fn decimal_text(n: nat) -> Seq<char> {
    grammar::decimal(n).map_values(|b: u8| b as char)
}

/// A digit as text.
fn digit_text(d: usize) -> (r: &'static str)
    requires
        d < 10,
    ensures
        r@ == decimal_text(d as nat),
{
    proof {
        reveal_strlit("0");
        reveal_strlit("1");
        reveal_strlit("2");
        reveal_strlit("3");
        reveal_strlit("4");
        reveal_strlit("5");
        reveal_strlit("6");
        reveal_strlit("7");
        reveal_strlit("8");
        reveal_strlit("9");
    }
    let r = match d {
        0 => "0",
        1 => "1",
        2 => "2",
        3 => "3",
        4 => "4",
        5 => "5",
        6 => "6",
        7 => "7",
        8 => "8",
        _ => "9",
    };
    assert(r@ =~= decimal_text(d as nat));
    r
}

/// A number as text, in its decimal form.
fn number_text(n: usize) -> (r: String)
    ensures
        r@ == decimal_text(n as nat),
    decreases n,
{
    if n < 10 {
        digit_text(n).to_owned()
    } else {
        let mut r = number_text(n / 10);
        r.append(digit_text(n % 10));
        assert(r@ =~= decimal_text(n as nat));
        r
    }
}

/// Errors returned by [`crate::parse::parse_frame`].
#[derive(Debug, Clone, Copy, PartialEq, Eq, Structural)]
pub enum ParseError {
    /// Verb keyword does not match any verb of the protocol subset.
    UnknownVerb,
    /// Header line is malformed: wrong arity, missing field, bad
    /// whitespace, etc.
    BadHeader,
    /// `PUB` / `MSG` byte count is not a number that fits the machine's
    /// word, or names a frame longer than that.
    PayloadLengthInvalid,
    /// `UNSUB` `max_msgs` field is not a valid `u64`.
    MaxMsgsInvalid,
    /// `PUB` / `MSG` payload is missing its trailing `\r\n` terminator.
    MissingTrailingCrlf,
}

impl ParseError {
    /// Human-readable description.
    pub fn describe(&self) -> (r: &'static str)
        ensures
            r@ == match *self {
                ParseError::UnknownVerb => "unknown verb"@,
                ParseError::BadHeader => "malformed header line"@,
                ParseError::PayloadLengthInvalid => "invalid payload length"@,
                ParseError::MaxMsgsInvalid => "invalid UNSUB max_msgs"@,
                ParseError::MissingTrailingCrlf => "missing trailing CRLF after payload"@,
            },
    {
        match self {
            ParseError::UnknownVerb => "unknown verb",
            ParseError::BadHeader => "malformed header line",
            ParseError::PayloadLengthInvalid => "invalid payload length",
            ParseError::MaxMsgsInvalid => "invalid UNSUB max_msgs",
            ParseError::MissingTrailingCrlf => "missing trailing CRLF after payload",
        }
    }
}

/// Errors returned by `emit_*` functions.
#[derive(Debug, Clone, Copy, PartialEq, Eq, Structural)]
pub enum EmitError {
    /// Output buffer is too small to hold the encoded frame.
    BufferTooSmall {
        /// Bytes required to hold the encoded frame.
        needed: usize,
        /// Bytes available.
        have: usize,
    },
}

impl EmitError {
    /// Human-readable description.
    pub fn describe(&self) -> (r: String)
        ensures
            r@ == match *self {
                EmitError::BufferTooSmall { needed, have } => "buffer too small: needed "@
                    + decimal_text(needed as nat) + ", have "@ + decimal_text(have as nat),
            },
    {
        match self {
            EmitError::BufferTooSmall { needed, have } => {
                let mut r = "buffer too small: needed ".to_owned();
                r.append(number_text(*needed).as_str());
                r.append(", have ");
                r.append(number_text(*have).as_str());
                r
            },
        }
    }
}

/// Numbers in texts are in digits: one for those below ten, else those of the
/// tens and behind them the last.
pub proof fn law_numbers_in_texts(tens: nat, last: nat)
    requires
        last < 10,
    ensures
        decimal_text(last) == seq![(48 + last) as u8 as char],
        tens > 0 ==> decimal_text(10 * tens + last) == decimal_text(tens) + seq![
            (48 + last) as u8 as char,
        ],
{
    assert(decimal_text(last) =~= seq![(48 + last) as u8 as char]);
    if tens > 0 {
        assert((10 * tens + last) / 10 == tens);
        assert((10 * tens + last) % 10 == last);
        assert(decimal_text(10 * tens + last) =~= decimal_text(tens) + seq![
            (48 + last) as u8 as char,
        ]);
    }
}

} // verus!
