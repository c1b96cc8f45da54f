//! What a reader reports when the text is not in its grammar.

use vstd::prelude::*;
use crate::text::{decimal, decimal_string};

verus! {

/// Why a text was rejected.
#[derive(Clone, Copy, Debug, PartialEq, Eq, Structural)]
pub enum ParseErrorKind {
    /// A field opens with a quote that is never closed.
    UnterminatedQuote,
    /// Something other than a comma or a line break follows a closing quote.
    TextAfterQuote,
    /// A comma stands where a value is expected.
    MissingValue,
}

/// A rejected text: the reason, and the place of the offending character,
/// both counted from 1, columns in characters.
#[derive(Clone, Copy, Debug, PartialEq, Eq, Structural)]
pub struct ParseError {
    pub kind: ParseErrorKind,
    pub line: usize,
    pub column: usize,
}

/// The number of line breaks among the first `at` characters of `s`.
pub open spec fn breaks_before(s: Seq<char>, at: int) -> nat
    decreases at,
{
    if at <= 0 {
        0
    } else {
        breaks_before(s, at - 1) + if s[at - 1] == '\n' {
            1nat
        } else {
            0nat
        }
    }
}

/// The offset at which the line that holds offset `at` begins.
pub open spec fn line_start(s: Seq<char>, at: int) -> int
    decreases at,
{
    if at <= 0 {
        0
    } else if s[at - 1] == '\n' {
        at
    } else {
        line_start(s, at - 1)
    }
}

/// The error of the given kind at offset `at` of `s`.
pub open spec fn fault(s: Seq<char>, kind: ParseErrorKind, at: int) -> ParseError {
    ParseError {
        kind,
        line: (breaks_before(s, at) + 1) as usize,
        column: (at - line_start(s, at) + 1) as usize,
    }
}

/// Finds line and column of offset `at`, and reports `kind` there.
pub(crate) fn fault_at(chars: &Vec<char>, kind: ParseErrorKind, at: usize) -> (e: ParseError)
    requires
        at < chars.len(),
    ensures
        e == fault(chars@, kind, at as int),
{
    let mut line: usize = 1;
    let mut start: usize = 0;
    let mut i: usize = 0;
    while i < at
        invariant
            i <= at < chars.len(),
            line == breaks_before(chars@, i as int) + 1,
            start == line_start(chars@, i as int),
            line <= i + 1,
            start <= i,
        decreases at - i,
    {
        if chars[i] == '\n' {
            line += 1;
            start = i + 1;
        }
        i += 1;
    }
    ParseError { kind, line, column: at - start + 1 }
}

impl ParseErrorKind {
    /// The reason in words.
    pub open spec fn words(self) -> Seq<char> {
        match self {
            ParseErrorKind::UnterminatedQuote => "a quoted field is never closed"@,
            ParseErrorKind::TextAfterQuote => "a closing quote is followed by text"@,
            ParseErrorKind::MissingValue => "a value is missing"@,
        }
    }
}

impl ParseError {
    /// The text of [`ParseError::message`].
    pub open spec fn message_text(self) -> Seq<char> {
        "line "@ + decimal(self.line as nat) + ", column "@ + decimal(self.column as nat) + ": "@
            + self.kind.words()
    }

    /// The error in words: its line, its column, and the reason.
    pub fn message(&self) -> (out: String)
        ensures
            out@ == self.message_text(),
    {
        let mut out = String::from_str("line ");
        out.append(decimal_string(self.line).as_str());
        out.append(", column ");
        out.append(decimal_string(self.column).as_str());
        out.append(": ");
        match self.kind {
            ParseErrorKind::UnterminatedQuote => out.append("a quoted field is never closed"),
            ParseErrorKind::TextAfterQuote => out.append("a closing quote is followed by text"),
            ParseErrorKind::MissingValue => out.append("a value is missing"),
        }
        out
    }
}

} // verus!
