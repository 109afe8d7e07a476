use vstd::prelude::*;
use vstd::string::StringSliceAdditionalSpecFns;

verus! {

/// A 1-based line and column in a document.
#[derive(Clone, Copy, Debug, PartialEq, Eq, Structural)]
pub struct LineColumn {
    pub line: usize,
    pub column: usize,
}

/// The number of newline bytes in `b`.
pub open spec fn newline_count(b: Seq<u8>) -> nat
    decreases b.len(),
{
    if b.len() == 0 {
        0
    } else {
        newline_count(b.drop_last()) + if b.last() == 10u8 {
            1nat
        } else {
            0nat
        }
    }
}

/// The number of bytes of `b` after its last newline (all of them if there is none).
pub open spec fn bytes_since_newline(b: Seq<u8>) -> nat
    decreases b.len(),
{
    if b.len() == 0 {
        0
    } else if b.last() == 10u8 {
        0
    } else {
        bytes_since_newline(b.drop_last()) + 1
    }
}

/// The position of byte offset `pos` in `b`: offsets past the end stand at the end.
pub open spec fn line_column_of(b: Seq<u8>, pos: int) -> (nat, nat) {
    let before = b.take(if pos < b.len() {
        pos
    } else {
        b.len() as int
    });
    (newline_count(before) + 1, bytes_since_newline(before) + 1)
}

impl LineColumn {
    /// The line and column of byte offset `pos` in `s`, found by counting the
    /// newlines before it.
    pub fn from_pos(s: &str, pos: usize) -> (r: LineColumn)
        requires
            s.spec_bytes().len() < usize::MAX,
        ensures
            (r.line as nat, r.column as nat) == line_column_of(s.spec_bytes(), pos as int),
    {
        let bytes = s.as_bytes();
        let mut line: usize = 1;
        let mut col: usize = 1;
        let mut i: usize = 0;
        while i < pos && i < bytes.len()
            invariant
                i <= bytes@.len(),
                i <= pos,
                bytes@ == s.spec_bytes(),
                bytes@.len() < usize::MAX,
                line as nat == newline_count(bytes@.take(i as int)) + 1,
                col as nat == bytes_since_newline(bytes@.take(i as int)) + 1,
                line <= i + 1,
                col <= i + 1,
            decreases bytes@.len() - i,
        {
            assert(bytes@.take(i + 1).drop_last() == bytes@.take(i as int));
            if bytes[i] == 10u8 {
                line = line + 1;
                col = 1;
            } else {
                col = col + 1;
            }
            i = i + 1;
        }
        LineColumn { line, column: col }
    }
}

/// Errors of the parser and of the typed decoders.
#[derive(Debug)]
pub enum Error {
    UnexpectedChar { ch: char, lc: LineColumn },
    UnclosedString { lc: LineColumn },
    UnclosedData { lc: LineColumn },
    /// Internal variants carry no position; [`Error::at`] gives them one.
    BadDataInternal,
    UnknownEscapeInternal,
    InvalidUnicodeEscapeInternal { seq: String },
    NotAStringInternal { token_name: &'static str },
    BadData { lc: LineColumn },
    UnknownEscape { lc: LineColumn },
    InvalidUnicodeEscape { seq: String, lc: LineColumn },
    NotAString { token_name: &'static str, lc: LineColumn },
    ExpectedEquals { lc: LineColumn },
    ExpectedComma { lc: LineColumn },
    ExpectedSemicolon { lc: LineColumn },
    ExpectedOpenBrace { lc: LineColumn },
    ExpectedCloseBrace { lc: LineColumn },
    ExpectedOpenParen { lc: LineColumn },
    ExpectedCloseParen { lc: LineColumn },
    ExpectedChar { ch: char, lc: LineColumn },
    ExpectedNumber { lc: LineColumn },
    ExpectedString { lc: LineColumn },
    UnexpectedDataType { expected: &'static str, found: &'static str },
    UnexpectedToken { name: &'static str, lc: LineColumn },
    Parse(String),
    Serialize(String),
}

impl Error {
    /// Gives an internal, position-free error the line and column of byte
    /// offset `pos` in `s`; any other error is returned as it is.
    pub fn at(self, s: &str, pos: usize) -> (r: Error)
        requires
            s.spec_bytes().len() < usize::MAX,
        ensures
            ({
                let (line, column) = line_column_of(s.spec_bytes(), pos as int);
                let lc = LineColumn { line: line as usize, column: column as usize };
                match self {
                    Error::BadDataInternal => r == Error::BadData { lc },
                    Error::UnknownEscapeInternal => r == Error::UnknownEscape { lc },
                    Error::InvalidUnicodeEscapeInternal { seq } => r
                        == Error::InvalidUnicodeEscape { seq, lc },
                    Error::NotAStringInternal { token_name } => r == Error::NotAString {
                        token_name,
                        lc,
                    },
                    _ => r == self,
                }
            }),
    {
        let lc = LineColumn::from_pos(s, pos);
        match self {
            Error::BadDataInternal => Error::BadData { lc },
            Error::UnknownEscapeInternal => Error::UnknownEscape { lc },
            Error::InvalidUnicodeEscapeInternal { seq } => Error::InvalidUnicodeEscape { seq, lc },
            Error::NotAStringInternal { token_name } => Error::NotAString { token_name, lc },
            other => other,
        }
    }
}

} // verus!
