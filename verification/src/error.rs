//! Source positions, spans and the error type of the library.

use vstd::prelude::*;
use crate::text::{dec_digits, push_decimal};
use vstd::string::StringSliceAdditionalSpecFns;
use vstd::string::StringExecFns;

verus! {

/// A 1-based line/column position in a source text.
#[derive(Debug, Clone, Copy, PartialEq, Eq, Structural)]
pub struct Position {
    pub line: usize,
    pub column: usize,
}

impl Position {
    pub fn new(line: usize, column: usize) -> (p: Self)
        ensures
            p.line == line,
            p.column == column,
    {
        Self { line, column }
    }
}

/// A range of byte offsets into the UTF-8 source text.
#[derive(Debug, Clone, PartialEq, Eq, Structural)]
pub struct Span {
    /// Byte offset into the UTF-8 source text.
    pub start: usize,
    /// Byte offset into the UTF-8 source text.
    pub end: usize,
}

impl Span {
    pub fn new(start: usize, end: usize) -> (s: Self)
        ensures
            s.start == start,
            s.end == end,
    {
        Self { start, end }
    }
}

/// An error with a message and, where known, where it occurred.
#[derive(Debug, Clone)]
pub struct OttError {
    pub message: String,
    pub span: Option<Span>,
    pub position: Option<Position>,
}

/// Number of newline bytes in `b`.
pub open spec fn count_newlines(b: Seq<u8>) -> nat
    decreases b.len(),
{
    if b.len() == 0 {
        0
    } else {
        count_newlines(b.drop_last()) + if b.last() == 10u8 { 1nat } else { 0nat }
    }
}

/// Offset of the first byte after the last newline of `b` (0 when there is none).
pub open spec fn last_line_start(b: Seq<u8>) -> nat
    decreases b.len(),
{
    if b.len() == 0 {
        0
    } else if b.last() == 10u8 {
        b.len()
    } else {
        last_line_start(b.drop_last())
    }
}

/// The bytes of `src` before `offset` (all of them when `offset` is past the end).
pub open spec fn bytes_before(src: Seq<u8>, offset: nat) -> Seq<u8> {
    if offset <= src.len() { src.take(offset as int) } else { src }
}

/// The 1-based position of byte `offset` in `src`: the line is one more than the
/// newlines before it, the column counts bytes from the start of that line.
pub open spec fn spec_position_from_offset(src: Seq<u8>, offset: nat) -> (nat, nat) {
    let pre = bytes_before(src, offset);
    (count_newlines(pre) + 1, (offset - last_line_start(pre)) as nat + 1)
}

/// The line and the column of `offset` both fit a `usize`.
pub open spec fn position_fits(src: Seq<u8>, offset: nat) -> bool {
    spec_position_from_offset(src, offset).0 <= usize::MAX && spec_position_from_offset(src, offset).1 <= usize::MAX
}

/// Every offset below `usize::MAX` has a line and column that fit.
pub proof fn lemma_position_fits(src: Seq<u8>, offset: nat)
    requires
        offset < usize::MAX,
    ensures
        position_fits(src, offset),
{
    lemma_line_bounds(bytes_before(src, offset));
}

proof fn lemma_line_bounds(b: Seq<u8>)
    ensures
        count_newlines(b) <= b.len(),
        last_line_start(b) <= b.len(),
    decreases b.len(),
{
    if b.len() > 0 {
        lemma_line_bounds(b.drop_last());
    }
}

/// Converts a byte offset into a 1-based line/column position.
pub fn position_from_offset(src: &str, offset: usize) -> (p: Position)
    requires
        position_fits(src.spec_bytes(), offset as nat),
    ensures
        (p.line as nat, p.column as nat) == spec_position_from_offset(src.spec_bytes(), offset as nat),
{
    let bytes = src.as_bytes();
    let mut line: usize = 1;
    let mut last: usize = 0;
    let mut i: usize = 0;
    while i < bytes.len() && i < offset
        invariant
            i <= bytes@.len(),
            i <= offset,
            bytes@ == src.spec_bytes(),
            position_fits(src.spec_bytes(), offset as nat),
            line as nat == count_newlines(bytes@.take(i as int)) + 1,
            last as nat == last_line_start(bytes@.take(i as int)),
        decreases bytes@.len() - i,
    {
        let ghost pre = bytes@.take(i as int);
        assert(bytes@.take(i + 1).drop_last() =~= pre);
        proof {
            lemma_line_bounds(pre);
        }
        if bytes[i] == 10u8 {
            line = line + 1;
            last = i + 1;
        }
        i = i + 1;
    }
    proof {
        lemma_line_bounds(bytes@.take(i as int));
        if offset as nat <= bytes@.len() {
            assert(i == offset);
        } else {
            assert(bytes@.take(i as int) =~= bytes@);
        }
    }
    let column = offset - last + 1;
    Position::new(line, column)
}

/// The text of `OttError::to_string`: the message, followed by the position when known.
pub open spec fn spec_error_text(message: Seq<char>, position: Option<Position>) -> Seq<char> {
    match position {
        Some(p) => message + " (line "@ + dec_digits(p.line as nat) + ", col "@
            + dec_digits(p.column as nat) + ")"@,
        None => message,
    }
}

/// Mathematical model of an error.
pub struct OttErrV {
    pub message: Seq<char>,
    pub span: Option<Span>,
    pub position: Option<Position>,
}

impl View for OttError {
    type V = OttErrV;

    open spec fn view(&self) -> OttErrV {
        OttErrV { message: self.message@, span: self.span, position: self.position }
    }
}

/// An error reported at column 1 of a 1-based line.
pub open spec fn err_at_line(message: Seq<char>, line: int) -> OttErrV {
    OttErrV { message, span: None, position: Some(Position { line: line as usize, column: 1 }) }
}

/// An error with no location.
pub open spec fn err_plain(message: Seq<char>) -> OttErrV {
    OttErrV { message, span: None, position: None }
}

/// Builds the error `message` reported at column 1 of `line`.
pub fn error_at_line(message: &str, line: usize) -> (e: OttError)
    ensures
        e@ == err_at_line(message@, line as int),
{
    OttError::new(message.to_owned()).with_position(Position::new(line, 1))
}

/// Builds the error `message` with no location.
pub fn error_plain(message: &str) -> (e: OttError)
    ensures
        e@ == err_plain(message@),
{
    OttError::new(message.to_owned())
}

impl OttError {
    pub fn new(message: String) -> (e: Self)
        ensures
            e.message@ == message@,
            e.span is None,
            e.position is None,
    {
        Self { message, span: None, position: None }
    }

    /// Attaches a span, and the position of its start in `src`.
    pub fn with_span(self, span: Span, src: &str) -> (e: Self)
        requires
            position_fits(src.spec_bytes(), span.start as nat),
        ensures
            e.message@ == self.message@,
            e.span == Some(span),
            e.position matches Some(p) && (p.line as nat, p.column as nat)
                == spec_position_from_offset(src.spec_bytes(), span.start as nat),
    {
        let position = position_from_offset(src, span.start);
        Self { message: self.message, span: Some(span), position: Some(position) }
    }

    pub fn with_position(self, pos: Position) -> (e: Self)
        ensures
            e.message@ == self.message@,
            e.span == self.span,
            e.position == Some(pos),
    {
        Self { message: self.message, span: self.span, position: Some(pos) }
    }

    /// The message, followed by ` (line L, col C)` when the position is known.
    pub fn to_string(&self) -> (s: String)
        ensures
            s@ == spec_error_text(self.message@, self.position),
    {
        let mut s = self.message.clone();
        match self.position {
            Some(p) => {
                s.append(" (line ");
                push_decimal(&mut s, p.line);
                s.append(", col ");
                push_decimal(&mut s, p.column);
                s.append(")");
                s
            },
            None => s,
        }
    }
}

} // verus!
