//! Scan state: cursor plus line/column tracking over the input characters.
//!
//! `line_at`/`col_at` define the 1-based position reached after consuming a
//! prefix of the input: a line feed bumps the line and resets the column,
//! every other scalar value bumps the column.  `State` is the executable
//! cursor, whose invariant ties its counters to those functions exactly.

use vstd::prelude::*;
use crate::parse::{ParseError, ParseErrorKind, ParseErrorPosition};

verus! {

/// Line (1-based) after consuming the first `n` characters of `s`.
pub open spec fn line_at(s: Seq<char>, n: int) -> int
    decreases n,
{
    if n <= 0 {
        1
    } else {
        line_at(s, n - 1) + (
            if 0 <= n - 1 < s.len() && s[n - 1] == '\n' {
                1int
            } else {
                0int
            }
        )
    }
}

/// Column (1-based, in scalar values) after consuming the first `n`
/// characters of `s`.
pub open spec fn col_at(s: Seq<char>, n: int) -> int
    decreases n,
{
    if n <= 0 {
        1
    } else if 0 <= n - 1 < s.len() && s[n - 1] == '\n' {
        1
    } else {
        col_at(s, n - 1) + 1
    }
}

/// The error value reported at input offset `i`.
pub open spec fn err_at(s: Seq<char>, i: int, kind: ParseErrorKind) -> ParseError {
    ParseError {
        kind,
        position: ParseErrorPosition {
            line: line_at(s, i) as usize,
            column: col_at(s, i) as usize,
        },
    }
}

/// Positions stay within `1 ..= n + 1`.
pub proof fn lemma_pos_bounds(s: Seq<char>, n: int)
    requires
        0 <= n,
    ensures
        1 <= line_at(s, n) <= n + 1,
        1 <= col_at(s, n) <= n + 1,
    decreases n,
{
    if n > 0 {
        lemma_pos_bounds(s, n - 1);
    }
}

/// Cursor over the input with the current 1-based line and column.
pub struct State {
    pub input: Vec<char>,
    pub pos: usize,
    pub line: usize,
    pub col: usize,
}

impl State {
    /// The invariant every scanner operation preserves: the cursor is in
    /// range and the counters agree with `line_at`/`col_at`.
    pub open spec fn wf(&self) -> bool {
        &&& self.pos <= self.input@.len()
        &&& self.input@.len() < usize::MAX
        &&& self.line as int == line_at(self.input@, self.pos as int)
        &&& self.col as int == col_at(self.input@, self.pos as int)
    }

    /// Starts a scan at the beginning of `input`, line 1 column 1.
    pub fn new(input: Vec<char>) -> (r: State)
        requires
            input@.len() < usize::MAX,
        ensures
            r.wf(),
            r.input@ == input@,
            r.pos == 0,
    {
        State { input, pos: 0, line: 1, col: 1 }
    }

    /// Next character without consuming it; `PrematureEof` at end of input.
    pub fn peek_char(&self) -> (r: Result<char, ParseError>)
        requires
            self.wf(),
        ensures
            match r {
                Ok(c) => self.pos < self.input@.len() && c == self.input@[self.pos as int],
                Err(e) => self.pos == self.input@.len() && e == err_at(
                    self.input@,
                    self.pos as int,
                    ParseErrorKind::PrematureEof,
                ),
            },
    {
        if self.pos < self.input.len() {
            Ok(self.input[self.pos])
        } else {
            Err(self.error(ParseErrorKind::PrematureEof))
        }
    }

    /// Consumes the character just peeked, advancing the position: a line
    /// feed starts the next line at column 1, anything else moves one
    /// column right.
    pub fn skip_char(&mut self, peeked: char)
        requires
            old(self).wf(),
            old(self).pos < old(self).input@.len(),
            old(self).input@[old(self).pos as int] == peeked,
        ensures
            final(self).wf(),
            final(self).input@ == old(self).input@,
            final(self).pos == old(self).pos + 1,
    {
        proof {
            lemma_pos_bounds(self.input@, self.pos as int);
        }
        if peeked == '\n' {
            self.line = self.line + 1;
            self.col = 1;
        } else {
            self.col = self.col + 1;
        }
        self.pos = self.pos + 1;
    }

    /// An error of the given kind stamped with the current position.
    pub fn error(&self, kind: ParseErrorKind) -> (r: ParseError)
        requires
            self.wf(),
        ensures
            r == err_at(self.input@, self.pos as int, kind),
    {
        proof {
            lemma_pos_bounds(self.input@, self.pos as int);
        }
        ParseError { kind, position: ParseErrorPosition { line: self.line, column: self.col } }
    }
}

} // verus!
