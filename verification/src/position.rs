//! Places in a source text: byte offset, line and column.

use crate::grammar::{ascii_before, Expected, LINE_FEED};
use vstd::prelude::*;
use vstd::string::StringSliceAdditionalSpecFns;
use vstd::utf8::{is_char_boundary, pop_first_scalar, valid_utf8};

verus! {

/// Why a text is no expression: at byte `position`, in line `line` and
/// column `column` (both counted from 1), none of what `expected` names was
/// found.
#[derive(Clone, Copy, Debug, PartialEq, Eq)]
pub struct SyntaxError {
    pub position: usize,
    pub line: usize,
    pub column: usize,
    pub expected: Expected,
}

/// The number of line feeds among the first `pos` bytes.
pub open spec fn line_feeds(s: Seq<u8>, pos: int) -> int
    decreases pos,
{
    if pos <= 0 {
        0
    } else if s[pos - 1] == LINE_FEED {
        line_feeds(s, pos - 1) + 1
    } else {
        line_feeds(s, pos - 1)
    }
}

/// Where the line that holds byte `pos` starts: after the last line feed
/// before `pos`, or at 0.
pub open spec fn line_start(s: Seq<u8>, pos: int) -> int
    decreases pos,
{
    if pos <= 0 {
        0
    } else if s[pos - 1] == LINE_FEED {
        pos
    } else {
        line_start(s, pos - 1)
    }
}

/// The line of byte `pos`, counted from 1.
pub open spec fn line_of(s: Seq<u8>, pos: int) -> int {
    1 + line_feeds(s, pos)
}

/// The column of byte `pos` in a text that is ASCII up to there, counted
/// from 1.
pub open spec fn column_of(s: Seq<u8>, pos: int) -> int {
    1 + pos - line_start(s, pos)
}

/// Calls `pest::Position::new` and then `line_col` on the position.
/// Assumed, for a position with nothing but ASCII before it: the line is
/// one more than the number of line feeds before it, and the column one
/// more than the number of bytes between the last of them and it. (A
/// carriage return moves the column like any other byte, except directly
/// before a line feed, where the line feed resets it anyway.)
#[verifier::external_body]
pub(crate) fn line_col(source: &str, pos: usize) -> (at: (usize, usize))
    requires
        pos <= source.spec_bytes().len(),
        is_char_boundary(source.spec_bytes(), pos as int),
        ascii_before(source.spec_bytes(), pos as int),
    ensures
        at.0 == line_of(source.spec_bytes(), pos as int),
        at.1 == column_of(source.spec_bytes(), pos as int),
{
    pest::Position::new(source, pos).unwrap().line_col()
}

/// In UTF-8, the place after a run of ASCII bytes from the start is a
/// character boundary.
pub proof fn lemma_ascii_boundary(s: Seq<u8>, n: int)
    requires
        valid_utf8(s),
        0 <= n <= s.len(),
        ascii_before(s, n),
    ensures
        is_char_boundary(s, n),
    decreases n,
{
    if n > 0 {
        let rest = pop_first_scalar(s);
        assert(s[0] < 0x80);
        assert(rest == s.subrange(1, s.len() as int));
        assert forall|k: int| 0 <= k < n - 1 && k < rest.len() implies #[trigger] rest[k] < 0x80 by {
            assert(rest[k] == s[k + 1]);
        }
        lemma_ascii_boundary(rest, n - 1);
    }
}

} // verus!
