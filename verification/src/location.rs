//! Source positions.

use crate::text::{int_text, push_char, push_i64};
use vstd::prelude::*;

verus! {

/// A position in a source file: a row and a column, both counted from one.
#[derive(Clone, Copy, Debug, PartialEq, Eq, Structural)]
pub struct Location {
    pub row: i32,
    pub column: i32,
}

/// The text of a location: `[row:column]`.
pub open spec fn location_text(row: int, column: int) -> Seq<char> {
    seq!['['] + int_text(row) + seq![':'] + int_text(column) + seq![']']
}

impl Location {
    pub fn new(row: i32, column: i32) -> (l: Location)
        ensures
            l.row == row,
            l.column == column,
    {
        Location { row, column }
    }

    /// The location written as `[row:column]`.
    pub fn text(&self) -> (s: String)
        ensures
            s@ == location_text(self.row as int, self.column as int),
    {
        let mut s = String::new();
        push_char(&mut s, '[');
        push_i64(&mut s, self.row as i64);
        push_char(&mut s, ':');
        push_i64(&mut s, self.column as i64);
        push_char(&mut s, ']');
        assert(s@ =~= location_text(self.row as int, self.column as int));
        s
    }
}

impl Default for Location {
    fn default() -> (l: Location)
        ensures
            l.row == 0,
            l.column == 0,
    {
        Location { row: 0, column: 0 }
    }
}

} // verus!
