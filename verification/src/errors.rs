//! Compilation errors.

use crate::location::Location;
use crate::text::{nat_text, push_char, push_u64};
use vstd::prelude::*;

verus! {

/// An error found while compiling: one at a place in a source file, a
/// collection of errors, or a plain message.
#[derive(Debug)]
pub enum CompilationError {
    SingleError { path: String, location: Location, message: String },
    MultiError(Vec<CompilationError>),
    Simple(String),
}

impl CompilationError {
    /// An error with a message only.
    pub fn simple(message: String) -> (e: Self)
        ensures
            e == CompilationError::Simple(message),
    {
        Self::Simple(message)
    }

    /// An error at a location in a source file.
    pub fn new(path: String, location: Location, message: String) -> (e: Self)
        ensures
            e == (CompilationError::SingleError { path, location, message }),
    {
        CompilationError::SingleError { path, location, message }
    }

    /// A collection of errors.
    pub fn multi(errors: Vec<CompilationError>) -> (e: Self)
        ensures
            e == CompilationError::MultiError(errors),
    {
        CompilationError::MultiError(errors)
    }
}

/// The pieces of a text between its newline characters, as `str::split('\n')` gives them.
pub open spec fn split_lines(s: Seq<char>) -> Seq<Seq<char>>
    decreases s.len(),
{
    if s.len() == 0 {
        seq![Seq::empty()]
    } else {
        let prev = split_lines(s.drop_last());
        if s.last() == '\n' {
            prev.push(Seq::empty())
        } else {
            prev.update(prev.len() - 1, prev.last().push(s.last()))
        }
    }
}

/// `n` spaces.
pub open spec fn spaces(n: nat) -> Seq<char> {
    Seq::new(n, |i: int| ' ')
}

/// A text right-aligned in a field of five characters.
pub open spec fn right5(t: Seq<char>) -> Seq<char> {
    if t.len() < 5 {
        spaces((5 - t.len()) as nat) + t
    } else {
        t
    }
}

/// The report lines for source line number `row`: the line itself where it
/// is within five rows of the error, and a marker with the message under
/// the error's row.
pub open spec fn row_report(row: nat, line: Seq<char>, err_row: nat, err_column: nat, message: Seq<char>) -> Seq<Seq<char>> {
    let shown: Seq<Seq<char>> = if row + 5 > err_row && row < err_row + 5 {
        seq![right5(nat_text(row)) + ": "@ + line]
    } else {
        Seq::empty()
    };
    let pad = spaces(err_column + 6);
    shown + if row == err_row {
        seq![pad + "^"@, pad + "|"@, pad + "+----  "@ + message]
    } else {
        Seq::empty()
    }
}

/// The report lines of all source lines, numbered from one.
pub open spec fn rows_report(lines: Seq<Seq<char>>, err_row: nat, err_column: nat, message: Seq<char>) -> Seq<Seq<char>>
    decreases lines.len(),
{
    if lines.len() == 0 {
        Seq::empty()
    } else {
        rows_report(lines.drop_last(), err_row, err_column, message) + row_report(
            lines.len(),
            lines.last(),
            err_row,
            err_column,
            message,
        )
    }
}

/// The header line of an error report.
pub open spec fn report_header(path: Seq<char>) -> Seq<char> {
    "********************* ERROR: ["@ + path + "] *********************"@
}

/// Appends `n` spaces to `s`.
fn push_spaces(s: &mut String, n: usize)
    ensures
        final(s)@ == old(s)@ + spaces(n as nat),
{
    let mut i: usize = 0;
    while i < n
        invariant
            i <= n,
            s@ == old(s)@ + spaces(i as nat),
        decreases n - i,
    {
        push_char(s, ' ');
        assert(old(s)@ + spaces((i + 1) as nat) =~= (old(s)@ + spaces(i as nat)).push(' '));
        i = i + 1;
    }
}

/// The pieces of `source` between its newline characters.
fn split_source(source: &str) -> (lines: Vec<String>)
    ensures
        lines@.map_values(|l: String| l@) == split_lines(source@),
{
    let n = source.unicode_len();
    let mut lines: Vec<String> = Vec::new();
    let mut current = String::new();
    let mut i: usize = 0;
    proof {
        assert(source@.take(0) =~= Seq::<char>::empty());
    }
    while i < n
        invariant
            n == source@.len(),
            i <= n,
            lines@.map_values(|l: String| l@).push(current@) == split_lines(source@.take(i as int)),
        decreases n - i,
    {
        let c = source.get_char(i);
        let ghost before = lines@.map_values(|l: String| l@).push(current@);
        proof {
            assert(source@.take(i + 1).drop_last() =~= source@.take(i as int));
            assert(source@.take(i + 1).last() == c);
        }
        if c == '\n' {
            lines.push(current);
            current = String::new();
            proof {
                assert(lines@.map_values(|l: String| l@).push(current@) =~= before.push(Seq::empty()));
            }
        } else {
            push_char(&mut current, c);
            proof {
                assert(lines@.map_values(|l: String| l@).push(current@) =~= before.update(
                    before.len() - 1,
                    before.last().push(c),
                ));
            }
        }
        i = i + 1;
    }
    assert(source@.take(n as int) =~= source@);
    lines.push(current);
    assert(lines@.map_values(|l: String| l@) =~= split_lines(source@));
    lines
}

/// The lines that report an error at `location` of the source file at
/// `path`: a header, the source lines within five rows of the error, each
/// with its number, and under the error's row a marker at its column with
/// the message.
pub fn error_report(path: &str, source: &str, location: Location, message: &str) -> (report: Vec<String>)
    requires
        location.row >= 0,
        location.column >= 0,
    ensures
        report@.map_values(|l: String| l@) == seq![report_header(path@)] + rows_report(
            split_lines(source@),
            location.row as nat,
            location.column as nat,
            message@,
        ),
{
    let err_row = location.row as usize;
    let err_column = location.column as usize;
    let mut report: Vec<String> = Vec::new();
    let mut header = "********************* ERROR: [".to_owned();
    header.append(path);
    header.append("] *********************");
    report.push(header);
    let lines = split_source(source);
    let ghost all = split_lines(source@);
    let ghost msg = message@;
    let mut r: usize = 0;
    proof {
        assert(all.take(0) =~= Seq::<Seq<char>>::empty());
        assert(report@.map_values(|l: String| l@) =~= seq![report_header(path@)]);
    }
    while r < lines.len()
        invariant
            r <= lines@.len(),
            lines@.map_values(|l: String| l@) == all,
            err_row == location.row,
            err_column == location.column,
            msg == message@,
            err_column < 0x8000_0000,
            err_row < 0x8000_0000,
            report@.map_values(|l: String| l@) == seq![report_header(path@)] + rows_report(
                all.take(r as int),
                err_row as nat,
                err_column as nat,
                msg,
            ),
        decreases lines@.len() - r,
    {
        let row = r + 1;
        let ghost before = report@.map_values(|l: String| l@);
        proof {
            assert(all.take(r + 1).drop_last() =~= all.take(r as int));
            assert(all.take(r + 1).last() == all[r as int]);
            assert(lines@[r as int]@ == all[r as int]);
        }
        let ghost pad = spaces((err_column + 6) as nat);
        let ghost shown_spec: Seq<Seq<char>> = if row + 5 > err_row && row < err_row + 5 {
            seq![right5(nat_text(row as nat)) + ": "@ + all[r as int]]
        } else {
            Seq::empty()
        };
        if (err_row < 5 || row > err_row - 5) && row < err_row + 5 {
            let mut text = String::new();
            push_u64(&mut text, row as u64);
            let width = text.unicode_len();
            let mut shown = String::new();
            if width < 5 {
                push_spaces(&mut shown, 5 - width);
            }
            shown.append(text.as_str());
            shown.append(": ");
            shown.append(lines[r].as_str());
            assert(shown@ =~= right5(nat_text(row as nat)) + ": "@ + all[r as int]);
            report.push(shown);
        }
        proof {
            assert(report@.map_values(|l: String| l@) =~= before + shown_spec);
        }
        let ghost mid = report@.map_values(|l: String| l@);
        if row == err_row {
            let mut caret = String::new();
            push_spaces(&mut caret, err_column + 6);
            assert(caret@ =~= pad);
            let mut bar = caret.clone();
            let mut arrow = caret.clone();
            caret.append("^");
            bar.append("|");
            arrow.append("+----  ");
            arrow.append(message);
            assert(caret@ == pad + "^"@);
            assert(bar@ == pad + "|"@);
            assert(arrow@ =~= pad + "+----  "@ + msg);
            report.push(caret);
            report.push(bar);
            report.push(arrow);
            proof {
                assert(report@.map_values(|l: String| l@) =~= mid + seq![pad + "^"@, pad + "|"@, pad + "+----  "@ + msg]);
            }
        }
        proof {
            assert(report@.map_values(|l: String| l@) =~= before + row_report(
                row as nat,
                all[r as int],
                err_row as nat,
                err_column as nat,
                msg,
            ));
        }
        r = r + 1;
    }
    proof {
        assert(all.take(lines@.len() as int) =~= all);
    }
    report
}

} // verus!
