//! Collection of errors found while checking one source file.

use crate::errors::CompilationError;
use crate::location::Location;
use vstd::prelude::*;

verus! {

/// The errors found so far in the file at `path`.
pub struct Diagnostics {
    errors: Vec<CompilationError>,
    path: String,
}

impl Diagnostics {
    /// The errors collected so far.
    pub closed spec fn errors(&self) -> Seq<CompilationError> {
        self.errors@
    }

    /// The path of the file being checked.
    pub closed spec fn path(&self) -> Seq<char> {
        self.path@
    }

    pub fn new(path: &str) -> (d: Self)
        ensures
            d.errors() == Seq::<CompilationError>::empty(),
            d.path() == path@,
    {
        Self { errors: Vec::new(), path: path.to_owned() }
    }

    /// Record an error at a location of this file.
    pub fn error(&mut self, location: Location, message: String)
        ensures
            final(self).path() == old(self).path(),
            final(self).errors().len() == old(self).errors().len() + 1,
            final(self).errors().drop_last() == old(self).errors(),
            (final(self).errors().last() matches CompilationError::SingleError {
                path,
                location: l,
                message: m,
            } && path@ == old(self).path() && l == location && m == message),
    {
        let path = self.path.clone();
        self.errors.push(CompilationError::new(path, location, message));
        assert(self.errors@.drop_last() =~= old(self).errors@);
    }

    /// The value if no error was recorded, else all errors.
    pub fn value_or_error<T>(self, value: T) -> (r: Result<T, CompilationError>)
        ensures
            self.errors().len() == 0 ==> r == Ok::<T, CompilationError>(value),
            self.errors().len() > 0 ==> (r matches Err(CompilationError::MultiError(es)) && es@
                == self.errors()),
    {
        if self.errors.len() == 0 {
            Ok(value)
        } else {
            Err(CompilationError::multi(self.errors))
        }
    }
}

} // verus!
