//! Stable diagnostic codes.

use vstd::prelude::*;

verus! {

/// A stable, dotted diagnostic code such as `checkpoint.root_mismatch`.
#[derive(Clone, Copy, Debug, PartialEq, Eq, PartialOrd, Ord, Hash)]
pub struct DiagnosticCode {
    code: &'static str,
}

impl DiagnosticCode {
    /// The code's text.
    pub closed spec fn text(self) -> Seq<char> {
        self.code@
    }

    /// Names a diagnostic by its stable code.
    pub fn from_static(code: &'static str) -> (d: Self)
        ensures
            d.text() == code@,
    {
        DiagnosticCode { code }
    }

    /// Returns the stable code.
    pub fn as_str(&self) -> (s: &'static str)
        ensures
            s@ == self.text(),
    {
        self.code
    }
}

} // verus!
