//! The three kinds of input the tool accepts: a script file, a bare
//! expression, or a per-line closure body.  Exactly one variant is active,
//! and the variant decides the wrapping template, the safe name and what
//! enters the cache identity.
use vstd::prelude::*;

verus! {

/// An input source for a script run.
pub enum Input {
    /// A script file: display name, absolute path, full content, and the
    /// last-modified timestamp in platform clock units.
    File { name: String, path: String, content: String, modified: u64 },
    /// A bare expression.
    Expr { content: String },
    /// A closure body applied to each input line; `count` says whether the
    /// closure is also handed a 1-based line index.
    Loop { content: String, count: bool },
}

impl Input {
    /// The filesystem-safe stand-in name for the input.
    pub open spec fn spec_safe_name(self) -> Seq<char> {
        match self {
            Input::File { name, .. } => name@,
            Input::Expr { .. } => "expr"@,
            Input::Loop { .. } => "loop"@,
        }
    }

    /// Return the "safe name" for the input: the file stem for a file, a
    /// fixed word otherwise.
    pub fn safe_name(&self) -> (r: &str)
        ensures
            r@ == self.spec_safe_name(),
    {
        match self {
            Input::File { name, .. } => name.as_str(),
            Input::Expr { .. } => "expr",
            Input::Loop { .. } => "loop",
        }
    }
}

} // verus!
