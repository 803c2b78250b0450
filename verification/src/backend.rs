//! Optimization levels and pass pipelines.
//!
//! Standard optimization pipelines (`default<O3>` / `default<Oz>`) run through
//! the new pass manager, and release builds strip symbols from the IR.
use vstd::prelude::*;
use crate::text::cat2;

verus! {

#[derive(Debug, Clone, Copy, PartialEq, Eq, Structural)]
pub enum OptLevel {
    /// -O0: fast builds, straight-line debuggable output.
    Unoptimized,
    /// -O3: optimize for speed (DCE, inlining, loop unrolling, ...).
    Speed,
    /// -Oz: optimize for binary size.
    Size,
}

impl OptLevel {
    /// The standard pipeline of a level.
    pub open spec fn standard(self) -> Seq<char> {
        match self {
            OptLevel::Unoptimized => "default<O0>"@,
            OptLevel::Speed => "default<O3>"@,
            OptLevel::Size => "default<Oz>"@,
        }
    }

    pub fn pass_pipeline(self) -> (s: &'static str)
        ensures
            s@ == self.standard(),
    {
        match self {
            OptLevel::Unoptimized => "default<O0>",
            OptLevel::Speed => "default<O3>",
            OptLevel::Size => "default<Oz>",
        }
    }

    /// The passes to run: the standard pipeline; release builds also strip
    /// symbols so emitted binaries stay lean.
    pub fn passes(self) -> (s: String)
        ensures
            s@ == (if self == OptLevel::Unoptimized {
                self.standard()
            } else {
                self.standard() + ",strip"@
            }),
    {
        if self == OptLevel::Unoptimized {
            String::from_str(self.pass_pipeline())
        } else {
            cat2(self.pass_pipeline(), ",strip")
        }
    }
}

} // verus!
