//! The cell types that command-line options name.
use vstd::prelude::*;

verus! {

/// `--type` when it filters cells.
#[derive(Debug, Clone, Copy, PartialEq, Eq, Structural)]
pub enum CellTypeFilter {
    Code,
    Markdown,
    Raw,
}

/// `--type` when it gives a cell's type.
#[derive(Debug, Clone, Copy, PartialEq, Eq, Structural)]
pub enum CellTypeArg {
    Code,
    Markdown,
    Raw,
}

/// The nbformat name of a cell type.
pub open spec fn cell_type_word(code: bool, markdown: bool) -> Seq<char> {
    if code {
        "code"@
    } else if markdown {
        "markdown"@
    } else {
        "raw"@
    }
}

impl CellTypeArg {
    pub fn as_str(&self) -> (r: &'static str)
        ensures
            r@ == cell_type_word(*self == CellTypeArg::Code, *self == CellTypeArg::Markdown),
    {
        match self {
            CellTypeArg::Code => "code",
            CellTypeArg::Markdown => "markdown",
            CellTypeArg::Raw => "raw",
        }
    }
}

impl CellTypeFilter {
    pub fn as_str(&self) -> (r: &'static str)
        ensures
            r@ == cell_type_word(*self == CellTypeFilter::Code, *self == CellTypeFilter::Markdown),
    {
        match self {
            CellTypeFilter::Code => "code",
            CellTypeFilter::Markdown => "markdown",
            CellTypeFilter::Raw => "raw",
        }
    }
}

} // verus!
