//! Reading and rendering GNU Info manuals.
use vstd::prelude::*;

pub mod config;
pub mod control;
pub mod info;
pub mod pager;
pub mod parser_util;
pub mod text;

verus! {

/// Where and how wide rendered text is laid out.
#[derive(Debug, Clone, Copy, PartialEq, Eq, Hash, Structural)]
pub struct RenderOptions {
    indent: usize,
    max_width: usize,
}

impl Default for RenderOptions {
    fn default() -> (r: Self)
        ensures
            r.spec_indent() == 0 && r.spec_max_width() == 79,
    {
        Self::new()
    }
}

impl RenderOptions {
    pub closed spec fn spec_indent(&self) -> usize {
        self.indent
    }

    pub closed spec fn spec_max_width(&self) -> usize {
        self.max_width
    }

    /// The layout `indent` columns further in and as much narrower.
    pub closed spec fn spec_indented(&self, indent: nat) -> Self {
        RenderOptions { indent: (self.indent + indent) as usize, max_width: (self.max_width - indent) as usize }
    }

    /// No indentation, lines of at most 79 columns.
    pub fn new() -> (r: Self)
        ensures
            r.spec_indent() == 0 && r.spec_max_width() == 79,
    {
        Self { indent: 0, max_width: 79 }
    }

    /// No indentation, lines one column narrower than the terminal (`dim` is its width and
    /// height).
    pub fn new_for_terminal(dim: (u16, u16)) -> (r: Self)
        ensures
            r.spec_indent() == 0,
            r.spec_max_width() == if dim.0 == 0 { 0 } else { dim.0 - 1 },
    {
        Self { indent: 0, max_width: dim.0.saturating_sub(1) as usize }
    }

    /// The same layout, `indent` columns further in and as much narrower.
    pub fn indented(&self, indent: usize) -> (r: Self)
        requires
            self.spec_indent() + indent <= usize::MAX,
            indent <= self.spec_max_width(),
        ensures
            r.spec_indent() == self.spec_indent() + indent,
            r.spec_max_width() == self.spec_max_width() - indent,
            r == self.spec_indented(indent as nat),
    {
        Self { indent: self.indent + indent, max_width: self.max_width - indent }
    }

    /// The layout `indent` columns further in and as much narrower, or nothing where it is
    /// narrower than `indent` columns (or the indentation would not fit in a `usize`).
    pub fn checked_indented(&self, indent: usize) -> (r: Option<Self>)
        ensures
            r is Some <==> (self.spec_indent() + indent <= usize::MAX && indent <= self.spec_max_width()),
            r matches Some(o) ==> o.spec_indent() == self.spec_indent() + indent
                && o.spec_max_width() == self.spec_max_width() - indent,
    {
        if self.indent <= usize::MAX - indent && indent <= self.max_width {
            Some(self.indented(indent))
        } else {
            None
        }
    }

    pub fn indent(&self) -> (r: usize)
        ensures
            r == self.spec_indent(),
    {
        self.indent
    }

    pub fn max_width(&self) -> (r: usize)
        ensures
            r == self.spec_max_width(),
    {
        self.max_width
    }
}


/// Indenting by `a` and then by `b` is indenting by `a + b`; indenting by nothing changes
/// nothing; and indenting moves columns from the width to the indentation, keeping their sum.
pub proof fn law_indented(o: RenderOptions, a: nat, b: nat)
    requires
        a + b <= o.spec_max_width(),
        o.spec_indent() + a + b <= usize::MAX,
    ensures
        o.spec_indented(a).spec_indented(b) == o.spec_indented(a + b),
        o.spec_indented(0) == o,
        o.spec_indented(a).spec_indent() + o.spec_indented(a).spec_max_width() == o.spec_indent() + o.spec_max_width(),
{
}

/// A manual that can be laid out as text.
pub trait Manual {
    /// What the manual renders to with `opt`; `None` where rendering stops without a result.
    spec fn rendered(&self, opt: RenderOptions) -> Option<Seq<char>>;

    spec fn title_of(&self) -> Seq<char>;

    /// Writes the manual; an error where it cannot be laid out with `opt`.
    fn render(&self, into: &mut String, opt: RenderOptions) -> (r: Result<(), crate::info::render::RenderError>)
        ensures
            r is Ok == self.rendered(opt) is Some,
            r is Ok ==> Some(final(into)@) == crate::info::render::cat(Some(old(into)@), self.rendered(opt)),
    ;

    /// The title of the manual.
    fn title(&self) -> (r: &str)
        ensures
            r@ == self.title_of(),
    ;
}

} // verus!
