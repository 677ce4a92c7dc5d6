//! One directive of a loaded file.

use vstd::prelude::*;
use crate::grammar::EntryView;
use crate::parser::bytes_view;

verus! {

/// A variable together with the place that it was read from.
#[derive(Debug, PartialEq, Eq)]
pub struct Directive {
    /// The section, the subsection if there is one, and the name, joined by dots.
    pub key: Vec<u8>,
    /// The value; `None` for a bare name.
    pub value: Option<Vec<u8>>,
    /// The number of the file among the loaded files, counted from 0.
    pub file: usize,
    /// The line that the name is on; the first line is line 1.
    pub line: usize,
}

/// A directive as contracts see it.
pub struct DirectiveView {
    pub key: Seq<u8>,
    pub value: Option<Seq<u8>>,
    pub file: nat,
    pub line: nat,
}

impl View for Directive {
    type V = DirectiveView;

    open spec fn view(&self) -> DirectiveView {
        DirectiveView {
            key: self.key@,
            value: bytes_view(self.value),
            file: self.file as nat,
            line: self.line as nat,
        }
    }
}

/// The directives of `v` as contracts see them.
pub open spec fn directive_views(v: Seq<Directive>) -> Seq<DirectiveView> {
    v.map_values(|d: Directive| d@)
}

/// The variables of one file as directives of the file with number `file`.
pub open spec fn stamp(entries: Seq<EntryView>, file: nat) -> Seq<DirectiveView> {
    entries.map_values(
        |e: EntryView| DirectiveView { key: e.key, value: e.value, file, line: e.line },
    )
}

} // verus!
