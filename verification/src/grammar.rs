//! The file format, stated on bytes.
//!
//! A file is a run of section headers, `[name]` or `[name "subsection"]`, and of
//! variables, `name` or `name = value`, one to a line. `#` and `;` start a
//! comment that runs to the end of the line. A variable belongs to the header
//! before it, and its key is the header's name, a dot and its own name.

use vstd::prelude::*;
use vstd::utf8::valid_utf8;
use crate::bytes::{
    is_alpha, is_blank, is_space, lemma_span_bounds, lower_seq, span, Class, BACKSLASH, CLOSE, CR,
    DOT, EQUALS, HASH, LF, OPEN, QUOTE, SEMICOLON, TAB,
};
use crate::key::{
    all_lower, head_is_lower, is_canonical, lemma_head_of_section, lemma_joined_key_is_canonical,
    no_dot,
};

verus! {

/// What is wrong with a file's text.
#[derive(Clone, Copy, Debug, PartialEq, Eq, Structural)]
pub enum ParseFault {
    /// A section header that is neither `[name]` nor `[name "subsection"]`.
    Header,
    /// A variable before the first section header.
    NoSection,
    /// A line that starts with no letter, or a name followed by something
    /// other than `=` or the end of the line.
    Name,
    /// A line, or the text, ends inside double quotes.
    Quote,
    /// A backslash before a byte that it does not escape.
    Escape,
    /// A value that is not UTF-8.
    Encoding,
}

/// How many line feeds stand before position `p`.
pub open spec fn newlines_before(s: Seq<u8>, p: int) -> nat
    decreases p,
{
    if p <= 0 || p > s.len() {
        0
    } else {
        newlines_before(s, p - 1) + if s[p - 1] == LF {
            1nat
        } else {
            0nat
        }
    }
}

/// The number of the line that position `p` is on; the first line is line 1.
pub open spec fn line_at(s: Seq<u8>, p: int) -> nat {
    newlines_before(s, p) + 1
}

/// Reads a quoted subsection name from `p`, the position after the opening
/// quote, onto `acc`. A backslash gives the byte after it; a line feed or the end
/// of the text before the closing quote gives `None`. The position in the
/// result is the one after the closing quote.
pub open spec fn subsection_from(s: Seq<u8>, p: int, acc: Seq<u8>) -> Option<(Seq<u8>, int)>
    decreases s.len() - p,
{
    if p < 0 || p >= s.len() || s[p] == LF {
        None
    } else if s[p] == QUOTE {
        Some((acc, p + 1))
    } else if s[p] == BACKSLASH {
        if p + 1 >= s.len() || s[p + 1] == LF {
            None
        } else {
            subsection_from(s, p + 2, acc.push(s[p + 1]))
        }
    } else {
        subsection_from(s, p + 1, acc.push(s[p]))
    }
}

/// Reads a section header from `p`, the position after `[`: the section's
/// name, folded to lower case, then `]`, or white space, a quoted subsection
/// and `]`. The quoted subsection keeps its case and is joined to the name by
/// a dot. In the form `[name.subsection]` everything is folded to lower case.
/// The position in the result is the one after `]`.
pub open spec fn header_at(s: Seq<u8>, p: int) -> Option<(Seq<u8>, int)> {
    let e = span(s, p, Class::Section);
    let base = lower_seq(s.subrange(p, e));
    if e <= p || e >= s.len() {
        None
    } else if s[e] == CLOSE {
        Some((base, e + 1))
    } else if is_blank(s[e]) {
        let q = span(s, e, Class::Blank);
        if q < s.len() && s[q] == QUOTE {
            match subsection_from(s, q + 1, Seq::empty()) {
                Some((sub, r)) => if r < s.len() && s[r] == CLOSE {
                    Some((base + seq![DOT] + sub, r + 1))
                } else {
                    None
                },
                None => None,
            }
        } else {
            None
        }
    } else {
        None
    }
}

/// The byte that a backslash and `c` stand for in a value.
pub open spec fn unescape(c: u8) -> Option<u8> {
    if c == 116 {
        // `\t`
        Some(TAB)
    } else if c == 98 {
        // `\b`, a backspace
        Some(8u8)
    } else if c == 110 {
        // `\n`
        Some(LF)
    } else if c == BACKSLASH || c == QUOTE {
        Some(c)
    } else {
        None
    }
}

/// A value and the position where reading goes on, or a fault and its position.
pub enum ValueScan {
    Value { value: Seq<u8>, next: int },
    Fault { fault: ParseFault, at: int },
}

/// Reads a value from `p`. `out` is what was read so far, `keep` the length of
/// `out` without the white space that may still prove to be trailing, `quoted`
/// whether `p` is inside double quotes.
///
/// Outside quotes white space before the value and after it is dropped, and a
/// `#` or `;` ends the value. Quotes are not part of the value. A backslash
/// before a line feed joins the next line; before `t`, `b`, `n`, `\` or `"` it
/// gives the byte that the pair stands for. The value ends at the line feed,
/// which is read, or before the comment, or at the end of the text.
pub open spec fn value_from(s: Seq<u8>, p: int, out: Seq<u8>, keep: nat, quoted: bool) -> ValueScan
    decreases s.len() - p,
{
    if p < 0 || p >= s.len() {
        if quoted {
            ValueScan::Fault { fault: ParseFault::Quote, at: s.len() - 1 }
        } else {
            ValueScan::Value { value: out.take(keep as int), next: p }
        }
    } else if s[p] == LF {
        if quoted {
            ValueScan::Fault { fault: ParseFault::Quote, at: p }
        } else {
            ValueScan::Value { value: out.take(keep as int), next: p + 1 }
        }
    } else if !quoted && (s[p] == HASH || s[p] == SEMICOLON) {
        ValueScan::Value { value: out.take(keep as int), next: p }
    } else if !quoted && is_space(s[p]) {
        value_from(
            s,
            p + 1,
            if out.len() > 0 {
                out.push(s[p])
            } else {
                out
            },
            keep,
            quoted,
        )
    } else if s[p] == BACKSLASH {
        if p + 1 >= s.len() {
            ValueScan::Fault { fault: ParseFault::Escape, at: p }
        } else if s[p + 1] == LF {
            value_from(s, p + 2, out, out.len(), quoted)
        } else if s[p + 1] == CR && p + 2 < s.len() && s[p + 2] == LF {
            value_from(s, p + 3, out, out.len(), quoted)
        } else {
            match unescape(s[p + 1]) {
                Some(c) => value_from(s, p + 2, out.push(c), out.len() + 1, quoted),
                None => ValueScan::Fault { fault: ParseFault::Escape, at: p },
            }
        }
    } else if s[p] == QUOTE {
        value_from(s, p + 1, out, out.len(), !quoted)
    } else {
        value_from(s, p + 1, out.push(s[p]), out.len() + 1, quoted)
    }
}

/// A variable and the position where reading goes on, or a fault and its position.
pub enum EntryScan {
    Entry { name: Seq<u8>, value: Option<Seq<u8>>, next: int },
    Fault { fault: ParseFault, at: int },
}

/// Reads a variable from `p`, the position of its first letter: the name,
/// folded to lower case, then either the end of the line, which makes it a
/// bare name without a value, or `=` and a value, which must be UTF-8.
pub open spec fn entry_at(s: Seq<u8>, p: int) -> EntryScan {
    let e = span(s, p, Class::Name);
    let name = lower_seq(s.subrange(p, e));
    let q = span(s, e, Class::Blank);
    if q >= s.len() {
        EntryScan::Entry { name, value: None, next: q }
    } else if s[q] == LF {
        EntryScan::Entry { name, value: None, next: q + 1 }
    } else if s[q] == EQUALS {
        match value_from(s, q + 1, Seq::empty(), 0, false) {
            ValueScan::Value { value, next } => if valid_utf8(value) {
                EntryScan::Entry { name, value: Some(value), next }
            } else {
                EntryScan::Fault { fault: ParseFault::Encoding, at: p }
            },
            ValueScan::Fault { fault, at } => EntryScan::Fault { fault, at },
        }
    } else {
        EntryScan::Fault { fault: ParseFault::Name, at: p }
    }
}

/// One variable of a file: its full key, its value if it has one, and its line.
pub struct EntryView {
    pub key: Seq<u8>,
    pub value: Option<Seq<u8>>,
    pub line: nat,
}

/// What a file's text holds: its variables in the order of the text, or the
/// first fault and the line it is on.
pub enum Parsed {
    Done(Seq<EntryView>),
    Failed { line: nat, fault: ParseFault },
}

/// Reads the text from `p` on, under the header `section` (empty before the
/// first header), after the variables `acc`.
pub open spec fn parse_from(s: Seq<u8>, p: int, section: Seq<u8>, acc: Seq<EntryView>) -> Parsed
    decreases s.len() - p,
    via parse_from_ends
{
    if p < 0 || p >= s.len() {
        Parsed::Done(acc)
    } else if is_space(s[p]) {
        parse_from(s, p + 1, section, acc)
    } else if s[p] == HASH || s[p] == SEMICOLON {
        parse_from(s, span(s, p + 1, Class::InLine), section, acc)
    } else if s[p] == OPEN {
        match header_at(s, p + 1) {
            Some((name, next)) => parse_from(s, next, name, acc),
            None => Parsed::Failed { line: line_at(s, p), fault: ParseFault::Header },
        }
    } else if is_alpha(s[p]) {
        if section.len() == 0 {
            Parsed::Failed { line: line_at(s, p), fault: ParseFault::NoSection }
        } else {
            match entry_at(s, p) {
                EntryScan::Entry { name, value, next } => parse_from(
                    s,
                    next,
                    section,
                    acc.push(
                        EntryView { key: section + seq![DOT] + name, value, line: line_at(s, p) },
                    ),
                ),
                EntryScan::Fault { fault, at } => Parsed::Failed { line: line_at(s, at), fault },
            }
        }
    } else {
        Parsed::Failed { line: line_at(s, p), fault: ParseFault::Name }
    }
}

#[via_fn]
proof fn parse_from_ends(s: Seq<u8>, p: int, section: Seq<u8>, acc: Seq<EntryView>) {
    if 0 <= p < s.len() {
        lemma_span_bounds(s, p + 1, Class::InLine);
        lemma_header_advances(s, p + 1);
        if is_alpha(s[p]) {
            lemma_entry_advances(s, p);
        }
    }
}

/// A byte order mark: the three bytes that may stand before the text.
pub open spec fn has_mark(s: Seq<u8>) -> bool {
    s.len() >= 3 && s[0] == 0xEF && s[1] == 0xBB && s[2] == 0xBF
}

/// What the text `s` of one file holds.
pub open spec fn parse_text(s: Seq<u8>) -> Parsed {
    parse_from(
        s,
        if has_mark(s) {
            3
        } else {
            0
        },
        Seq::empty(),
        Seq::empty(),
    )
}

/// Every value is UTF-8.
pub open spec fn values_are_text(entries: Seq<EntryView>) -> bool {
    forall|i: int|
        0 <= i < entries.len() ==> ((#[trigger] entries[i]).value matches Some(v) ==> valid_utf8(
            v,
        ))
}

proof fn lemma_parse_from_text(s: Seq<u8>, p: int, section: Seq<u8>, acc: Seq<EntryView>)
    requires
        0 <= p <= s.len(),
        values_are_text(acc),
    ensures
        parse_from(s, p, section, acc) matches Parsed::Done(entries) ==> values_are_text(entries),
    decreases s.len() - p,
{
    if p < s.len() {
        if is_space(s[p]) {
            lemma_parse_from_text(s, p + 1, section, acc);
        } else if s[p] == HASH || s[p] == SEMICOLON {
            lemma_span_bounds(s, p + 1, Class::InLine);
            lemma_parse_from_text(s, span(s, p + 1, Class::InLine), section, acc);
        } else if s[p] == OPEN {
            lemma_header_advances(s, p + 1);
            if let Some((name, next)) = header_at(s, p + 1) {
                lemma_parse_from_text(s, next, name, acc);
            }
        } else if is_alpha(s[p]) && section.len() > 0 {
            lemma_entry_advances(s, p);
            if let EntryScan::Entry { name, value, next } = entry_at(s, p) {
                let entry = EntryView { key: section + seq![DOT] + name, value, line: line_at(s, p) };
                lemma_parse_from_text(s, next, section, acc.push(entry));
            }
        }
    }
}

/// A text that is read without a fault holds only values that are UTF-8.
pub proof fn lemma_parsed_values_are_text(s: Seq<u8>)
    ensures
        parse_text(s) matches Parsed::Done(entries) ==> values_are_text(entries),
{
    lemma_parse_from_text(
        s,
        if has_mark(s) {
            3
        } else {
            0
        },
        Seq::empty(),
        Seq::empty(),
    );
}

/// Every key is in the form under which directives are filed.
pub open spec fn keys_are_canonical(entries: Seq<EntryView>) -> bool {
    forall|i: int| 0 <= i < entries.len() ==> is_canonical((#[trigger] entries[i]).key)
}

/// The name of a header that is read has its head in lower case.
pub proof fn lemma_header_head(s: Seq<u8>, p: int)
    requires
        0 <= p <= s.len(),
    ensures
        header_at(s, p) matches Some((name, _)) ==> head_is_lower(name),
{
    lemma_span_bounds(s, p, Class::Section);
    let e = span(s, p, Class::Section);
    let base = lower_seq(s.subrange(p, e));
    assert(all_lower(base));
    if let Some((name, _)) = header_at(s, p) {
        if s[e] == CLOSE {
            lemma_head_of_section(base, Seq::empty());
        } else {
            let q = span(s, e, Class::Blank);
            if let Some((sub, _)) = subsection_from(s, q + 1, Seq::empty()) {
                lemma_head_of_section(base, sub);
            }
        }
    }
}

/// The name of a variable that is read is in lower case and holds no dot.
pub proof fn lemma_entry_name(s: Seq<u8>, p: int)
    requires
        0 <= p <= s.len(),
    ensures
        entry_at(s, p) matches EntryScan::Entry { name, .. } ==> all_lower(name) && no_dot(name),
{
    lemma_span_bounds(s, p, Class::Name);
    let e = span(s, p, Class::Name);
    let raw = s.subrange(p, e);
    let name = lower_seq(raw);
    assert forall|i: int| 0 <= i < name.len() implies #[trigger] name[i] != DOT by {
        assert(Class::Name.holds(s[p + i]));
        assert(raw[i] == s[p + i]);
    }
}

proof fn lemma_parse_from_keys(s: Seq<u8>, p: int, section: Seq<u8>, acc: Seq<EntryView>)
    requires
        0 <= p <= s.len(),
        head_is_lower(section),
        keys_are_canonical(acc),
    ensures
        parse_from(s, p, section, acc) matches Parsed::Done(entries) ==> keys_are_canonical(
            entries,
        ),
    decreases s.len() - p,
{
    if p < s.len() {
        if is_space(s[p]) {
            lemma_parse_from_keys(s, p + 1, section, acc);
        } else if s[p] == HASH || s[p] == SEMICOLON {
            lemma_span_bounds(s, p + 1, Class::InLine);
            lemma_parse_from_keys(s, span(s, p + 1, Class::InLine), section, acc);
        } else if s[p] == OPEN {
            lemma_header_advances(s, p + 1);
            lemma_header_head(s, p + 1);
            if let Some((name, next)) = header_at(s, p + 1) {
                lemma_parse_from_keys(s, next, name, acc);
            }
        } else if is_alpha(s[p]) && section.len() > 0 {
            lemma_entry_advances(s, p);
            lemma_entry_name(s, p);
            if let EntryScan::Entry { name, value, next } = entry_at(s, p) {
                lemma_joined_key_is_canonical(section, name);
                let entry = EntryView { key: section + seq![DOT] + name, value, line: line_at(s, p) };
                lemma_parse_from_keys(s, next, section, acc.push(entry));
            }
        }
    }
}

/// A text that is read without a fault files every variable under a key that
/// `normalize` leaves as it is: a lookup by that key finds it.
pub proof fn lemma_parsed_keys_are_canonical(s: Seq<u8>)
    ensures
        parse_text(s) matches Parsed::Done(entries) ==> keys_are_canonical(entries),
{
    lemma_span_bounds(Seq::<u8>::empty(), 0, Class::NotDot);
    lemma_parse_from_keys(
        s,
        if has_mark(s) {
            3
        } else {
            0
        },
        Seq::empty(),
        Seq::empty(),
    );
}

/// No more line feeds stand before a position than bytes do.
pub proof fn lemma_newlines_bound(s: Seq<u8>, p: int)
    requires
        0 <= p <= s.len(),
    ensures
        newlines_before(s, p) <= p,
    decreases p,
{
    if p > 0 {
        lemma_newlines_bound(s, p - 1);
    }
}

/// A subsection name that is read ends after where it starts, inside the text.
pub proof fn lemma_subsection_advances(s: Seq<u8>, p: int, acc: Seq<u8>)
    requires
        0 <= p <= s.len(),
    ensures
        subsection_from(s, p, acc) matches Some((_, next)) ==> p < next <= s.len(),
    decreases s.len() - p,
{
    if p < s.len() && s[p] != LF && s[p] != QUOTE {
        if s[p] == BACKSLASH {
            if p + 1 < s.len() && s[p + 1] != LF {
                lemma_subsection_advances(s, p + 2, acc.push(s[p + 1]));
            }
        } else {
            lemma_subsection_advances(s, p + 1, acc.push(s[p]));
        }
    }
}

/// A header that is read ends after where it starts, inside the text.
pub proof fn lemma_header_advances(s: Seq<u8>, p: int)
    requires
        0 <= p <= s.len(),
    ensures
        header_at(s, p) matches Some((_, next)) ==> p < next <= s.len(),
{
    lemma_span_bounds(s, p, Class::Section);
    let e = span(s, p, Class::Section);
    lemma_span_bounds(s, e, Class::Blank);
    let q = span(s, e, Class::Blank);
    if q < s.len() {
        lemma_subsection_advances(s, q + 1, Seq::empty());
    }
}

/// A value that is read ends at or after where it starts, inside the text; a
/// fault is at a byte of the text, no earlier than the byte before the start.
pub proof fn lemma_value_advances(s: Seq<u8>, p: int, out: Seq<u8>, keep: nat, quoted: bool)
    requires
        1 <= p <= s.len(),
    ensures
        value_from(s, p, out, keep, quoted) matches ValueScan::Value { next, .. } ==> p <= next
            <= s.len(),
        value_from(s, p, out, keep, quoted) matches ValueScan::Fault { at, .. } ==> p - 1 <= at
            < s.len(),
    decreases s.len() - p,
{
    if p < s.len() && s[p] != LF && !(!quoted && (s[p] == HASH || s[p] == SEMICOLON)) {
        if !quoted && is_space(s[p]) {
            lemma_value_advances(
                s,
                p + 1,
                if out.len() > 0 {
                    out.push(s[p])
                } else {
                    out
                },
                keep,
                quoted,
            );
        } else if s[p] == BACKSLASH {
            if p + 1 < s.len() {
                if s[p + 1] == LF {
                    lemma_value_advances(s, p + 2, out, out.len(), quoted);
                } else if s[p + 1] == CR && p + 2 < s.len() && s[p + 2] == LF {
                    lemma_value_advances(s, p + 3, out, out.len(), quoted);
                } else if let Some(c) = unescape(s[p + 1]) {
                    lemma_value_advances(s, p + 2, out.push(c), out.len() + 1, quoted);
                }
            }
        } else if s[p] == QUOTE {
            lemma_value_advances(s, p + 1, out, out.len(), !quoted);
        } else {
            lemma_value_advances(s, p + 1, out.push(s[p]), out.len() + 1, quoted);
        }
    }
}

/// A variable that is read ends after where it starts, inside the text; a
/// fault is at a byte of the text, no earlier than the start.
pub proof fn lemma_entry_advances(s: Seq<u8>, p: int)
    requires
        0 <= p < s.len(),
        is_alpha(s[p]),
    ensures
        entry_at(s, p) matches EntryScan::Entry { next, .. } ==> p < next <= s.len(),
        entry_at(s, p) matches EntryScan::Fault { at, .. } ==> p <= at < s.len(),
{
    lemma_span_bounds(s, p, Class::Name);
    let e = span(s, p, Class::Name);
    assert(e > p);
    lemma_span_bounds(s, e, Class::Blank);
    let q = span(s, e, Class::Blank);
    if q < s.len() && s[q] == EQUALS {
        lemma_value_advances(s, q + 1, Seq::empty(), 0, false);
    }
}

} // verus!
