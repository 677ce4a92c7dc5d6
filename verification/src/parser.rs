//! The reader of one file's text.

use vstd::prelude::*;
use crate::bytes::{
    append_bytes, append_lowered, is_alpha, letter, scan, space, Class, BACKSLASH, CLOSE, CR, DOT, EQUALS,
    HASH, LF, OPEN, QUOTE, SEMICOLON, TAB,
};
use crate::grammar::{
    entry_at, header_at, lemma_newlines_bound, newlines_before, parse_from, parse_text,
    subsection_from, unescape, value_from, EntryScan, EntryView, ParseFault, Parsed, ValueScan,
};
use crate::directive::{directive_views, stamp, Directive};
use crate::text::utf8_str;
use vstd::utf8::valid_utf8;

verus! {

/// An optional byte string as contracts see it.
pub open spec fn bytes_view(v: Option<Vec<u8>>) -> Option<Seq<u8>> {
    match v {
        Some(b) => Some(b@),
        None => None,
    }
}

/// The first fault of a text and the line it is on.
#[derive(Clone, Copy, Debug, PartialEq, Eq, Structural)]
pub struct SyntaxError {
    pub line: usize,
    pub fault: ParseFault,
}

/// Counts on from `from`, before which `count` line feeds stand, to `to`.
fn count_lines(s: &[u8], from: usize, to: usize, count: usize) -> (r: usize)
    requires
        from <= to <= s.len(),
        count == newlines_before(s@, from as int),
    ensures
        r == newlines_before(s@, to as int),
        r <= to,
{
    let mut n: usize = count;
    let mut i: usize = from;
    proof {
        lemma_newlines_bound(s@, from as int);
    }
    while i < to
        invariant
            from <= i <= to <= s.len(),
            n == newlines_before(s@, i as int),
            n <= i,
        decreases to - i,
    {
        if s[i] == LF {
            n += 1;
        }
        i += 1;
    }
    n
}

fn read_subsection(s: &[u8], p: usize) -> (r: Option<(Vec<u8>, usize)>)
    requires
        p <= s.len(),
    ensures
        match r {
            Some((name, next)) => subsection_from(s@, p as int, Seq::empty()) == Some(
                (name@, next as int),
            ) && p < next <= s.len(),
            None => subsection_from(s@, p as int, Seq::empty()) is None,
        },
{
    let mut name: Vec<u8> = Vec::new();
    let mut i: usize = p;
    loop
        invariant
            p <= i <= s.len(),
            subsection_from(s@, p as int, Seq::empty()) == subsection_from(s@, i as int, name@),
        decreases s.len() - i,
    {
        if i >= s.len() || s[i] == LF {
            return None;
        }
        let c = s[i];
        if c == QUOTE {
            return Some((name, i + 1));
        }
        if c == BACKSLASH {
            if i + 1 >= s.len() || s[i + 1] == LF {
                return None;
            }
            name.push(s[i + 1]);
            i += 2;
        } else {
            name.push(c);
            i += 1;
        }
    }
}

fn read_header(s: &[u8], p: usize) -> (r: Option<(Vec<u8>, usize)>)
    requires
        p <= s.len(),
    ensures
        match r {
            Some((name, next)) => header_at(s@, p as int) == Some((name@, next as int)) && p < next
                <= s.len() && name@.len() > 0,
            None => header_at(s@, p as int) is None,
        },
{
    let e = scan(s, p, Class::Section);
    if e <= p || e >= s.len() {
        return None;
    }
    let mut name: Vec<u8> = Vec::new();
    append_lowered(&mut name, s, p, e);
    if s[e] == CLOSE {
        return Some((name, e + 1));
    }
    if !Class::Blank.test(s[e]) {
        return None;
    }
    let q = scan(s, e, Class::Blank);
    if q >= s.len() || s[q] != QUOTE {
        return None;
    }
    match read_subsection(s, q + 1) {
        Some((sub, r)) => {
            if r < s.len() && s[r] == CLOSE {
                name.push(DOT);
                append_bytes(&mut name, sub.as_slice());
                Some((name, r + 1))
            } else {
                None
            }
        },
        None => None,
    }
}

fn unescaped(c: u8) -> (r: Option<u8>)
    ensures
        r == unescape(c),
{
    if c == 116 {
        Some(TAB)
    } else if c == 98 {
        Some(8)
    } else if c == 110 {
        Some(LF)
    } else if c == BACKSLASH || c == QUOTE {
        Some(c)
    } else {
        None
    }
}

fn read_value(s: &[u8], p: usize) -> (r: Result<(Vec<u8>, usize), (ParseFault, usize)>)
    requires
        1 <= p <= s.len(),
    ensures
        match r {
            Ok((value, next)) => value_from(s@, p as int, Seq::empty(), 0, false) == (
            ValueScan::Value { value: value@, next: next as int }) && p <= next <= s.len(),
            Err((fault, at)) => value_from(s@, p as int, Seq::empty(), 0, false) == (
            ValueScan::Fault { fault, at: at as int }) && p - 1 <= at < s.len(),
        },
{
    let mut out: Vec<u8> = Vec::new();
    let mut keep: usize = 0;
    let mut quoted = false;
    let mut i: usize = p;
    loop
        invariant
            1 <= p <= i <= s.len(),
            keep <= out.len(),
            value_from(s@, p as int, Seq::empty(), 0, false) == value_from(
                s@,
                i as int,
                out@,
                keep as nat,
                quoted,
            ),
        decreases s.len() - i,
    {
        if i >= s.len() {
            if quoted {
                return Err((ParseFault::Quote, s.len() - 1));
            }
            out.truncate(keep);
            return Ok((out, i));
        }
        let c = s[i];
        if c == LF {
            if quoted {
                return Err((ParseFault::Quote, i));
            }
            out.truncate(keep);
            return Ok((out, i + 1));
        }
        if !quoted && (c == HASH || c == SEMICOLON) {
            out.truncate(keep);
            return Ok((out, i));
        }
        if !quoted && space(c) {
            if out.len() > 0 {
                out.push(c);
            }
            i += 1;
        } else if c == BACKSLASH {
            if i + 1 >= s.len() {
                return Err((ParseFault::Escape, i));
            }
            let e = s[i + 1];
            if e == LF {
                keep = out.len();
                i += 2;
            } else if e == CR && i + 2 < s.len() && s[i + 2] == LF {
                keep = out.len();
                i += 3;
            } else {
                match unescaped(e) {
                    Some(b) => {
                        out.push(b);
                        keep = out.len();
                        i += 2;
                    },
                    None => {
                        return Err((ParseFault::Escape, i));
                    },
                }
            }
        } else if c == QUOTE {
            keep = out.len();
            quoted = !quoted;
            i += 1;
        } else {
            out.push(c);
            keep = out.len();
            i += 1;
        }
    }
}

fn read_entry(s: &[u8], p: usize) -> (r: Result<
    (Vec<u8>, Option<Vec<u8>>, usize),
    (ParseFault, usize),
>)
    requires
        p < s.len(),
        is_alpha(s@[p as int]),
    ensures
        match r {
            Ok((name, value, next)) => entry_at(s@, p as int) == (EntryScan::Entry {
                name: name@,
                value: bytes_view(value),
                next: next as int,
            }) && p < next <= s.len() && (value matches Some(v) ==> valid_utf8(v@)),
            Err((fault, at)) => entry_at(s@, p as int) == (EntryScan::Fault {
                fault,
                at: at as int,
            }) && p <= at < s.len(),
        },
{
    let e = scan(s, p, Class::Name);
    let mut name: Vec<u8> = Vec::new();
    append_lowered(&mut name, s, p, e);
    let q = scan(s, e, Class::Blank);
    if q >= s.len() {
        return Ok((name, None, q));
    }
    if s[q] == LF {
        return Ok((name, None, q + 1));
    }
    if s[q] != EQUALS {
        return Err((ParseFault::Name, p));
    }
    match read_value(s, q + 1) {
        Ok((value, next)) => {
            if utf8_str(value.as_slice()).is_some() {
                Ok((name, Some(value), next))
            } else {
                Err((ParseFault::Encoding, p))
            }
        },
        Err(e) => Err(e),
    }
}

/// Reads the text of one file, the one with number `file`.
///
/// Gives the directives of the text in its order, each with its full key, the
/// file's number and its line, or the first fault with the line it is on.
pub fn parse(bytes: &[u8], file: usize) -> (r: Result<Vec<Directive>, SyntaxError>)
    ensures
        match r {
            Ok(found) => parse_text(bytes@) matches Parsed::Done(entries) && directive_views(
                found@,
            ) == stamp(entries, file as nat),
            Err(e) => parse_text(bytes@) == (Parsed::Failed {
                line: e.line as nat,
                fault: e.fault,
            }),
        },
{
    let len = bytes.len();
    let start: usize = if len >= 3 && bytes[0] == 0xEF && bytes[1] == 0xBB && bytes[2] == 0xBF {
        3
    } else {
        0
    };
    let mut p: usize = start;
    let mut lines: usize = count_lines(bytes, 0, start, 0);
    let mut section: Vec<u8> = Vec::new();
    let mut found: Vec<Directive> = Vec::new();
    let ghost mut entries: Seq<EntryView> = Seq::empty();
    proof {
        assert(directive_views(found@) =~= stamp(entries, file as nat));
    }
    while p < len
        invariant
            p <= len == bytes.len(),
            lines == newlines_before(bytes@, p as int),
            parse_text(bytes@) == parse_from(bytes@, p as int, section@, entries),
            directive_views(found@) == stamp(entries, file as nat),
        decreases len - p,
    {
        let c = bytes[p];
        proof {
            lemma_newlines_bound(bytes@, p as int);
        }
        let next: usize = if space(c) {
            p + 1
        } else if c == HASH || c == SEMICOLON {
            scan(bytes, p + 1, Class::InLine)
        } else if c == OPEN {
            match read_header(bytes, p + 1) {
                Some((name, n)) => {
                    section = name;
                    n
                },
                None => {
                    return Err(SyntaxError { line: lines + 1, fault: ParseFault::Header });
                },
            }
        } else if letter(c) {
            if section.len() == 0 {
                return Err(SyntaxError { line: lines + 1, fault: ParseFault::NoSection });
            }
            match read_entry(bytes, p) {
                Ok((name, value, n)) => {
                    let mut key: Vec<u8> = Vec::new();
                    append_bytes(&mut key, section.as_slice());
                    key.push(DOT);
                    append_bytes(&mut key, name.as_slice());
                    let directive = Directive { key, value, file, line: lines + 1 };
                    let ghost entry = EntryView {
                        key: section@ + seq![DOT] + name@,
                        value: directive@.value,
                        line: directive@.line,
                    };
                    proof {
                        assert(directive@.key =~= entry.key);
                        assert(stamp(entries.push(entry), file as nat) =~= directive_views(
                            found@,
                        ).push(directive@));
                        assert(directive_views(found@.push(directive)) =~= directive_views(
                            found@,
                        ).push(directive@));
                        entries = entries.push(entry);
                    }
                    found.push(directive);
                    n
                },
                Err((fault, at)) => {
                    let l = count_lines(bytes, p, at, lines);
                    return Err(SyntaxError { line: l + 1, fault });
                },
            }
        } else {
            return Err(SyntaxError { line: lines + 1, fault: ParseFault::Name });
        };
        lines = count_lines(bytes, p, next, lines);
        p = next;
    }
    Ok(found)
}

} // verus!
