//! Byte classes and small scans shared by the parser and the value readers.

use vstd::prelude::*;

verus! {

/// Horizontal tab.
pub const TAB: u8 = 9;
/// Line feed, the end of a line.
pub const LF: u8 = 10;
/// Carriage return.
pub const CR: u8 = 13;
/// ` `
pub const SPACE: u8 = 32;
/// `"`
pub const QUOTE: u8 = 34;
/// `#`
pub const HASH: u8 = 35;
/// `+`
pub const PLUS: u8 = 43;
/// `-`
pub const MINUS: u8 = 45;
/// `.`
pub const DOT: u8 = 46;
/// `/`
pub const SLASH: u8 = 47;
/// `;`
pub const SEMICOLON: u8 = 59;
/// `=`
pub const EQUALS: u8 = 61;
/// `[`
pub const OPEN: u8 = 91;
/// `\`
pub const BACKSLASH: u8 = 92;
/// `]`
pub const CLOSE: u8 = 93;
/// `~`
pub const TILDE: u8 = 126;

/// ASCII white space: space, tab, line feed, vertical tab, form feed, carriage return.
pub open spec fn is_space(c: u8) -> bool {
    c == SPACE || (TAB <= c && c <= CR)
}

/// White space that does not end a line.
pub open spec fn is_blank(c: u8) -> bool {
    is_space(c) && c != LF
}

/// A decimal digit, `0` to `9`.
pub open spec fn is_digit(c: u8) -> bool {
    48 <= c && c <= 57
}

/// An ASCII letter, `A` to `Z` or `a` to `z`.
pub open spec fn is_alpha(c: u8) -> bool {
    (65 <= c && c <= 90) || (97 <= c && c <= 122)
}

/// A byte of a variable name: a letter, a digit or `-`.
pub open spec fn is_name_byte(c: u8) -> bool {
    is_alpha(c) || is_digit(c) || c == MINUS
}

/// A byte of a section name: a name byte or `.`.
pub open spec fn is_section_byte(c: u8) -> bool {
    is_name_byte(c) || c == DOT
}

/// The lower-case form of an ASCII letter; every other byte is unchanged.
pub open spec fn lower(c: u8) -> u8 {
    if 65 <= c && c <= 90 {
        (c + 32) as u8
    } else {
        c
    }
}

/// `s` with every ASCII capital replaced by its small letter.
pub open spec fn lower_seq(s: Seq<u8>) -> Seq<u8> {
    Seq::new(s.len(), |i: int| lower(s[i]))
}

/// Whether `c` is white space.
#[verifier::when_used_as_spec(is_space)]
pub fn space(c: u8) -> (r: bool)
    ensures
        r == is_space(c),
{
    c == SPACE || (TAB <= c && c <= CR)
}

/// The lower-case form of `c`.
#[verifier::when_used_as_spec(lower)]
pub fn to_lower(c: u8) -> (r: u8)
    ensures
        r == lower(c),
{
    if 65 <= c && c <= 90 {
        c + 32
    } else {
        c
    }
}

/// The sets of bytes that a scan can run over.
#[derive(Clone, Copy, Debug, PartialEq, Eq)]
pub enum Class {
    /// Bytes of a variable name.
    Name,
    /// Bytes of a section name.
    Section,
    /// White space other than a line feed.
    Blank,
    /// Everything but a line feed.
    InLine,
    /// Everything but `.`.
    NotDot,
    /// Everything but `/`.
    NotSlash,
}

impl Class {
    /// Whether `c` belongs to the class.
    pub open spec fn holds(self, c: u8) -> bool {
        match self {
            Class::Name => is_name_byte(c),
            Class::Section => is_section_byte(c),
            Class::Blank => is_blank(c),
            Class::InLine => c != LF,
            Class::NotDot => c != DOT,
            Class::NotSlash => c != SLASH,
        }
    }

    /// Whether `c` belongs to the class.
    pub fn test(&self, c: u8) -> (r: bool)
        ensures
            r == self.holds(c),
    {
        let name = letter(c) || (48 <= c && c <= 57) || c == MINUS;
        match self {
            Class::Name => name,
            Class::Section => name || c == DOT,
            Class::Blank => space(c) && c != LF,
            Class::InLine => c != LF,
            Class::NotDot => c != DOT,
            Class::NotSlash => c != SLASH,
        }
    }
}

/// The first position at or after `p` whose byte is outside `class`, or the
/// length of `s` where the run reaches the end.
pub open spec fn span(s: Seq<u8>, p: int, class: Class) -> int
    decreases s.len() - p,
{
    if 0 <= p < s.len() && class.holds(s[p]) {
        span(s, p + 1, class)
    } else {
        p
    }
}

/// A run ends inside the text, holds only bytes of the class, and stops at
/// the first byte that is outside it.
pub proof fn lemma_span_bounds(s: Seq<u8>, p: int, class: Class)
    requires
        0 <= p <= s.len(),
    ensures
        p <= span(s, p, class) <= s.len(),
        forall|i: int| p <= i < span(s, p, class) ==> class.holds(#[trigger] s[i]),
        span(s, p, class) < s.len() ==> !class.holds(s[span(s, p, class)]),
    decreases s.len() - p,
{
    if p < s.len() && class.holds(s[p]) {
        lemma_span_bounds(s, p + 1, class);
    }
}

/// A run from `p` stops at or before a byte that is outside the class.
pub proof fn lemma_span_stops(s: Seq<u8>, p: int, q: int, class: Class)
    requires
        0 <= p <= q < s.len(),
        !class.holds(s[q]),
    ensures
        span(s, p, class) <= q,
    decreases q - p,
{
    if p < q && class.holds(s[p]) {
        lemma_span_stops(s, p + 1, q, class);
    }
}

/// A run from `p` goes on as long as the bytes are of the class.
pub proof fn lemma_span_reaches(s: Seq<u8>, p: int, q: int, class: Class)
    requires
        0 <= p <= q <= s.len(),
        forall|i: int| p <= i < q ==> class.holds(#[trigger] s[i]),
    ensures
        span(s, p, class) >= q,
    decreases q - p,
{
    if p < q {
        assert(class.holds(s[p]));
        lemma_span_reaches(s, p + 1, q, class);
    } else {
        lemma_span_bounds(s, p, class);
    }
}

/// Runs over the bytes of `class` that start at `p`.
pub fn scan(s: &[u8], p: usize, class: Class) -> (q: usize)
    requires
        p <= s.len(),
    ensures
        q == span(s@, p as int, class),
        p <= q <= s.len(),
{
    let mut q: usize = p;
    while q < s.len() && class.test(s[q])
        invariant
            p <= q <= s.len(),
            span(s@, p as int, class) == span(s@, q as int, class),
        decreases s.len() - q,
    {
        q += 1;
    }
    q
}

/// Whether `c` is an ASCII letter.
#[verifier::when_used_as_spec(is_alpha)]
pub fn letter(c: u8) -> (r: bool)
    ensures
        r == is_alpha(c),
{
    (65 <= c && c <= 90) || (97 <= c && c <= 122)
}

/// Puts the bytes of `s` between `from` and `to` at the end of `out`.
pub fn append_range(out: &mut Vec<u8>, s: &[u8], from: usize, to: usize)
    requires
        from <= to <= s.len(),
    ensures
        final(out)@ == old(out)@ + s@.subrange(from as int, to as int),
{
    let mut i: usize = from;
    while i < to
        invariant
            from <= i <= to <= s.len(),
            out@ == old(out)@ + s@.subrange(from as int, i as int),
        decreases to - i,
    {
        out.push(s[i]);
        proof {
            assert(out@ =~= old(out)@ + s@.subrange(from as int, i + 1));
        }
        i += 1;
    }
}

/// Puts the bytes of `src` at the end of `out`.
pub fn append_bytes(out: &mut Vec<u8>, src: &[u8])
    ensures
        final(out)@ == old(out)@ + src@,
{
    append_range(out, src, 0, src.len());
    proof {
        assert(src@.subrange(0, src@.len() as int) =~= src@);
    }
}

/// Puts the bytes of `s` between `from` and `to`, in lower case, at the end of `out`.
pub fn append_lowered(out: &mut Vec<u8>, s: &[u8], from: usize, to: usize)
    requires
        from <= to <= s.len(),
    ensures
        final(out)@ == old(out)@ + lower_seq(s@.subrange(from as int, to as int)),
{
    let mut i: usize = from;
    while i < to
        invariant
            from <= i <= to <= s.len(),
            out@ == old(out)@ + lower_seq(s@.subrange(from as int, i as int)),
        decreases to - i,
    {
        out.push(to_lower(s[i]));
        proof {
            assert(out@ =~= old(out)@ + lower_seq(s@.subrange(from as int, i + 1)));
        }
        i += 1;
    }
}

/// Whether two byte strings are the same.
pub fn same_bytes(a: &[u8], b: &[u8]) -> (r: bool)
    ensures
        r == (a@ == b@),
{
    if a.len() != b.len() {
        return false;
    }
    let mut i: usize = 0;
    while i < a.len()
        invariant
            i <= a.len() == b.len(),
            a@.take(i as int) == b@.take(i as int),
        decreases a.len() - i,
    {
        if a[i] != b[i] {
            return false;
        }
        proof {
            assert(a@.take(i + 1) =~= a@.take(i as int).push(a@[i as int]));
            assert(b@.take(i + 1) =~= b@.take(i as int).push(b@[i as int]));
        }
        i += 1;
    }
    proof {
        assert(a@.take(a@.len() as int) =~= a@);
        assert(b@.take(b@.len() as int) =~= b@);
    }
    true
}

} // verus!
