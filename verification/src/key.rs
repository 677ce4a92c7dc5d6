//! Keys as callers write them and as the set files them.
//!
//! A key is `section.name` or `section.subsection.name`. Section and name are
//! not case sensitive; the subsection, which may itself hold dots, is.

use vstd::prelude::*;
use crate::bytes::{
    lemma_span_bounds, lemma_span_reaches, lemma_span_stops, lower, scan, span, to_lower, Class,
    DOT,
};

verus! {

/// Where the section ends: the position of the first dot, or the length of `k`
/// where it holds none.
pub open spec fn section_end(k: Seq<u8>) -> int {
    span(k, 0, Class::NotDot)
}

/// Where the name starts: the position after the last dot, or 0 where `k`
/// holds none.
pub open spec fn name_start(k: Seq<u8>) -> int
    decreases k.len(),
{
    if k.len() == 0 {
        0
    } else if k.last() == DOT {
        k.len() as int
    } else {
        name_start(k.drop_last())
    }
}

/// The key under which the directives of `k` are filed: section and name in
/// lower case, what stands between the first dot and the last as written.
pub open spec fn normalize(k: Seq<u8>) -> Seq<u8> {
    Seq::new(
        k.len(),
        |i: int|
            if i < section_end(k) || name_start(k) <= i {
                lower(k[i])
            } else {
                k[i]
            },
    )
}

/// The form of a key that `normalize` leaves as it is.
pub open spec fn is_canonical(k: Seq<u8>) -> bool {
    normalize(k) == k
}

/// Everything before the first dot of `k` is in lower case.
pub open spec fn head_is_lower(k: Seq<u8>) -> bool {
    forall|i: int| 0 <= i < section_end(k) ==> lower(#[trigger] k[i]) == k[i]
}

/// Every byte of `k` is in lower case.
pub open spec fn all_lower(k: Seq<u8>) -> bool {
    forall|i: int| 0 <= i < k.len() ==> lower(#[trigger] k[i]) == k[i]
}

/// `k` holds no dot.
pub open spec fn no_dot(k: Seq<u8>) -> bool {
    forall|i: int| 0 <= i < k.len() ==> #[trigger] k[i] != DOT
}

/// A section name in lower case has a head in lower case, alone and with a
/// subsection behind it.
pub proof fn lemma_head_of_section(base: Seq<u8>, sub: Seq<u8>)
    requires
        all_lower(base),
    ensures
        head_is_lower(base),
        head_is_lower(base + seq![DOT] + sub),
{
    let joined = base + seq![DOT] + sub;
    lemma_span_bounds(base, 0, Class::NotDot);
    assert(joined[base.len() as int] == DOT);
    lemma_span_stops(joined, 0, base.len() as int, Class::NotDot);
    assert forall|i: int| 0 <= i < section_end(joined) implies lower(#[trigger] joined[i])
        == joined[i] by {
        assert(joined[i] == base[i]);
    }
}

/// Behind a dot and a name without dots, the name starts after that dot.
pub proof fn lemma_name_start(prefix: Seq<u8>, name: Seq<u8>)
    requires
        no_dot(name),
    ensures
        name_start(prefix + seq![DOT] + name) == prefix.len() + 1,
    decreases name.len(),
{
    let joined = prefix + seq![DOT] + name;
    if name.len() == 0 {
        assert(joined.last() == DOT);
    } else {
        assert(joined.last() == name.last());
        assert(joined.drop_last() =~= prefix + seq![DOT] + name.drop_last());
        lemma_name_start(prefix, name.drop_last());
    }
}

/// A section whose head is in lower case, a dot and a name in lower case
/// without dots make a key in the form under which directives are filed.
pub proof fn lemma_joined_key_is_canonical(section: Seq<u8>, name: Seq<u8>)
    requires
        head_is_lower(section),
        all_lower(name),
        no_dot(name),
    ensures
        is_canonical(section + seq![DOT] + name),
{
    let key = section + seq![DOT] + name;
    let end = section_end(key);
    lemma_span_bounds(key, 0, Class::NotDot);
    assert(key[section.len() as int] == DOT);
    lemma_span_stops(key, 0, section.len() as int, Class::NotDot);
    assert forall|i: int| 0 <= i < end implies Class::NotDot.holds(#[trigger] section[i]) by {
        assert(key[i] == section[i]);
    }
    lemma_span_reaches(section, 0, end, Class::NotDot);
    lemma_name_start(section, name);
    assert forall|i: int| 0 <= i < key.len() implies normalize(key)[i] == key[i] by {
        if i < end {
            assert(key[i] == section[i]);
        } else if name_start(key) <= i {
            assert(key[i] == name[i - section.len() - 1]);
        }
    }
    assert(normalize(key) =~= key);
}

fn find_name(k: &[u8]) -> (r: usize)
    ensures
        r == name_start(k@),
        r <= k.len(),
{
    let mut i: usize = k.len();
    proof {
        assert(k@.take(i as int) =~= k@);
    }
    while i > 0
        invariant
            i <= k.len(),
            name_start(k@) == name_start(k@.take(i as int)),
        decreases i,
    {
        if k[i - 1] == DOT {
            return i;
        }
        proof {
            assert(k@.take(i as int).drop_last() =~= k@.take(i - 1));
        }
        i -= 1;
    }
    0
}

/// Brings a key into the form under which directives are filed.
pub fn normalized(k: &[u8]) -> (r: Vec<u8>)
    ensures
        r@ == normalize(k@),
{
    let first = scan(k, 0, Class::NotDot);
    let last = find_name(k);
    let mut out: Vec<u8> = Vec::new();
    let mut i: usize = 0;
    while i < k.len()
        invariant
            i <= k.len(),
            first == section_end(k@),
            last == name_start(k@),
            out@ == normalize(k@).take(i as int),
        decreases k.len() - i,
    {
        let c = k[i];
        out.push(
            if i < first || last <= i {
                to_lower(c)
            } else {
                c
            },
        );
        proof {
            assert(out@ =~= normalize(k@).take(i + 1));
        }
        i += 1;
    }
    proof {
        assert(normalize(k@).take(k@.len() as int) =~= normalize(k@));
    }
    out
}

} // verus!
