//! Values read as paths.
//!
//! A value that starts with `~` names a home directory: `~` alone or `~/..`
//! that of the invoking user, `~name` or `~name/..` that of the user `name`.
//! The library has no user database, so the caller looks the directory up
//! and hands it in.

use std::path::PathBuf;
use vstd::prelude::*;
use vstd::utf8::{
    encode_utf8, encode_utf8_valid_utf8, is_char_boundary_iff_not_is_continuation_byte,
    is_char_boundary_start_end_of_seq, valid_utf8, valid_utf8_concat, valid_utf8_split,
};
use crate::bytes::{append_bytes, append_range, lemma_span_bounds, scan, span, Class, TILDE};
use crate::number::TypeError;
use crate::text::utf8_str;

verus! {

/// `std::path::PathBuf`, carried through as a value that nothing here looks into.
#[verifier::external_type_specification]
#[verifier::external_body]
pub struct ExPathBuf(std::path::PathBuf);

/// The path that `PathBuf::from` makes of a text.
pub uninterp spec fn path_of(text: Seq<char>) -> PathBuf;

/// `PathBuf::from` on a `String`: the path is a function of the text alone.
#[verifier::external_body]
pub(crate) fn to_path(text: String) -> (p: PathBuf)
    ensures
        p == path_of(text@),
{
    PathBuf::from(text)
}

/// Whether `v` starts with `~`.
pub open spec fn has_tilde(v: Seq<u8>) -> bool {
    v.len() > 0 && v[0] == TILDE
}

/// Where the tilde prefix of `v` ends: at the first `/`, or at the end of `v`.
pub open spec fn tilde_end(v: Seq<u8>) -> int {
    span(v, 1, Class::NotSlash)
}

/// The user whose home directory `v` starts with: what stands between `~` and
/// the first `/`, which is empty for the invoking user. `None` where `v` does
/// not start with `~`.
pub open spec fn tilde_name(v: Seq<u8>) -> Option<Seq<u8>> {
    if has_tilde(v) {
        Some(v.subrange(1, tilde_end(v)))
    } else {
        None
    }
}

/// `v` with its tilde prefix replaced by `home`. A value without a tilde
/// prefix is returned as it is, whatever `home` is.
pub open spec fn expand(v: Seq<u8>, home: Option<Seq<u8>>) -> Result<Seq<u8>, TypeError> {
    if !has_tilde(v) {
        Ok(v)
    } else {
        match home {
            Some(h) => Ok(h + v.subrange(tilde_end(v), v.len() as int)),
            None => Err(TypeError::NoHome),
        }
    }
}

/// The bytes of the home directory that a caller hands in.
pub open spec fn home_bytes(home: Option<&str>) -> Option<Seq<u8>> {
    match home {
        Some(h) => Some(encode_utf8(h@)),
        None => None,
    }
}

/// The user name of a tilde prefix and what follows the prefix are UTF-8
/// where the whole value is.
pub proof fn lemma_tilde_parts(v: Seq<u8>)
    requires
        valid_utf8(v),
        has_tilde(v),
    ensures
        1 <= tilde_end(v) <= v.len(),
        valid_utf8(v.subrange(1, tilde_end(v))),
        valid_utf8(v.subrange(tilde_end(v), v.len() as int)),
{
    lemma_span_bounds(v, 1, Class::NotSlash);
    let e = tilde_end(v);
    if e == v.len() {
        is_char_boundary_start_end_of_seq(v);
    } else {
        is_char_boundary_iff_not_is_continuation_byte(v, e);
    }
    valid_utf8_split(v, e);
    let head = v.subrange(0, e);
    assert(head[0] == TILDE);
    assert(head.subrange(1, head.len() as int) =~= v.subrange(1, e));
}

/// A value expanded with a home directory that is UTF-8 is UTF-8 where the
/// value is.
pub proof fn lemma_expand_is_text(v: Seq<u8>, home: Option<Seq<u8>>)
    requires
        valid_utf8(v),
        home matches Some(h) ==> valid_utf8(h),
    ensures
        expand(v, home) matches Ok(b) ==> valid_utf8(b),
{
    if has_tilde(v) {
        lemma_tilde_parts(v);
        if let Some(h) = home {
            valid_utf8_concat(h, v.subrange(tilde_end(v), v.len() as int));
        }
    }
}

/// The user that the tilde prefix of `value` names: `Some` of the empty
/// string for the invoking user, `None` where `value` has no tilde prefix.
pub fn tilde_user(value: &str) -> (r: Option<String>)
    ensures
        match r {
            Some(user) => tilde_name(encode_utf8(value@)) == Some(encode_utf8(user@)),
            None => tilde_name(encode_utf8(value@)) is None,
        },
{
    let bytes = value.as_bytes();
    if bytes.len() == 0 || bytes[0] != TILDE {
        return None;
    }
    let end = scan(bytes, 1, Class::NotSlash);
    let mut name: Vec<u8> = Vec::new();
    append_range(&mut name, bytes, 1, end);
    proof {
        encode_utf8_valid_utf8(value@);
        lemma_tilde_parts(bytes@);
        assert(name@ =~= bytes@.subrange(1, end as int));
    }
    match utf8_str(name.as_slice()) {
        Some(user) => Some(user.to_owned()),
        None => None,
    }
}

/// Replaces the tilde prefix of `value` by `home`.
pub fn expand_home(value: &[u8], home: Option<&str>) -> (r: Result<Vec<u8>, TypeError>)
    ensures
        match r {
            Ok(b) => expand(value@, home_bytes(home)) == Ok::<Seq<u8>, TypeError>(b@),
            Err(e) => expand(value@, home_bytes(home)) == Err::<Seq<u8>, TypeError>(e),
        },
{
    let mut out: Vec<u8> = Vec::new();
    if value.len() == 0 || value[0] != TILDE {
        append_bytes(&mut out, value);
        proof {
            assert(out@ =~= value@);
        }
        return Ok(out);
    }
    match home {
        None => Err(TypeError::NoHome),
        Some(h) => {
            let end = scan(value, 1, Class::NotSlash);
            append_bytes(&mut out, h.as_bytes());
            append_range(&mut out, value, end, value.len());
            proof {
                assert(out@ =~= encode_utf8(h@) + value@.subrange(
                    end as int,
                    value@.len() as int,
                ));
            }
            Ok(out)
        },
    }
}

} // verus!
