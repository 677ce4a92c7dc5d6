//! What holds of every set, stated over the models that the contracts use.

use vstd::prelude::*;
use vstd::utf8::{decode_utf8, valid_utf8};
use crate::directive::{stamp, DirectiveView};
use crate::grammar::{
    lemma_parsed_keys_are_canonical, lemma_parsed_values_are_text, parse_text, EntryView, Parsed,
};
use crate::key::{is_canonical, normalize};
use crate::number::{int_of, literal, ulong_of, TypeError};
use crate::path::has_tilde;
use crate::set::{find, ConfigSetView, SourceView};

verus! {

/// `find` gives the directive with the key that no later directive with the
/// key follows, and nothing where no directive has the key.
pub proof fn lemma_find(entries: Seq<DirectiveView>, key: Seq<u8>)
    ensures
        match find(entries, key) {
            Some(d) => exists|i: int|
                {
                    &&& 0 <= i < entries.len()
                    &&& #[trigger] entries[i] == d
                    &&& d.key == key
                    &&& forall|j: int| i < j < entries.len() ==> (#[trigger] entries[j]).key != key
                },
            None => forall|i: int| 0 <= i < entries.len() ==> (#[trigger] entries[i]).key != key,
        },
    decreases entries.len(),
{
    if entries.len() > 0 {
        let n = entries.len() - 1;
        if entries.last().key == key {
            assert(entries[n] == entries.last());
        } else {
            let rest = entries.drop_last();
            lemma_find(rest, key);
            match find(rest, key) {
                Some(d) => {
                    let i = choose|i: int|
                        {
                            &&& 0 <= i < rest.len()
                            &&& #[trigger] rest[i] == d
                            &&& d.key == key
                            &&& forall|j: int|
                                i < j < rest.len() ==> (#[trigger] rest[j]).key != key
                        };
                    assert(entries[i] == d);
                    assert forall|j: int| i < j < entries.len() implies (#[trigger] entries[j]).key
                        != key by {
                        if j < n {
                            assert(rest[j] == entries[j]);
                        }
                    }
                },
                None => {
                    assert forall|i: int| 0 <= i < entries.len() implies (#[trigger] entries[i]).key
                        != key by {
                        if i < n {
                            assert(rest[i] == entries[i]);
                        }
                    }
                },
            }
        }
    }
}

/// The directives that have the key `key`, in the order of loading.
pub open spec fn with_key(entries: Seq<DirectiveView>, key: Seq<u8>) -> Seq<DirectiveView> {
    entries.filter(|d: DirectiveView| d.key == key)
}

/// A lookup resolves to the last of the directives that have the key.
pub proof fn lemma_find_is_last_with_key(entries: Seq<DirectiveView>, key: Seq<u8>)
    ensures
        find(entries, key) == if with_key(entries, key).len() > 0 {
            Some(with_key(entries, key).last())
        } else {
            None
        },
    decreases entries.len(),
{
    reveal(Seq::filter);
    if entries.len() > 0 {
        lemma_find_is_last_with_key(entries.drop_last(), key);
    }
}

/// The last directive with a key answers for it, whatever stands before it.
pub proof fn lemma_last_occurrence_wins(entries: Seq<DirectiveView>, i: int, key: Seq<u8>)
    requires
        0 <= i < entries.len(),
        entries[i].key == key,
        forall|j: int| i < j < entries.len() ==> (#[trigger] entries[j]).key != key,
    ensures
        find(entries, key) == Some(entries[i]),
    decreases entries.len(),
{
    let n = entries.len() - 1;
    if entries.last().key == key {
        if i < n {
            assert(entries[n].key != key);
        }
    } else {
        let rest = entries.drop_last();
        assert forall|j: int| i < j < rest.len() implies (#[trigger] rest[j]).key != key by {
            assert(rest[j] == entries[j]);
        }
        lemma_last_occurrence_wins(rest, i, key);
    }
}

/// Over two runs of directives, one after the other, the later run answers
/// for every key that it has, and the earlier run for the others.
pub proof fn lemma_find_in_two(first: Seq<DirectiveView>, second: Seq<DirectiveView>, key: Seq<u8>)
    ensures
        find(first + second, key) == if find(second, key) is Some {
            find(second, key)
        } else {
            find(first, key)
        },
    decreases second.len(),
{
    if second.len() == 0 {
        assert(first + second =~= first);
    } else {
        assert((first + second).last() == second.last());
        assert((first + second).drop_last() =~= first + second.drop_last());
        lemma_find_in_two(first, second.drop_last(), key);
    }
}

/// The value that answers for a key in one file does not depend on the
/// number under which the file is loaded.
pub proof fn lemma_find_in_file(entries: Seq<EntryView>, one: nat, other: nat, key: Seq<u8>)
    ensures
        match find(stamp(entries, one), key) {
            Some(d) => find(stamp(entries, other), key) matches Some(e) && e.value == d.value
                && e.line == d.line,
            None => find(stamp(entries, other), key) is None,
        },
    decreases entries.len(),
{
    if entries.len() > 0 {
        assert(stamp(entries, one).drop_last() =~= stamp(entries.drop_last(), one));
        assert(stamp(entries, other).drop_last() =~= stamp(entries.drop_last(), other));
        lemma_find_in_file(entries.drop_last(), one, other, key);
    }
}

/// A key that no loaded file holds is absent for every accessor: each returns
/// its empty result, and none fails.
pub proof fn lemma_absent_key(set: ConfigSetView, name: Seq<u8>, home: Option<Seq<u8>>)
    requires
        forall|i: int|
            0 <= i < set.entries.len() ==> (#[trigger] set.entries[i]).key != normalize(name),
    ensures
        set.int_at(name) == Ok::<Option<i32>, TypeError>(None),
        set.ulong_at(name) == Ok::<Option<u64>, TypeError>(None),
        set.bool_at(name) == Ok::<Option<bool>, TypeError>(None),
        set.text_at(name) is None,
        set.path_at(name, home) == Ok::<Option<Seq<char>>, TypeError>(None),
{
    lemma_find(set.entries, normalize(name));
}

/// Within one file the last line with a key wins: after the file is loaded
/// into any set, the key has the value of that line.
pub proof fn lemma_last_line_wins(
    set: ConfigSetView,
    path: Seq<char>,
    entries: Seq<EntryView>,
    i: int,
    name: Seq<u8>,
)
    requires
        0 <= i < entries.len(),
        entries[i].key == normalize(name),
        forall|j: int| i < j < entries.len() ==> (#[trigger] entries[j]).key != normalize(name),
    ensures
        set.with_file(path, entries).value_at(name) == Some(entries[i].value),
{
    let key = normalize(name);
    let stamped = stamp(entries, set.files.len());
    assert forall|j: int| i < j < stamped.len() implies (#[trigger] stamped[j]).key != key by {
        assert(entries[j].key != key);
    }
    lemma_last_occurrence_wins(stamped, i, key);
    lemma_find_in_two(set.entries, stamped, key);
}

/// What is read when the files `a` and `b` are loaded in that order, both without fault.
pub open spec fn loaded_two(a: SourceView, b: SourceView) -> ConfigSetView {
    ConfigSetView::empty().load(seq![a, b]).state
}

/// What is read when `a` alone is loaded.
pub open spec fn loaded_one(a: SourceView) -> ConfigSetView {
    ConfigSetView::empty().load(seq![a]).state
}

/// The file was read and its text holds no fault.
pub open spec fn readable(a: SourceView) -> bool {
    a.contents matches Some(text) && parse_text(text) is Done
}

/// The last file wins: after `a` and then `b` are loaded, a key that `b`
/// holds reads as if `b` alone had been loaded, and a key that `b` does not
/// hold reads as if `a` alone had been.
pub proof fn lemma_last_file_wins(
    a: SourceView,
    b: SourceView,
    name: Seq<u8>,
    home: Option<Seq<u8>>,
)
    requires
        readable(a),
        readable(b),
    ensures
        ({
            let both = loaded_two(a, b);
            let chosen = if loaded_one(b).value_at(name) is Some {
                loaded_one(b)
            } else {
                loaded_one(a)
            };
            &&& both.value_at(name) == chosen.value_at(name)
            &&& both.int_at(name) == chosen.int_at(name)
            &&& both.ulong_at(name) == chosen.ulong_at(name)
            &&& both.bool_at(name) == chosen.bool_at(name)
            &&& both.text_at(name) == chosen.text_at(name)
            &&& both.path_at(name, home) == chosen.path_at(name, home)
        }),
{
    let empty = ConfigSetView::empty();
    let ea = parse_text(a.contents->0)->Done_0;
    let eb = parse_text(b.contents->0)->Done_0;
    let key = normalize(name);
    let after_a = empty.with_file(a.path, ea);
    let after_b = empty.with_file(b.path, eb);
    let after_both = after_a.with_file(b.path, eb);
    assert(loaded_one(a) == after_a) by {
        reveal_with_fuel(ConfigSetView::load_from, 2);
    }
    assert(loaded_one(b) == after_b) by {
        reveal_with_fuel(ConfigSetView::load_from, 2);
    }
    assert(loaded_two(a, b) == after_both) by {
        reveal_with_fuel(ConfigSetView::load_from, 3);
    }
    assert(after_a.entries =~= stamp(ea, 0));
    assert(after_b.entries =~= stamp(eb, 0));
    lemma_find_in_two(after_a.entries, stamp(eb, 1), key);
    lemma_find_in_file(eb, 0, 1, key);
    lemma_find_in_file(eb, 1, 0, key);
}

/// Every directive of a set can be found: a lookup by its key as it is filed
/// gives a directive with that key, the last one that has it.
pub proof fn lemma_own_key_finds(set: ConfigSetView, i: int)
    requires
        set.wf(),
        0 <= i < set.entries.len(),
    ensures
        set.lookup(set.entries[i].key) matches Some(d) && d.key == set.entries[i].key,
{
    lemma_find(set.entries, set.entries[i].key);
}

/// Loading keeps a set well formed: whatever the files hold and wherever the
/// load stops, every directive names a loaded file, is filed under a key in
/// the form that lookups ask for, and has a value that is UTF-8.
pub proof fn lemma_load_keeps_wf(set: ConfigSetView, files: Seq<SourceView>, i: int)
    requires
        set.wf(),
        0 <= i,
    ensures
        set.load_from(files, i).state.wf(),
    decreases files.len() - i,
{
    if i < files.len() {
        if let Some(text) = files[i].contents {
            if let Parsed::Done(entries) = parse_text(text) {
                lemma_parsed_values_are_text(text);
                lemma_parsed_keys_are_canonical(text);
                let next = set.with_file(files[i].path, entries);
                let stamped = stamp(entries, set.files.len());
                assert forall|k: int| 0 <= k < next.entries.len() implies {
                    &&& (#[trigger] next.entries[k]).file < next.files.len()
                    &&& is_canonical(next.entries[k].key)
                    &&& (next.entries[k].value matches Some(v) ==> valid_utf8(v))
                } by {
                    if k < set.entries.len() {
                        assert(next.entries[k] == set.entries[k]);
                    } else {
                        let j = k - set.entries.len();
                        assert(next.entries[k] == stamped[j]);
                        assert(stamped[j].value == entries[j].value);
                        assert(stamped[j].key == entries[j].key);
                    }
                }
                lemma_load_keeps_wf(next, files, i + 1);
            }
        }
    }
}

/// Loading only appends: the files and directives that a set holds stay
/// where they are, whatever is loaded after them and wherever the load stops.
pub proof fn lemma_load_appends(set: ConfigSetView, files: Seq<SourceView>, i: int)
    requires
        0 <= i,
    ensures
        ({
            let after = set.load_from(files, i).state;
            &&& set.files.len() <= after.files.len()
            &&& set.entries.len() <= after.entries.len()
            &&& after.files.take(set.files.len() as int) == set.files
            &&& after.entries.take(set.entries.len() as int) == set.entries
        }),
    decreases files.len() - i,
{
    let after = set.load_from(files, i).state;
    assert(set.files.take(set.files.len() as int) =~= set.files);
    assert(set.entries.take(set.entries.len() as int) =~= set.entries);
    if i < files.len() {
        if let Some(text) = files[i].contents {
            if let Parsed::Done(entries) = parse_text(text) {
                let next = set.with_file(files[i].path, entries);
                lemma_load_appends(next, files, i + 1);
                assert(after.files.take(set.files.len() as int) =~= after.files.take(
                    next.files.len() as int,
                ).take(set.files.len() as int));
                assert(next.files.take(set.files.len() as int) =~= set.files);
                assert(after.entries.take(set.entries.len() as int) =~= after.entries.take(
                    next.entries.len() as int,
                ).take(set.entries.len() as int));
                assert(next.entries.take(set.entries.len() as int) =~= set.entries);
            }
        }
    }
}

/// The files behind a first run of files load as they do alone.
proof fn lemma_load_behind(
    set: ConfigSetView,
    first: Seq<SourceView>,
    second: Seq<SourceView>,
    j: int,
)
    requires
        0 <= j,
    ensures
        set.load_from(first + second, first.len() + j).state == set.load_from(second, j).state,
        set.load_from(first + second, first.len() + j).failure is None == set.load_from(
            second,
            j,
        ).failure is None,
    decreases second.len() - j,
{
    if j < second.len() {
        assert((first + second)[first.len() + j] == second[j]);
        if let Some(text) = second[j].contents {
            if let Parsed::Done(entries) = parse_text(text) {
                lemma_load_behind(set.with_file(second[j].path, entries), first, second, j + 1);
            }
        }
    }
}

/// Two loads in a row, the first without a failure, leave the set as one
/// load of all the files does, and fail or not as it does.
pub proof fn lemma_load_in_parts(
    set: ConfigSetView,
    first: Seq<SourceView>,
    second: Seq<SourceView>,
    i: int,
)
    requires
        0 <= i <= first.len(),
        set.load_from(first, i).failure is None,
    ensures
        set.load_from(first + second, i).state == set.load_from(first, i).state.load(second).state,
        set.load_from(first + second, i).failure is None == set.load_from(first, i).state.load(
            second,
        ).failure is None,
    decreases first.len() - i,
{
    if i < first.len() {
        assert((first + second)[i] == first[i]);
        let text = first[i].contents->0;
        let entries = parse_text(text)->Done_0;
        lemma_load_in_parts(set.with_file(first[i].path, entries), first, second, i + 1);
    } else {
        lemma_load_behind(set, first, second, 0);
    }
}

/// A number beyond 32 bits that fits 64 bits is an overflow for the signed
/// 32-bit reading and a value for the unsigned 64-bit reading.
pub proof fn lemma_wide_number(v: Seq<u8>)
    requires
        literal(v) matches Some(l) && !l.negative && i32::MAX < l.magnitude <= u64::MAX,
    ensures
        int_of(v) == Err::<i32, TypeError>(TypeError::Overflow),
        ulong_of(v) matches Ok(n) && n == literal(v)->0.magnitude,
{
}

/// A value that does not start with `~` is its own path: the path reading
/// gives the text that the string reading gives, whatever home directory is
/// handed in.
pub proof fn lemma_plain_path(set: ConfigSetView, name: Seq<u8>, home: Option<Seq<u8>>)
    requires
        set.value_at(name) matches Some(Some(v)) ==> !has_tilde(v),
    ensures
        set.path_at(name, home) == Ok::<Option<Seq<char>>, TypeError>(set.text_at(name)),
{
}

/// A value that starts with `~` reads as the home directory followed by what
/// stands after the prefix.
pub proof fn lemma_home_path(set: ConfigSetView, name: Seq<u8>, home: Seq<u8>)
    requires
        set.value_at(name) matches Some(Some(v)) && has_tilde(v),
    ensures
        set.value_at(name) matches Some(Some(v)) && set.path_at(name, Some(home)) == Ok::<
            Option<Seq<char>>,
            TypeError,
        >(Some(decode_utf8(home + v.subrange(crate::path::tilde_end(v), v.len() as int)))),
{
}

/// Everything that the accessors return for one key.
pub struct Answers {
    pub int: Result<Option<i32>, TypeError>,
    pub ulong: Result<Option<u64>, TypeError>,
    pub boolean: Result<Option<bool>, TypeError>,
    pub text: Option<Seq<char>>,
    pub path: Result<Option<Seq<char>>, TypeError>,
}

/// What the accessors promise of their results for the key `name`.
pub open spec fn answers_for(
    set: ConfigSetView,
    name: Seq<u8>,
    home: Option<Seq<u8>>,
    a: Answers,
) -> bool {
    &&& a.int == set.int_at(name)
    &&& a.ulong == set.ulong_at(name)
    &&& a.boolean == set.bool_at(name)
    &&& a.text == set.text_at(name)
    &&& a.path == set.path_at(name, home)
}

/// Asking twice gives the same twice: an accessor reads the set and leaves it
/// as it is, so two rounds of answers from one set are equal.
pub proof fn lemma_same_answers(
    set: ConfigSetView,
    name: Seq<u8>,
    home: Option<Seq<u8>>,
    first: Answers,
    second: Answers,
)
    requires
        answers_for(set, name, home, first),
        answers_for(set, name, home, second),
    ensures
        first == second,
{
}

} // verus!
