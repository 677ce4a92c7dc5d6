//! The set of loaded files and its typed lookups.
//!
//! Directives are kept in the order in which they were loaded: file after
//! file, and within a file line after line. A lookup answers from the last
//! directive that has the key, so a later file overrides an earlier one and a
//! later line an earlier line.

use std::path::PathBuf;
use vstd::prelude::*;
use vstd::utf8::{
    decode_utf8, encode_utf8, encode_utf8_decode_utf8, encode_utf8_valid_utf8, valid_utf8,
};
use crate::bytes::{append_bytes, same_bytes};
use crate::directive::{directive_views, stamp, Directive, DirectiveView};
use crate::grammar::{
    lemma_parsed_keys_are_canonical, lemma_parsed_values_are_text, parse_text, EntryView,
    ParseFault, Parsed,
};
use crate::key::{is_canonical, normalize, normalized};
use crate::number::{
    bool_of, int_of, parse_bool, parse_int, parse_ulong, ulong_of, TypeError,
};
use crate::parser::parse;
use crate::path::{expand, expand_home, home_bytes, lemma_expand_is_text, path_of, to_path};
use crate::text::utf8_str;

verus! {

/// A file as it is handed to the set: its path, and its bytes if it could be read.
#[derive(Debug, PartialEq, Eq)]
pub struct SourceFile {
    pub path: String,
    /// `None` where the file could not be opened or read.
    pub contents: Option<Vec<u8>>,
}

/// A file that is handed to the set, as contracts see it.
pub struct SourceView {
    pub path: Seq<char>,
    pub contents: Option<Seq<u8>>,
}

impl View for SourceFile {
    type V = SourceView;

    open spec fn view(&self) -> SourceView {
        SourceView {
            path: self.path@,
            contents: match self.contents {
                Some(b) => Some(b@),
                None => None,
            },
        }
    }
}

/// The files of `files` as contracts see them.
pub open spec fn source_views(files: Seq<SourceFile>) -> Seq<SourceView> {
    files.map_values(|f: SourceFile| f@)
}

impl SourceFile {
    /// A file that was read.
    pub fn loaded(path: &str, bytes: &[u8]) -> (r: SourceFile)
        ensures
            r@ == (SourceView { path: path@, contents: Some(bytes@) }),
    {
        let mut contents: Vec<u8> = Vec::new();
        append_bytes(&mut contents, bytes);
        SourceFile { path: path.to_owned(), contents: Some(contents) }
    }

    /// A file that could not be read.
    pub fn unreadable(path: &str) -> (r: SourceFile)
        ensures
            r@ == (SourceView { path: path@, contents: None }),
    {
        SourceFile { path: path.to_owned(), contents: None }
    }
}

/// Why loading stopped. `file` counts the files of the call from 0.
#[derive(Clone, Copy, Debug, PartialEq, Eq, Structural)]
pub enum LoadError {
    /// The file could not be read.
    Io { file: usize },
    /// The file's text is malformed on the given line.
    Parse { file: usize, line: usize, fault: ParseFault },
}

/// Why loading stopped, as contracts see it.
pub enum LoadFailure {
    Io { file: nat },
    Parse { file: nat, line: nat, fault: ParseFault },
}

impl View for LoadError {
    type V = LoadFailure;

    open spec fn view(&self) -> LoadFailure {
        match *self {
            LoadError::Io { file } => LoadFailure::Io { file: file as nat },
            LoadError::Parse { file, line, fault } => LoadFailure::Parse {
                file: file as nat,
                line: line as nat,
                fault,
            },
        }
    }
}

/// Where a directive was read.
#[derive(Clone, Copy, Debug, PartialEq, Eq, Structural)]
pub struct Origin {
    /// The number of the file among the loaded files, counted from 0.
    pub file: usize,
    /// The line in that file; the first line is line 1.
    pub line: usize,
}

/// The last directive of `entries` that has the key `key`.
pub open spec fn find(entries: Seq<DirectiveView>, key: Seq<u8>) -> Option<DirectiveView>
    decreases entries.len(),
{
    if entries.len() == 0 {
        None
    } else if entries.last().key == key {
        Some(entries.last())
    } else {
        find(entries.drop_last(), key)
    }
}

/// What a lookup finds: nothing, a bare name, or a value.
pub type Found = Option<Option<Seq<u8>>>;

/// What was found, read as a signed 32-bit integer.
pub open spec fn as_int(found: Found) -> Result<Option<i32>, TypeError> {
    match found {
        None => Ok(None),
        Some(None) => Err(TypeError::NoValue),
        Some(Some(v)) => match int_of(v) {
            Ok(n) => Ok(Some(n)),
            Err(e) => Err(e),
        },
    }
}

/// What was found, read as an unsigned 64-bit integer.
pub open spec fn as_ulong(found: Found) -> Result<Option<u64>, TypeError> {
    match found {
        None => Ok(None),
        Some(None) => Err(TypeError::NoValue),
        Some(Some(v)) => match ulong_of(v) {
            Ok(n) => Ok(Some(n)),
            Err(e) => Err(e),
        },
    }
}

/// What was found, read as a truth value. A bare name is true.
pub open spec fn as_bool(found: Found) -> Result<Option<bool>, TypeError> {
    match found {
        None => Ok(None),
        Some(None) => Ok(Some(true)),
        Some(Some(v)) => match bool_of(v) {
            Ok(b) => Ok(Some(b)),
            Err(e) => Err(e),
        },
    }
}

/// What was found, read as text. A bare name has no text.
pub open spec fn as_text(found: Found) -> Option<Seq<char>> {
    match found {
        Some(Some(v)) => Some(decode_utf8(v)),
        _ => None,
    }
}

/// What was found, read as the text of a path: the value with its tilde
/// prefix replaced by `home`. A bare name has no path.
pub open spec fn as_path(found: Found, home: Option<Seq<u8>>) -> Result<
    Option<Seq<char>>,
    TypeError,
> {
    match found {
        Some(Some(v)) => match expand(v, home) {
            Ok(b) => Ok(Some(decode_utf8(b))),
            Err(e) => Err(e),
        },
        _ => Ok(None),
    }
}

/// The set as contracts see it: the paths of the loaded files and their
/// directives, both in the order of loading.
pub struct ConfigSetView {
    pub files: Seq<Seq<char>>,
    pub entries: Seq<DirectiveView>,
}

/// The set after a load, and why the load stopped if it did.
pub struct Loaded {
    pub state: ConfigSetView,
    pub failure: Option<LoadFailure>,
}

impl ConfigSetView {
    /// The set without any file.
    pub open spec fn empty() -> ConfigSetView {
        ConfigSetView { files: Seq::empty(), entries: Seq::empty() }
    }

    /// Every directive names a loaded file, is filed under a key in the form
    /// that lookups ask for, and has a value that is UTF-8.
    pub open spec fn wf(self) -> bool {
        forall|i: int|
            0 <= i < self.entries.len() ==> {
                &&& (#[trigger] self.entries[i]).file < self.files.len()
                &&& is_canonical(self.entries[i].key)
                &&& (self.entries[i].value matches Some(v) ==> valid_utf8(v))
            }
    }

    /// The set with one more file, whose variables are `entries`.
    pub open spec fn with_file(self, path: Seq<char>, entries: Seq<EntryView>) -> ConfigSetView {
        ConfigSetView {
            files: self.files.push(path),
            entries: self.entries + stamp(entries, self.files.len()),
        }
    }

    /// Loads the files from number `i` on, and stops at the first that was
    /// not read or is malformed. That file adds nothing to the set.
    pub open spec fn load_from(self, files: Seq<SourceView>, i: int) -> Loaded
        decreases files.len() - i,
    {
        if i < 0 || i >= files.len() {
            Loaded { state: self, failure: None }
        } else {
            match files[i].contents {
                None => Loaded { state: self, failure: Some(LoadFailure::Io { file: i as nat }) },
                Some(text) => match parse_text(text) {
                    Parsed::Failed { line, fault } => Loaded {
                        state: self,
                        failure: Some(LoadFailure::Parse { file: i as nat, line, fault }),
                    },
                    Parsed::Done(entries) => self.with_file(files[i].path, entries).load_from(
                        files,
                        i + 1,
                    ),
                },
            }
        }
    }

    /// Loads the files in their order.
    pub open spec fn load(self, files: Seq<SourceView>) -> Loaded {
        self.load_from(files, 0)
    }

    /// The directive that answers for the key `name`, written as a caller writes it.
    pub open spec fn lookup(self, name: Seq<u8>) -> Option<DirectiveView> {
        find(self.entries, normalize(name))
    }

    /// What a lookup of `name` finds.
    pub open spec fn value_at(self, name: Seq<u8>) -> Found {
        match self.lookup(name) {
            Some(d) => Some(d.value),
            None => None,
        }
    }

    /// What `get_int` returns for `name`.
    pub open spec fn int_at(self, name: Seq<u8>) -> Result<Option<i32>, TypeError> {
        as_int(self.value_at(name))
    }

    /// What `get_ulong` returns for `name`.
    pub open spec fn ulong_at(self, name: Seq<u8>) -> Result<Option<u64>, TypeError> {
        as_ulong(self.value_at(name))
    }

    /// What `get_bool` returns for `name`.
    pub open spec fn bool_at(self, name: Seq<u8>) -> Result<Option<bool>, TypeError> {
        as_bool(self.value_at(name))
    }

    /// The text that `get_string` returns for `name`.
    pub open spec fn text_at(self, name: Seq<u8>) -> Option<Seq<char>> {
        as_text(self.value_at(name))
    }

    /// The text of the path that `get_pathname` returns for `name`.
    pub open spec fn path_at(self, name: Seq<u8>, home: Option<Seq<u8>>) -> Result<
        Option<Seq<char>>,
        TypeError,
    > {
        as_path(self.value_at(name), home)
    }
}

/// An in-memory index over configuration files.
pub struct ConfigSet {
    files: Vec<String>,
    entries: Vec<Directive>,
}

impl View for ConfigSet {
    type V = ConfigSetView;

    closed spec fn view(&self) -> ConfigSetView {
        ConfigSetView {
            files: self.files@.map_values(|p: String| p@),
            entries: directive_views(self.entries@),
        }
    }
}

impl ConfigSet {
    #[verifier::type_invariant]
    closed spec fn inv(&self) -> bool {
        self@.wf()
    }

    /// An empty set.
    pub fn new() -> (r: ConfigSet)
        ensures
            r@ == ConfigSetView::empty(),
    {
        let r = ConfigSet { files: Vec::new(), entries: Vec::new() };
        proof {
            assert(r@.files =~= Seq::empty());
            assert(r@.entries =~= Seq::empty());
        }
        r
    }

    /// Loads the files in the order given, each over what was loaded before.
    ///
    /// Stops at the first file that was not read or whose text is malformed:
    /// the files before it stay loaded, that file and those after it add
    /// nothing.
    pub fn add_files(&mut self, files: &[SourceFile]) -> (r: Result<(), LoadError>)
        ensures
            final(self)@ == old(self)@.load(source_views(files@)).state,
            final(self)@.wf(),
            match r {
                Ok(()) => old(self)@.load(source_views(files@)).failure is None,
                Err(e) => old(self)@.load(source_views(files@)).failure == Some(e@),
            },
    {
        let mut i: usize = 0;
        while i < files.len()
            invariant
                i <= files.len(),
                old(self)@.load(source_views(files@)) == self@.load_from(
                    source_views(files@),
                    i as int,
                ),
            decreases files.len() - i,
        {
            let file = &files[i];
            proof {
                assert(source_views(files@)[i as int] == file@);
            }
            match &file.contents {
                None => {
                    proof {
                        use_type_invariant(&*self);
                    }
                    return Err(LoadError::Io { file: i });
                },
                Some(bytes) => {
                    let id = self.files.len();
                    match parse(bytes.as_slice(), id) {
                        Err(e) => {
                            proof {
                                use_type_invariant(&*self);
                            }
                            return Err(LoadError::Parse { file: i, line: e.line, fault: e.fault });
                        },
                        Ok(found) => {
                            self.adopt(file.path.clone(), found, Ghost(bytes@));
                        },
                    }
                },
            }
            i += 1;
        }
        proof {
            use_type_invariant(&*self);
        }
        Ok(())
    }

    /// Takes in the directives of one more file.
    fn adopt(&mut self, path: String, found: Vec<Directive>, Ghost(text): Ghost<Seq<u8>>)
        requires
            parse_text(text) matches Parsed::Done(entries) && directive_views(found@) == stamp(
                entries,
                old(self)@.files.len(),
            ),
        ensures
            parse_text(text) matches Parsed::Done(entries) && final(self)@ == old(self)@.with_file(
                path@,
                entries,
            ),
    {
        proof {
            use_type_invariant(&*self);
            lemma_parsed_values_are_text(text);
            lemma_parsed_keys_are_canonical(text);
        }
        let ghost before = self@;
        let ghost entries = parse_text(text)->Done_0;
        let mut found = found;
        // The directives are taken out before the files, and put back after
        // them, so that every directive names a file at each step.
        let mut entries_now: Vec<Directive> = Vec::new();
        let mut files_now: Vec<String> = Vec::new();
        core::mem::swap(&mut entries_now, &mut self.entries);
        core::mem::swap(&mut files_now, &mut self.files);
        files_now.push(path);
        entries_now.append(&mut found);
        proof {
            assert(files_now@.map_values(|p: String| p@) =~= before.files.push(path@));
            assert(directive_views(entries_now@) =~= before.entries + stamp(
                entries,
                before.files.len(),
            ));
        }
        self.files = files_now;
        self.entries = entries_now;
    }

    /// The position of the last directive that has the key `key`.
    fn find_last(&self, key: &[u8]) -> (r: Option<usize>)
        ensures
            match r {
                Some(i) => i < self.entries.len() && find(self@.entries, key@) == Some(
                    self.entries[i as int]@,
                ),
                None => find(self@.entries, key@) is None,
            },
    {
        let mut i: usize = self.entries.len();
        proof {
            assert(self@.entries.take(i as int) =~= self@.entries);
        }
        while i > 0
            invariant
                i <= self.entries.len(),
                find(self@.entries, key@) == find(self@.entries.take(i as int), key@),
            decreases i,
        {
            if same_bytes(self.entries[i - 1].key.as_slice(), key) {
                return Some(i - 1);
            }
            proof {
                assert(self@.entries.take(i as int).drop_last() =~= self@.entries.take(i - 1));
            }
            i -= 1;
        }
        None
    }

    /// The directive that answers for `key`.
    fn last(&self, key: &str) -> (r: Option<&Directive>)
        ensures
            match r {
                Some(d) => self@.lookup(encode_utf8(key@)) == Some(d@) && (d.value matches Some(v)
                    ==> valid_utf8(v@)),
                None => self@.lookup(encode_utf8(key@)) is None,
            },
    {
        proof {
            use_type_invariant(self);
        }
        let bytes = key.as_bytes();
        assert(bytes@ == encode_utf8(key@));
        let name = normalized(bytes);
        match self.find_last(name.as_slice()) {
            None => None,
            Some(i) => {
                proof {
                    assert(self@.entries[i as int] == self.entries[i as int]@);
                }
                Some(&self.entries[i])
            },
        }
    }

    /// The value of `key` as a signed 32-bit integer; `None` where no
    /// directive has the key.
    pub fn get_int(&self, key: &str) -> (r: Result<Option<i32>, TypeError>)
        ensures
            r == self@.int_at(encode_utf8(key@)),
    {
        match self.last(key) {
            None => Ok(None),
            Some(d) => match &d.value {
                None => Err(TypeError::NoValue),
                Some(v) => match parse_int(v.as_slice()) {
                    Ok(n) => Ok(Some(n)),
                    Err(e) => Err(e),
                },
            },
        }
    }

    /// The value of `key` as text; `None` where no directive has the key or
    /// the last one is a bare name.
    pub fn get_string(&self, key: &str) -> (r: Option<String>)
        ensures
            match r {
                Some(t) => self@.text_at(encode_utf8(key@)) == Some(t@),
                None => self@.text_at(encode_utf8(key@)) is None,
            },
    {
        let value = match self.last(key) {
            Some(d) => &d.value,
            None => {
                return None;
            },
        };
        match value {
            Some(v) => match utf8_str(v.as_slice()) {
                Some(t) => {
                    proof {
                        encode_utf8_decode_utf8(t@);
                    }
                    Some(t.to_owned())
                },
                None => None,
            },
            None => None,
        }
    }

    /// The value of `key` as a truth value; a bare name is true. `None` where
    /// no directive has the key.
    pub fn get_bool(&self, key: &str) -> (r: Result<Option<bool>, TypeError>)
        ensures
            r == self@.bool_at(encode_utf8(key@)),
    {
        match self.last(key) {
            None => Ok(None),
            Some(d) => match &d.value {
                None => Ok(Some(true)),
                Some(v) => match parse_bool(v.as_slice()) {
                    Ok(b) => Ok(Some(b)),
                    Err(e) => Err(e),
                },
            },
        }
    }

    /// The value of `key` as an unsigned 64-bit integer; `None` where no
    /// directive has the key.
    pub fn get_ulong(&self, key: &str) -> (r: Result<Option<u64>, TypeError>)
        ensures
            r == self@.ulong_at(encode_utf8(key@)),
    {
        match self.last(key) {
            None => Ok(None),
            Some(d) => match &d.value {
                None => Err(TypeError::NoValue),
                Some(v) => match parse_ulong(v.as_slice()) {
                    Ok(n) => Ok(Some(n)),
                    Err(e) => Err(e),
                },
            },
        }
    }

    /// The value of `key` as a path; `None` where no directive has the key or
    /// the last one is a bare name.
    ///
    /// A value that starts with `~` has that prefix, up to the first `/`,
    /// replaced by `home`: the home directory of the user that the prefix
    /// names. Without a `home` such a value is an error. Any other value is
    /// the path as it is written.
    pub fn get_pathname(&self, key: &str, home: Option<&str>) -> (r: Result<
        Option<PathBuf>,
        TypeError,
    >)
        ensures
            match r {
                Ok(Some(p)) => self@.path_at(encode_utf8(key@), home_bytes(home)) matches Ok(
                    Some(t),
                ) && p == path_of(t),
                Ok(None) => self@.path_at(encode_utf8(key@), home_bytes(home)) == Ok::<
                    Option<Seq<char>>,
                    TypeError,
                >(None),
                Err(e) => self@.path_at(encode_utf8(key@), home_bytes(home)) == Err::<
                    Option<Seq<char>>,
                    TypeError,
                >(e),
            },
    {
        let value = match self.last(key) {
            Some(d) => &d.value,
            None => {
                return Ok(None);
            },
        };
        match value {
            Some(v) => match expand_home(v.as_slice(), home) {
                Err(e) => Err(e),
                Ok(bytes) => {
                    proof {
                        if let Some(h) = home {
                            encode_utf8_valid_utf8(h@);
                        }
                        lemma_expand_is_text(v@, home_bytes(home));
                    }
                    match utf8_str(bytes.as_slice()) {
                        Some(t) => {
                            proof {
                                encode_utf8_decode_utf8(t@);
                            }
                            Ok(Some(to_path(t.to_owned())))
                        },
                        None => Ok(None),
                    }
                },
            },
            None => Ok(None),
        }
    }

    /// Where the directive that answers for `key` was read.
    pub fn origin(&self, key: &str) -> (r: Option<Origin>)
        ensures
            match r {
                Some(o) => self@.lookup(encode_utf8(key@)) matches Some(d) && d.file == o.file
                    && d.line == o.line,
                None => self@.lookup(encode_utf8(key@)) is None,
            },
    {
        match self.last(key) {
            None => None,
            Some(d) => Some(Origin { file: d.file, line: d.line }),
        }
    }

    /// How many files are loaded.
    pub fn file_count(&self) -> (r: usize)
        ensures
            r == self@.files.len(),
    {
        self.files.len()
    }

    /// The path of the loaded file with number `file`.
    pub fn file_path(&self, file: usize) -> (r: Option<String>)
        ensures
            match r {
                Some(p) => file < self@.files.len() && p@ == self@.files[file as int],
                None => file >= self@.files.len(),
            },
    {
        if file < self.files.len() {
            Some(self.files[file].clone())
        } else {
            None
        }
    }
}

impl Default for ConfigSet {
    fn default() -> (r: ConfigSet)
        ensures
            r@ == ConfigSetView::empty(),
    {
        ConfigSet::new()
    }
}

} // verus!
