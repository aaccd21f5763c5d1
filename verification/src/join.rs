//! Putting parts back together: where the parts of a file are looked for,
//! which directory entries count as parts, and in what order they are read.

use crate::text::{
    has_prefix, lemma_lex_less_asymmetric, lemma_lex_less_irreflexive, lemma_lex_less_then_le,
    lex_le, lex_less, lex_sorted, str_less,
};
use vstd::prelude::*;
use vstd::seq_lib::{to_multiset_build, to_multiset_insert};
use vstd::string::*;

verus! {

/// Why a path cannot be the target of a join.
#[derive(Clone, Copy, Debug, PartialEq, Eq)]
pub enum JoinError {
    /// The path has no parent directory.
    NoParent,
    /// The path has no file name.
    NoFileName,
    /// The file name is not valid Unicode text.
    UndecodableName,
}

impl JoinError {
    /// The reason in words.
    pub fn message(&self) -> (text: &'static str)
        ensures
            text@ == match *self {
                JoinError::NoParent => "Invalid file path provided"@,
                JoinError::NoFileName => "Invalid file name provided"@,
                JoinError::UndecodableName => "Non UTF-8 file name provided"@,
            },
    {
        match self {
            JoinError::NoParent => "Invalid file path provided",
            JoinError::NoFileName => "Invalid file name provided",
            JoinError::UndecodableName => "Non UTF-8 file name provided",
        }
    }
}

/// What a path has for a file name.
#[derive(Clone, Debug, PartialEq, Eq)]
pub enum NamePart {
    /// The path has no final component that names a file.
    Absent,
    /// The final component is not valid Unicode text.
    Undecodable,
    /// The final component.
    Text(String),
}

/// The place of a join: the directory that is searched, and the file name
/// that every part's name begins with.
#[derive(Clone, Debug, PartialEq, Eq)]
pub struct JoinTarget {
    pub dir: String,
    pub base: String,
}

/// What `resolve_target` returns, over the views of the texts: the error, or
/// the directory and the base name.
pub open spec fn resolved(parent: Option<Seq<char>>, name: Option<Option<Seq<char>>>) -> Result<
    (Seq<char>, Seq<char>),
    JoinError,
> {
    match (parent, name) {
        (None, _) => Err(JoinError::NoParent),
        (Some(_), None) => Err(JoinError::NoFileName),
        (Some(_), Some(None)) => Err(JoinError::UndecodableName),
        (Some(dir), Some(Some(base))) => Ok((dir, base)),
    }
}

impl NamePart {
    /// The name as nested options: nothing, something undecodable, or a text.
    pub open spec fn view(&self) -> Option<Option<Seq<char>>> {
        match *self {
            NamePart::Absent => None,
            NamePart::Undecodable => Some(None),
            NamePart::Text(t) => Some(Some(t@)),
        }
    }
}

impl JoinTarget {
    /// The directory and the base name as texts.
    pub open spec fn view(&self) -> (Seq<char>, Seq<char>) {
        (self.dir@, self.base@)
    }
}

/// The view of an optional text.
pub open spec fn text_of(s: Option<String>) -> Option<Seq<char>> {
    match s {
        Some(t) => Some(t@),
        None => None,
    }
}

/// The view of a join's place or of the reason why there is none.
pub open spec fn target_of(r: Result<JoinTarget, JoinError>) -> Result<
    (Seq<char>, Seq<char>),
    JoinError,
> {
    match r {
        Ok(t) => Ok(t@),
        Err(e) => Err(e),
    }
}

/// Decides from the two halves of a path whether a join can take place.
/// A missing parent is reported first, then a missing file name, then one
/// that is no text; otherwise the parent is the directory to search and the
/// file name is the base name.
pub fn resolve_target(parent: Option<String>, name: NamePart) -> (r: Result<JoinTarget, JoinError>)
    ensures
        target_of(r) == resolved(text_of(parent), name@),
{
    match parent {
        None => Err(JoinError::NoParent),
        Some(dir) => match name {
            NamePart::Absent => Err(JoinError::NoFileName),
            NamePart::Undecodable => Err(JoinError::UndecodableName),
            NamePart::Text(base) => Ok(JoinTarget { dir, base }),
        },
    }
}

/// The parent that the platform's path rules give the path `path`, if any.
pub uninterp spec fn parent_of_path(path: Seq<char>) -> Option<Seq<char>>;

/// The final component that the platform's path rules give the path `path`:
/// nothing, something that is no text, or a text.
pub uninterp spec fn file_name_of_path(path: Seq<char>) -> Option<Option<Seq<char>>>;

/// `std::path::Path::parent`: the path without its final component, which
/// depends on the path alone. The empty path has no parent.
#[verifier::external_body]
fn path_parent(path: &str) -> (parent: Option<String>)
    ensures
        text_of(parent) == parent_of_path(path@),
        path@.len() == 0 ==> parent is None,
{
    match std::path::Path::new(path).parent() {
        Some(p) => Some(p.to_string_lossy().into_owned()),
        None => None,
    }
}

/// `std::path::Path::file_name`: the final component of the path, where it
/// names a file, decoded as text. It depends on the path alone.
#[verifier::external_body]
fn path_file_name(path: &str) -> (name: NamePart)
    ensures
        name@ == file_name_of_path(path@),
{
    match std::path::Path::new(path).file_name() {
        None => NamePart::Absent,
        Some(n) => match n.to_str() {
            None => NamePart::Undecodable,
            Some(t) => NamePart::Text(t.to_owned()),
        },
    }
}

/// Finds the place of the join that rebuilds `file_path`: its parent
/// directory and its file name, or the reason why the path has none. The
/// empty path always fails for want of a parent.
pub fn unsplit_target(file_path: &str) -> (r: Result<JoinTarget, JoinError>)
    ensures
        target_of(r) == resolved(parent_of_path(file_path@), file_name_of_path(file_path@)),
        file_path@.len() == 0 ==> r == Err::<JoinTarget, JoinError>(JoinError::NoParent),
{
    let parent = path_parent(file_path);
    let name = path_file_name(file_path);
    resolve_target(parent, name)
}

/// One entry of the searched directory.
#[derive(Clone, Debug, PartialEq, Eq)]
pub struct DirEntry {
    /// The entry's full path.
    pub path: String,
    /// The entry's name inside the directory.
    pub name: String,
    /// Whether the entry is a regular file.
    pub is_file: bool,
}

impl DirEntry {
    /// Whether the entry counts as a part of the file named `base`: it is a
    /// regular file and its name begins with `base`. Nothing more is asked of
    /// the name, so any file that shares the beginning is taken.
    pub open spec fn is_part_of(&self, base: Seq<char>) -> bool {
        self.is_file && base.is_prefix_of(self.name@)
    }
}

/// The test that picks the parts of `base` out of a directory.
pub open spec fn part_of(base: Seq<char>) -> spec_fn(DirEntry) -> bool {
    |e: DirEntry| e.is_part_of(base)
}

/// The views of the strings `v`.
pub open spec fn texts(v: Seq<String>) -> Seq<Seq<char>> {
    v.map_values(|s: String| s@)
}

/// The paths of the entries that count as parts of `base`, in the order of
/// the listing.
pub open spec fn selected_paths(entries: Seq<DirEntry>, base: Seq<char>) -> Seq<Seq<char>> {
    entries.filter(part_of(base)).map_values(|e: DirEntry| e.path@)
}

/// Taking one more entry of the listing adds its path where it is a part,
/// and nothing otherwise.
pub proof fn lemma_selected_paths_push(entries: Seq<DirEntry>, e: DirEntry, base: Seq<char>)
    ensures
        selected_paths(entries.push(e), base) == if e.is_part_of(base) {
            selected_paths(entries, base).push(e.path@)
        } else {
            selected_paths(entries, base)
        },
{
    entries.lemma_filter_push(e, part_of(base));
    if e.is_part_of(base) {
        assert(selected_paths(entries.push(e), base) =~= selected_paths(entries, base).push(
            e.path@,
        ));
    }
}

/// Picks the parts of the file named `base` out of a directory listing and
/// puts their paths in the order in which they are to be read: ascending
/// dictionary order of the paths.
pub fn select_parts(entries: &Vec<DirEntry>, base: &str) -> (parts: Vec<String>)
    ensures
        lex_sorted(texts(parts@)),
        texts(parts@).to_multiset() == selected_paths(entries@, base@).to_multiset(),
{
    let mut parts: Vec<String> = Vec::new();
    let mut i: usize = 0;
    assert(entries@.take(0) =~= Seq::<DirEntry>::empty());
    assert(texts(parts@) =~= selected_paths(entries@.take(0), base@));
    while i < entries.len()
        invariant
            i <= entries.len(),
            lex_sorted(texts(parts@)),
            texts(parts@).to_multiset() == selected_paths(
                entries@.take(i as int),
                base@,
            ).to_multiset(),
        decreases entries.len() - i,
    {
        let entry = &entries[i];
        proof {
            assert(entries@.take(i + 1) =~= entries@.take(i as int).push(*entry));
            lemma_selected_paths_push(entries@.take(i as int), *entry, base@);
        }
        if entry.is_file && has_prefix(entry.name.as_str(), base) {
            let path = entry.path.clone();
            insert_sorted(&mut parts, path);
            proof {
                to_multiset_build(selected_paths(entries@.take(i as int), base@), path@);
            }
        }
        i += 1;
    }
    assert(entries@.take(i as int) =~= entries@);
    parts
}

/// Puts `path` into the sorted list `parts`, behind the paths that are no
/// later than it.
fn insert_sorted(parts: &mut Vec<String>, path: String)
    requires
        lex_sorted(texts(old(parts)@)),
    ensures
        lex_sorted(texts(final(parts)@)),
        texts(final(parts)@).to_multiset() == texts(old(parts)@).to_multiset().insert(path@),
{
    let mut pos: usize = 0;
    while pos < parts.len() && !str_less(path.as_str(), parts[pos].as_str())
        invariant
            pos <= parts.len(),
            *parts == *old(parts),
            forall|j: int| 0 <= j < pos ==> lex_le(#[trigger] texts(parts@)[j], path@),
        decreases parts.len() - pos,
    {
        pos += 1;
    }
    let ghost before = texts(parts@);
    parts.insert(pos, path);
    proof {
        let after = texts(parts@);
        assert(after =~= before.insert(pos as int, path@));
        to_multiset_insert(before, pos as int, path@);
        assert forall|i: int, j: int| 0 <= i < j < after.len() implies lex_le(
            #[trigger] after[i],
            #[trigger] after[j],
        ) by {
            if j == pos {
                assert(after[i] == before[i]);
            } else if i == pos {
                assert(after[j] == before[j - 1]);
                assert(lex_less(path@, before[pos as int]));
                lemma_lex_less_irreflexive(before[pos as int]);
                lemma_lex_less_then_le(path@, before[pos as int], before[j - 1]);
                lemma_lex_less_asymmetric(path@, before[j - 1]);
            } else {
                let bi = if i < pos { i } else { i - 1 };
                let bj = if j < pos { j } else { j - 1 };
                assert(after[i] == before[bi] && after[j] == before[bj]);
            }
        }
    }
}

/// Joins the contents of the parts, in the order given.
pub fn join_bytes(parts: &Vec<Vec<u8>>) -> (whole: Vec<u8>)
    ensures
        whole@ == contents(parts@).flatten(),
{
    let mut whole: Vec<u8> = Vec::new();
    let mut i: usize = 0;
    assert(contents(parts@).take(0) =~= Seq::<Seq<u8>>::empty());
    while i < parts.len()
        invariant
            i <= parts.len(),
            whole@ == contents(parts@).take(i as int).flatten(),
        decreases parts.len() - i,
    {
        let ghost before = whole@;
        whole.extend_from_slice(parts[i].as_slice());
        proof {
            let done = contents(parts@).take(i as int);
            assert(contents(parts@).take(i + 1) =~= done.push(parts@[i as int]@));
            done.lemma_flatten_push(parts@[i as int]@);
            assert(whole@ =~= before + parts@[i as int]@);
        }
        i += 1;
    }
    assert(contents(parts@).take(i as int) =~= contents(parts@));
    whole
}

/// The byte sequences that the buffers `v` hold.
pub open spec fn contents(v: Seq<Vec<u8>>) -> Seq<Seq<u8>> {
    v.map_values(|b: Vec<u8>| b@)
}

} // verus!
