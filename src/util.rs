//! Locations inside project documents, located records, and the error type.
use crate::text::{is_identifier, is_identifier_str};
use vstd::prelude::*;

verus! {

/// Where a record sits: the file, the document's index in it, and a path of crumbs inside.
#[derive(Debug)]
pub struct YamlLocation {
    pub file: String,
    pub document_id: usize,
    pub path: Vec<String>,
}

/// The mathematical content of a location.
pub struct LocView {
    pub file: Seq<char>,
    pub document_id: nat,
    pub path: Seq<Seq<char>>,
}

pub open spec fn strings_view(v: Seq<String>) -> Seq<Seq<char>> {
    v.map_values(|s: String| s@)
}

impl View for YamlLocation {
    type V = LocView;

    open spec fn view(&self) -> LocView {
        LocView {
            file: self.file@,
            document_id: self.document_id as nat,
            path: strings_view(self.path@),
        }
    }
}

/// A copy of a list of strings.
pub fn copy_strings(v: &Vec<String>) -> (r: Vec<String>)
    ensures
        strings_view(r@) == strings_view(v@),
{
    let mut out: Vec<String> = Vec::new();
    let mut i: usize = 0;
    while i < v.len()
        invariant
            0 <= i <= v@.len(),
            strings_view(out@) == strings_view(v@.take(i as int)),
        decreases v@.len() - i,
    {
        let ghost before = out@;
        let c = v[i].clone();
        out.push(c);
        proof {
            assert(v@.take(i + 1) =~= v@.take(i as int).push(v@[i as int]));
            assert(out@ =~= before.push(c));
            assert(strings_view(out@) =~= strings_view(before).push(c@));
            assert(strings_view(v@.take(i + 1)) =~= strings_view(v@.take(i as int)).push(v@[i as int]@));
        }
        i = i + 1;
    }
    assert(v@.take(v@.len() as int) =~= v@);
    out
}

impl YamlLocation {
    pub fn new(file: String, document_id: usize, path: Vec<String>) -> (r: Self)
        ensures
            r.file == file,
            r.document_id == document_id,
            r.path == path,
    {
        YamlLocation { file, document_id, path }
    }

    /// Appends a crumb to the path.
    pub fn push(&mut self, path: String)
        ensures
            final(self)@ == (LocView { path: old(self)@.path.push(path@), ..old(self)@ }),
    {
        self.path.push(path);
        proof {
            assert(strings_view(self.path@) =~= old(self)@.path.push(path@));
        }
    }

    /// Removes the last crumb of the path, if there is one.
    pub fn pop(&mut self)
        ensures
            final(self)@ == (LocView {
                path: if old(self)@.path.len() == 0 {
                    old(self)@.path
                } else {
                    old(self)@.path.drop_last()
                },
                ..old(self)@
            }),
    {
        let _ = self.path.pop();
        proof {
            assert(strings_view(self.path@) =~= if old(self)@.path.len() == 0 {
                old(self)@.path
            } else {
                old(self)@.path.drop_last()
            });
        }
    }

    /// A copy of this location.
    pub fn duplicate(&self) -> (r: Self)
        ensures
            r@ == self@,
    {
        YamlLocation {
            file: self.file.clone(),
            document_id: self.document_id,
            path: copy_strings(&self.path),
        }
    }
}

/// A record together with the location it was read from.
#[derive(Debug)]
pub struct Located<T> {
    pub location: YamlLocation,
    pub obj: T,
}

impl<T> Located<T> {
    pub fn new(location: YamlLocation, obj: T) -> (r: Self)
        ensures
            r.location == location,
            r.obj == obj,
    {
        Located { location, obj }
    }

    pub fn location(s: &Located<T>) -> (r: &YamlLocation)
        ensures
            r == &s.location,
    {
        &s.location
    }

    /// The record itself.
    pub fn get(&self) -> (r: &T)
        ensures
            r == &self.obj,
    {
        &self.obj
    }
}

/// What can go wrong while reading, checking or planning a project.
#[derive(Debug)]
pub enum ORError {
    /// A document could not be read; the text says why.
    YamlError(YamlLocation, String),
    IoError(String),
    /// A second record of a kind under a name already taken: location, kind, name.
    DuplicateSymbol(YamlLocation, String, String),
    InvalidCharacter(YamlLocation),
    InvalidEnvironmentName(YamlLocation),
    GenericInvalid(YamlLocation),
    /// A reference to a plugin, artifact or function that does not exist.
    ImportNotFound(YamlLocation, String),
    /// A cycle among artifacts, written `A → B → A`.
    CircularDependency(String),
}

/// The mathematical content of an error.
pub enum ErrorView {
    YamlError(LocView, Seq<char>),
    IoError(Seq<char>),
    DuplicateSymbol(LocView, Seq<char>, Seq<char>),
    InvalidCharacter(LocView),
    InvalidEnvironmentName(LocView),
    GenericInvalid(LocView),
    ImportNotFound(LocView, Seq<char>),
    CircularDependency(Seq<char>),
}

impl View for ORError {
    type V = ErrorView;

    open spec fn view(&self) -> ErrorView {
        match self {
            ORError::YamlError(l, m) => ErrorView::YamlError(l@, m@),
            ORError::IoError(m) => ErrorView::IoError(m@),
            ORError::DuplicateSymbol(l, k, n) => ErrorView::DuplicateSymbol(l@, k@, n@),
            ORError::InvalidCharacter(l) => ErrorView::InvalidCharacter(l@),
            ORError::InvalidEnvironmentName(l) => ErrorView::InvalidEnvironmentName(l@),
            ORError::GenericInvalid(l) => ErrorView::GenericInvalid(l@),
            ORError::ImportNotFound(l, n) => ErrorView::ImportNotFound(l@, n@),
            ORError::CircularDependency(c) => ErrorView::CircularDependency(c@),
        }
    }
}

pub type ORResult<T> = Result<T, ORError>;

/// Checks that `s` holds only `[A-Za-z0-9_]`.
pub fn validate_identifier(s: &str, traceback: &YamlLocation) -> (r: ORResult<()>)
    ensures
        r is Ok <==> is_identifier(s@),
        r is Err ==> r->Err_0@ == ErrorView::InvalidCharacter(traceback@),
{
    if is_identifier_str(s) {
        Ok(())
    } else {
        Err(ORError::InvalidCharacter(traceback.duplicate()))
    }
}

} // verus!
