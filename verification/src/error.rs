//! What can go wrong while a tree is converted.

use vstd::prelude::*;

verus! {

/// The class of a failure.
#[derive(Clone, Copy, Debug, PartialEq, Eq, Structural)]
pub enum ErrorKind {
    /// A node is neither a file nor a directory.
    NotFileOrDirectory,
    /// A directory is neither a valid array nor a valid table.
    Structure,
    /// A file's content matches none of the scalar grammars.
    ScalarInference,
    /// The document format could not encode a scalar.
    Format,
}

/// A failure, with the place in the tree where it arose.
#[derive(Clone, Debug, PartialEq, Eq)]
pub struct Error {
    pub kind: ErrorKind,
    /// The entry names that lead from the root of the conversion to the
    /// offending node.
    pub path: Vec<String>,
    /// The raw content of the offending file; empty unless `kind` is
    /// `ScalarInference`.
    pub content: String,
}

/// The model of an [`Error`].
pub ghost struct ErrorView {
    pub kind: ErrorKind,
    pub path: Seq<Seq<char>>,
    pub content: Seq<char>,
}

impl ErrorView {
    /// A failure at the root of a conversion.
    pub open spec fn at_root(kind: ErrorKind, content: Seq<char>) -> ErrorView {
        ErrorView { kind, path: Seq::empty(), content }
    }

    /// The same failure, seen from the directory that holds the failing
    /// subtree under `name`.
    pub open spec fn under(self, name: Seq<char>) -> ErrorView {
        ErrorView { kind: self.kind, path: seq![name] + self.path, content: self.content }
    }
}

impl View for Error {
    type V = ErrorView;

    open spec fn view(&self) -> ErrorView {
        ErrorView { kind: self.kind, path: self.path.deep_view(), content: self.content@ }
    }
}

impl Error {
    /// A failure at the root of a conversion, without content.
    pub fn new(kind: ErrorKind) -> (e: Error)
        ensures
            e@ == ErrorView::at_root(kind, Seq::empty()),
    {
        let e = Error { kind, path: Vec::new(), content: String::new() };
        assert(e.path.deep_view() =~= Seq::empty());
        e
    }

    /// A scalar-inference failure at the root of a conversion.
    pub fn scalar_inference(content: &str) -> (e: Error)
        ensures
            e@ == ErrorView::at_root(ErrorKind::ScalarInference, content@),
    {
        let e = Error {
            kind: ErrorKind::ScalarInference,
            path: Vec::new(),
            content: content.to_owned(),
        };
        assert(e.path.deep_view() =~= Seq::empty());
        e
    }

    /// The same failure, seen from the directory that holds the failing
    /// subtree under `name`.
    pub fn under(self, name: &String) -> (e: Error)
        ensures
            e@ == self@.under(name@),
    {
        let Error { kind, path, content } = self;
        let mut path = path;
        let ghost before = path.deep_view();
        path.insert(0, name.clone());
        assert(path.deep_view() =~= seq![name@] + before);
        Error { kind, path, content }
    }
}

/// The model of a result: the model of what it carries on either side.
pub open spec fn result_view<T: View>(r: Result<T, Error>) -> Result<T::V, ErrorView> {
    match r {
        Ok(t) => Ok(t@),
        Err(e) => Err(e@),
    }
}

} // verus!
