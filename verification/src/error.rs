//! The failures of the two stages.

use vstd::prelude::*;

verus! {

/// What went wrong.
#[derive(Debug, Clone, Copy, PartialEq, Eq, Structural)]
pub enum ErrorKind {
    /// A character is not allowed in the state the lexer is in.
    IllegalSymbol,
    /// Nothing stands between an opening and a closing marker.
    EmptyReference,
    /// The body of a reference failed the parse it requires.
    InvalidReference,
    /// The input ended inside a construct.
    InvalidToken,
    /// Two keys of the key table share a name.
    DuplicateKey,
    /// Two arguments share a key, or the group size is declared twice.
    DuplicateArgument,
    /// A reference names a key that the key table lacks.
    NonExistentReference,
    /// A reference names an argument that was not declared, or no group
    /// size is declared.
    NonExistentArgument,
    /// A sweep of the resolver made no progress although entries remain.
    MutualReference,
    /// The global constants did not serialize to a table of seeds.
    Serialization,
    /// A later stage received an entity that was never resolved.
    NotPreprocessed,
}

/// A failure together with the context a diagnostic needs.
#[derive(Debug)]
pub struct Error {
    pub kind: ErrorKind,
    /// The text that was being read, empty where none was.
    pub source: String,
    /// The position in `source`, counted in characters, of the offending
    /// character; the length of `source` where the input ended too early.
    pub index: usize,
    /// The keys or names involved.
    pub names: Vec<String>,
}

/// What a failure means.
pub struct Failure {
    pub kind: ErrorKind,
    pub source: Seq<char>,
    pub index: nat,
    pub names: Seq<Seq<char>>,
}

impl View for Error {
    type V = Failure;

    open spec fn view(&self) -> Failure {
        Failure {
            kind: self.kind,
            source: self.source@,
            index: self.index as nat,
            names: Seq::new(self.names@.len(), |i: int| self.names@[i]@),
        }
    }
}

impl Failure {
    /// A failure without context.
    pub open spec fn plain(kind: ErrorKind) -> Failure {
        Failure { kind, source: Seq::empty(), index: 0, names: Seq::empty() }
    }

    /// A failure at one position of a text.
    pub open spec fn at(kind: ErrorKind, source: Seq<char>, index: nat) -> Failure {
        Failure { kind, source, index, names: Seq::empty() }
    }

    /// A failure that involves one name.
    pub open spec fn named(kind: ErrorKind, name: Seq<char>) -> Failure {
        Failure { kind, source: Seq::empty(), index: 0, names: seq![name] }
    }

    /// A failure that involves the given names.
    pub open spec fn naming(kind: ErrorKind, names: Seq<Seq<char>>) -> Failure {
        Failure { kind, source: Seq::empty(), index: 0, names }
    }
}

impl Error {
    /// A failure without context.
    pub fn new(kind: ErrorKind) -> (e: Error)
        ensures
            e@ == Failure::plain(kind),
    {
        let e = Error { kind, source: String::new(), index: 0, names: Vec::new() };
        assert(e@.names =~= Seq::<Seq<char>>::empty());
        e
    }

    /// A failure at one position of a text.
    pub fn at(kind: ErrorKind, source: &str, index: usize) -> (e: Error)
        ensures
            e@ == Failure::at(kind, source@, index as nat),
    {
        let e = Error { kind, source: source.to_owned(), index, names: Vec::new() };
        assert(e@.names =~= Seq::<Seq<char>>::empty());
        e
    }

    /// A failure that involves one name.
    pub fn named(kind: ErrorKind, name: &str) -> (e: Error)
        ensures
            e@ == Failure::named(kind, name@),
    {
        let mut names: Vec<String> = Vec::new();
        names.push(name.to_owned());
        let e = Error { kind, source: String::new(), index: 0, names };
        assert(e@.names =~= seq![name@]);
        e
    }

    /// A failure that involves the given names.
    pub fn naming(kind: ErrorKind, names: Vec<String>) -> (e: Error)
        ensures
            e@ == Failure::naming(kind, crate::text::views(names@)),
    {
        let e = Error { kind, source: String::new(), index: 0, names };
        assert(e@.names =~= crate::text::views(names@));
        e
    }
}

} // verus!
