//! The reference stage: lexing of key references, resolution of the key
//! table and substitution of keys in every other string.

pub mod convergence;
pub mod loader;
pub mod resolver;
pub mod table;
pub mod token;

use vstd::prelude::*;

use crate::config::{CommonKeyable, Name};
use crate::error::{Error, ErrorKind, Failure};
use crate::preprocessor::token::{
    preprocessor_string_tokenizer, reference_lex, reference_views, PreprocessorToken,
    ReferenceToken,
};

verus! {

/// An entity in one of its two states: as it was written, or resolved to
/// its final text.
#[derive(Debug, Clone, PartialEq, Eq)]
pub enum Preprocessable<T> {
    NotPreprocessed(T),
    Preprocessed(String),
}

impl<T> Preprocessable<T> {
    /// The final text, if the entity is resolved.
    pub open spec fn resolved(self) -> Option<Seq<char>> {
        match self {
            Preprocessable::NotPreprocessed(_) => None,
            Preprocessable::Preprocessed(text) => Some(text@),
        }
    }

    /// An entity as it was written.
    pub fn new(value: T) -> (entity: Preprocessable<T>)
        ensures
            entity == Preprocessable::NotPreprocessed(value),
    {
        Preprocessable::NotPreprocessed(value)
    }
}

impl Preprocessable<String> {
    /// A copy of the entity.
    pub fn duplicate(&self) -> (copy: Preprocessable<String>)
        ensures
            copy == *self,
    {
        match self {
            Preprocessable::NotPreprocessed(source) => Preprocessable::NotPreprocessed(
                source.clone(),
            ),
            Preprocessable::Preprocessed(text) => Preprocessable::Preprocessed(text.clone()),
        }
    }
}

impl Preprocessable<Name> {
    /// A copy of the entity.
    pub fn duplicate(&self) -> (copy: Preprocessable<Name>)
        ensures
            copy.resolved() == self.resolved(),
            copy is NotPreprocessed == self is NotPreprocessed,
            self matches Preprocessable::NotPreprocessed(name) ==> name.same(
                copy->NotPreprocessed_0,
            ),
            forall|prefix: Seq<char>|
                copy is NotPreprocessed ==> #[trigger] copy->NotPreprocessed_0.text(prefix)
                    == self->NotPreprocessed_0.text(prefix),
    {
        match self {
            Preprocessable::NotPreprocessed(name) => Preprocessable::NotPreprocessed(
                name.duplicate(),
            ),
            Preprocessable::Preprocessed(text) => Preprocessable::Preprocessed(text.clone()),
        }
    }
}

impl Default for Preprocessable<Name> {
    fn default() -> (entity: Preprocessable<Name>)
        ensures
            entity matches Preprocessable::NotPreprocessed(Name::Raw(string)) && string@.len()
                == 0,
    {
        Preprocessable::NotPreprocessed(Name::default())
    }
}

impl Default for Preprocessable<String> {
    fn default() -> (entity: Preprocessable<String>)
        ensures
            entity matches Preprocessable::NotPreprocessed(string) && string@.len() == 0,
    {
        Preprocessable::NotPreprocessed(String::new())
    }
}

/// What can be written with key references in it.
pub trait Preprocess {
    /// The text that is read for key references.
    spec fn source_text(&self, keys: &CommonKeyable) -> Seq<char>;

    /// Splits the text into literal text and key references.
    fn into_preprocessor_tokens(&self, keys: &CommonKeyable) -> (result: Result<
        Vec<PreprocessorToken>,
        Error,
    >)
        ensures
            match result {
                Ok(tokens) => reference_lex(self.source_text(keys)) == Ok::<
                    Seq<ReferenceToken>,
                    (ErrorKind, nat),
                >(reference_views(tokens@)),
                Err(e) => reference_lex(self.source_text(keys)) == Err::<
                    Seq<ReferenceToken>,
                    (ErrorKind, nat),
                >((e.kind, e.index as nat)) && e@ == Failure::at(
                    e.kind,
                    self.source_text(keys),
                    e.index as nat,
                ),
            },
    ;
}

impl Preprocess for String {
    open spec fn source_text(&self, keys: &CommonKeyable) -> Seq<char> {
        self@
    }

    fn into_preprocessor_tokens(&self, keys: &CommonKeyable) -> (result: Result<
        Vec<PreprocessorToken>,
        Error,
    >) {
        preprocessor_string_tokenizer(self.as_str())
    }
}

impl Preprocess for Name {
    open spec fn source_text(&self, keys: &CommonKeyable) -> Seq<char> {
        self.text(keys.prefix@)
    }

    fn into_preprocessor_tokens(&self, keys: &CommonKeyable) -> (result: Result<
        Vec<PreprocessorToken>,
        Error,
    >) {
        let text = self.initialize(keys);
        preprocessor_string_tokenizer(text.as_str())
    }
}

} // verus!
