//! The surface compiler: substitution of named arguments in every
//! template string that is no repeat body.

use vstd::prelude::*;

use crate::compiler::token::{
    token_views, tokenize_surface_spec, CompilerToken, TemplateToken,
};
use crate::error::{Error, ErrorKind, Failure};
use crate::preprocessor::table::{position, AnyPreprocessable, KeyTable};
use crate::preprocessor::Preprocessable;

verus! {

/// One token added to what has been spliced together so far.  A named
/// reference stands for the final text of the argument it names; one that
/// names no argument, or an argument whose name is not resolved, is a
/// failure that names it.
pub open spec fn splice_step(
    before: Result<Seq<char>, Failure>,
    token: TemplateToken,
    names: Seq<Seq<char>>,
    texts: Seq<Option<Seq<char>>>,
) -> Result<Seq<char>, Failure> {
    match before {
        Err(failure) => Err(failure),
        Ok(text) => match token {
            TemplateToken::Raw(raw) => Ok(text + raw),
            TemplateToken::NamedArgumentRef(name) => match position(names, name) {
                None => Err(Failure::named(ErrorKind::NonExistentArgument, name)),
                Some(place) => match texts[place] {
                    None => Err(Failure::named(ErrorKind::NotPreprocessed, name)),
                    Some(value) => Ok(text + value),
                },
            },
            _ => Ok(text),
        },
    }
}

/// The tokens spliced together, from left to right.
pub open spec fn splice(
    tokens: Seq<TemplateToken>,
    names: Seq<Seq<char>>,
    texts: Seq<Option<Seq<char>>>,
) -> Result<Seq<char>, Failure>
    decreases tokens.len(),
{
    if tokens.len() == 0 {
        Ok(Seq::empty())
    } else {
        splice_step(splice(tokens.drop_last(), names, texts), tokens.last(), names, texts)
    }
}

/// An entity with its named references replaced.  Every other construct
/// of the template grammar stays as it is written.
pub open spec fn surface_compiled(
    entity: Preprocessable<String>,
    names: Seq<Seq<char>>,
    texts: Seq<Option<Seq<char>>>,
) -> Result<Seq<char>, Failure> {
    match surface_tokens(entity) {
        Err(failure) => Err(failure),
        Ok(tokens) => splice(tokens, names, texts),
    }
}

/// Splicing that has failed stays as it is however many tokens follow.
pub proof fn lemma_splice_failure(
    tokens: Seq<TemplateToken>,
    names: Seq<Seq<char>>,
    texts: Seq<Option<Seq<char>>>,
    n: nat,
)
    requires
        n <= tokens.len(),
        splice(tokens.take(n as int), names, texts) is Err,
    ensures
        splice(tokens, names, texts) == splice(tokens.take(n as int), names, texts),
    decreases tokens.len(),
{
    if n == tokens.len() {
        assert(tokens.take(n as int) =~= tokens);
    } else {
        assert(tokens.drop_last().take(n as int) =~= tokens.take(n as int));
        lemma_splice_failure(tokens.drop_last(), names, texts, n);
    }
}

/// The tokens of an entity that is no repeat body.  The entity must have
/// been resolved by the reference stage.
pub open spec fn surface_tokens(entity: Preprocessable<String>) -> Result<
    Seq<TemplateToken>,
    Failure,
> {
    match entity {
        Preprocessable::NotPreprocessed(source) => Err(
            Failure::at(ErrorKind::NotPreprocessed, source@, 0),
        ),
        Preprocessable::Preprocessed(text) => match tokenize_surface_spec(text@) {
            Err((kind, index)) => Err(Failure::at(kind, text@, index)),
            Ok(tokens) => Ok(tokens),
        },
    }
}

impl Preprocessable<String> {
    /// Splits the text of the entity into literal text and named
    /// references.
    ///
    /// Fails with `NotPreprocessed` where the entity is not resolved, and
    /// as the template lexer does where the grammar rejects its text.
    pub fn into_surface_compiler_tokens(&self) -> (result: Result<Vec<CompilerToken>, Error>)
        ensures
            match result {
                Ok(tokens) => surface_tokens(*self) == Ok::<Seq<TemplateToken>, Failure>(
                    token_views(tokens@),
                ),
                Err(e) => surface_tokens(*self) == Err::<Seq<TemplateToken>, Failure>(e@),
            },
    {
        match self {
            Preprocessable::NotPreprocessed(source) => Err(
                Error::at(ErrorKind::NotPreprocessed, source.as_str(), 0),
            ),
            Preprocessable::Preprocessed(text) => CompilerToken::tokenize_surface(text.as_str()),
        }
    }
}

fn splice_tokens(tokens: &Vec<CompilerToken>, named: &KeyTable) -> (result: Result<String, Error>)
    ensures
        match result {
            Ok(text) => splice(token_views(tokens@), named.names(), named.texts()) == Ok::<
                Seq<char>,
                Failure,
            >(text@),
            Err(e) => splice(token_views(tokens@), named.names(), named.texts()) == Err::<
                Seq<char>,
                Failure,
            >(e@),
        },
{
    let ghost all = token_views(tokens@);
    let ghost names = named.names();
    let ghost texts = named.texts();
    let mut compiled_surface_string = String::new();
    let mut i: usize = 0;
    assert(all.take(0) =~= Seq::<TemplateToken>::empty());
    while i < tokens.len()
        invariant
            0 <= i <= tokens.len(),
            all == token_views(tokens@),
            names == named.names(),
            texts == named.texts(),
            splice(all.take(i as int), names, texts) == Ok::<Seq<char>, Failure>(
                compiled_surface_string@,
            ),
        decreases tokens.len() - i,
    {
        proof {
            assert(all.take(i + 1).drop_last() =~= all.take(i as int));
            assert(all.take(i + 1).last() == tokens@[i as int]@);
            assert(splice(all.take(i + 1), names, texts) == splice_step(
                splice(all.take(i as int), names, texts),
                tokens@[i as int]@,
                names,
                texts,
            ));
        }
        match &tokens[i] {
            CompilerToken::Raw(value) => {
                compiled_surface_string.append(value.as_str());
            },
            CompilerToken::NamedArgumentRef(value) => {
                let found = named.get(value);
                proof {
                    match position(names, value@) {
                        Some(place) => {
                            assert(texts[place] == named.entries@[place].value.resolved());
                        },
                        None => {},
                    }
                }
                match found {
                    None => {
                        proof {
                            lemma_splice_failure(all, names, texts, (i + 1) as nat);
                        }
                        return Err(Error::named(ErrorKind::NonExistentArgument, value.as_str()));
                    },
                    Some(AnyPreprocessable::Name(Preprocessable::Preprocessed(name))) => {
                        compiled_surface_string.append(name.as_str());
                    },
                    Some(AnyPreprocessable::String(Preprocessable::Preprocessed(string))) => {
                        compiled_surface_string.append(string.as_str());
                    },
                    Some(_) => {
                        proof {
                            lemma_splice_failure(all, names, texts, (i + 1) as nat);
                        }
                        return Err(Error::named(ErrorKind::NotPreprocessed, value.as_str()));
                    },
                }
            },
            _ => {},
        }
        i = i + 1;
    }
    assert(all.take(tokens.len() as int) =~= all);
    Ok(compiled_surface_string)
}

/// Replaces the named references of an entity in place.
///
/// Succeeds where the entity is resolved, the template grammar accepts its
/// text, and every named reference in it names an argument whose name is
/// resolved.  On failure the entity stays as it was.
pub fn compile_surface_string(
    compilable_string: &mut Preprocessable<String>,
    named: &KeyTable,
) -> (result:
    Result<(), Error>)
    ensures
        match result {
            Ok(()) => {
                &&& *final(compilable_string) is Preprocessed
                &&& surface_compiled(*old(compilable_string), named.names(), named.texts())
                    == Ok::<Seq<char>, Failure>(final(compilable_string).resolved()->0)
            },
            Err(e) => {
                &&& *final(compilable_string) == *old(compilable_string)
                &&& surface_compiled(*old(compilable_string), named.names(), named.texts())
                    == Err::<Seq<char>, Failure>(e@)
            },
        },
{
    let tokens = match compilable_string.into_surface_compiler_tokens() {
        Ok(tokens) => tokens,
        Err(e) => {
            return Err(e);
        },
    };
    match splice_tokens(&tokens, named) {
        Err(e) => Err(e),
        Ok(text) => {
            *compilable_string = Preprocessable::Preprocessed(text);
            Ok(())
        },
    }
}

/// How far a pass over a list of entities gets.
pub struct Progress {
    /// How many entities are done.
    pub done: nat,
    /// The failure of the entity behind them, if there is one.
    pub failure: Option<Failure>,
}

/// The entity at the end of the entities that are done.
pub open spec fn compile_step(
    before: Progress,
    entity: Preprocessable<String>,
    names: Seq<Seq<char>>,
    texts: Seq<Option<Seq<char>>>,
) -> Progress {
    if before.failure is Some {
        before
    } else {
        match surface_compiled(entity, names, texts) {
            Err(failure) => Progress { done: before.done, failure: Some(failure) },
            Ok(_) => Progress { done: before.done + 1, failure: None },
        }
    }
}

/// The surface compiler on the first `n` entities, one after the other.
pub open spec fn compile_prefix(
    entities: Seq<Preprocessable<String>>,
    names: Seq<Seq<char>>,
    texts: Seq<Option<Seq<char>>>,
    n: nat,
) -> Progress
    decreases n,
{
    if n == 0 {
        Progress { done: 0, failure: None }
    } else {
        compile_step(
            compile_prefix(entities, names, texts, (n - 1) as nat),
            entities[n - 1],
            names,
            texts,
        )
    }
}

/// Whether the first `done` entities of `after` are those of `before`
/// with their named references replaced, and the others are as they were.
pub open spec fn compiled(
    before: Seq<Preprocessable<String>>,
    after: Seq<Preprocessable<String>>,
    names: Seq<Seq<char>>,
    texts: Seq<Option<Seq<char>>>,
    done: nat,
) -> bool {
    &&& after.len() == before.len()
    &&& forall|i: int|
        0 <= i < before.len() ==> if i < done {
            (#[trigger] after[i]) is Preprocessed && surface_compiled(before[i], names, texts)
                == Ok::<Seq<char>, Failure>(after[i].resolved()->0)
        } else {
            after[i] == before[i]
        }
}

/// A pass that has failed stays as it is.
pub proof fn lemma_compile_failure(
    entities: Seq<Preprocessable<String>>,
    names: Seq<Seq<char>>,
    texts: Seq<Option<Seq<char>>>,
    n: nat,
    m: nat,
)
    requires
        n <= m,
        compile_prefix(entities, names, texts, n).failure is Some,
    ensures
        compile_prefix(entities, names, texts, m) == compile_prefix(entities, names, texts, n),
    decreases m,
{
    if n < m {
        lemma_compile_failure(entities, names, texts, n, (m - 1) as nat);
    }
}

/// Replaces the named references of every entity of a list, one after the
/// other.
///
/// The first entity that fails gives the error; the entities before it
/// are compiled, the others are as they were.
pub fn compile_surface_strings(
    compilable_strings: &mut Vec<Preprocessable<String>>,
    named: &KeyTable,
) -> (result:
    Result<(), Error>)
    ensures
        ({
            let before = old(compilable_strings)@;
            let outcome = compile_prefix(before, named.names(), named.texts(), before.len());
            &&& compiled(
                before,
                final(compilable_strings)@,
                named.names(),
                named.texts(),
                outcome.done,
            )
            &&& match result {
                Ok(()) => outcome.failure is None && outcome.done == before.len(),
                Err(e) => outcome.failure == Some(e@),
            }
        }),
{
    let ghost before = compilable_strings@;
    let ghost names = named.names();
    let ghost texts = named.texts();
    let count = compilable_strings.len();
    let mut i: usize = 0;
    while i < count
        invariant
            0 <= i <= count,
            count == before.len(),
            before == old(compilable_strings)@,
            names == named.names(),
            texts == named.texts(),
            compile_prefix(before, names, texts, i as nat) == (Progress {
                done: i as nat,
                failure: None,
            }),
            compiled(before, compilable_strings@, names, texts, i as nat),
        decreases count - i,
    {
        proof {
            assert(before[i as int] == compilable_strings@[i as int]);
            assert(compile_prefix(before, names, texts, (i + 1) as nat) == compile_step(
                compile_prefix(before, names, texts, i as nat),
                before[i as int],
                names,
                texts,
            ));
        }
        let mut entity = compilable_strings[i].duplicate();
        match compile_surface_string(&mut entity, named) {
            Err(e) => {
                proof {
                    lemma_compile_failure(before, names, texts, (i + 1) as nat, count as nat);
                }
                return Err(e);
            },
            Ok(()) => {
                compilable_strings.set(i, entity);
            },
        }
        i = i + 1;
    }
    Ok(())
}

} // verus!
