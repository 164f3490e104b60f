//! The reference lexer.

use vstd::prelude::*;

use crate::error::{Error, ErrorKind, Failure};
use crate::sigil::PreprocessorSigil;
use crate::text::chars_of;

verus! {

/// One piece of a string that may refer to keys.
#[derive(Debug, Clone, PartialEq, Eq)]
pub enum PreprocessorToken {
    /// Literal text.
    Raw(String),
    /// The name of a key.
    Key(String),
}

/// What a token means.
pub enum ReferenceToken {
    Raw(Seq<char>),
    Key(Seq<char>),
}

impl View for PreprocessorToken {
    type V = ReferenceToken;

    open spec fn view(&self) -> ReferenceToken {
        match self {
            PreprocessorToken::Raw(text) => ReferenceToken::Raw(text@),
            PreprocessorToken::Key(name) => ReferenceToken::Key(name@),
        }
    }
}

impl DeepView for PreprocessorToken {
    type V = ReferenceToken;

    open spec fn deep_view(&self) -> ReferenceToken {
        self@
    }
}

/// What the tokens of a sequence mean.
pub open spec fn reference_views(tokens: Seq<PreprocessorToken>) -> Seq<ReferenceToken> {
    Seq::new(tokens.len(), |i: int| tokens[i]@)
}

/// The state of the reference lexer between two characters.
#[derive(Debug, Clone)]
pub enum PreprocessorTokenizerState {
    /// Inside literal text.
    Copying(String),
    /// Inside the name of a key.
    CopyingKey(String),
    /// Behind the character that starts a reference.
    SigilFound,
    /// Behind an embed character.
    EmbedFound(String),
}

/// What a lexer state means.
pub enum ReferenceMode {
    Copying(Seq<char>),
    CopyingKey(Seq<char>),
    SigilFound,
    EmbedFound(Seq<char>),
}

impl View for PreprocessorTokenizerState {
    type V = ReferenceMode;

    open spec fn view(&self) -> ReferenceMode {
        match self {
            PreprocessorTokenizerState::Copying(text) => ReferenceMode::Copying(text@),
            PreprocessorTokenizerState::CopyingKey(name) => ReferenceMode::CopyingKey(name@),
            PreprocessorTokenizerState::SigilFound => ReferenceMode::SigilFound,
            PreprocessorTokenizerState::EmbedFound(text) => ReferenceMode::EmbedFound(text@),
        }
    }
}

/// The tokens read so far and the state the lexer is in.
pub struct ReferenceScan {
    pub tokens: Seq<ReferenceToken>,
    pub mode: ReferenceMode,
}

/// The lexer before the first character.
pub open spec fn initial_reference_scan() -> ReferenceScan {
    ReferenceScan { tokens: Seq::empty(), mode: ReferenceMode::Copying(Seq::empty()) }
}

/// The tokens with the literal text read so far added, if there is any.
pub open spec fn reference_flush(tokens: Seq<ReferenceToken>, text: Seq<char>) -> Seq<
    ReferenceToken,
> {
    if text.len() > 0 {
        tokens.push(ReferenceToken::Raw(text))
    } else {
        tokens
    }
}

/// One character read.
pub open spec fn reference_step(scan: ReferenceScan, ch: char) -> Result<
    ReferenceScan,
    ErrorKind,
> {
    let sigil = PreprocessorSigil::classify(ch);
    let tokens = scan.tokens;
    match scan.mode {
        ReferenceMode::Copying(text) => match sigil {
            PreprocessorSigil::TokenStart => Ok(
                ReferenceScan {
                    tokens: reference_flush(tokens, text),
                    mode: ReferenceMode::SigilFound,
                },
            ),
            PreprocessorSigil::TokenEmbed => Ok(
                ReferenceScan { tokens, mode: ReferenceMode::EmbedFound(text) },
            ),
            _ => Ok(ReferenceScan { tokens, mode: ReferenceMode::Copying(text.push(ch)) }),
        },
        ReferenceMode::EmbedFound(text) => match sigil {
            PreprocessorSigil::TokenStart | PreprocessorSigil::TokenEmbed => Ok(
                ReferenceScan { tokens, mode: ReferenceMode::Copying(text.push(ch)) },
            ),
            _ => Err(ErrorKind::IllegalSymbol),
        },
        ReferenceMode::SigilFound => match sigil {
            PreprocessorSigil::KeyRefOpen => Ok(
                ReferenceScan { tokens, mode: ReferenceMode::CopyingKey(Seq::empty()) },
            ),
            _ => Err(ErrorKind::IllegalSymbol),
        },
        ReferenceMode::CopyingKey(name) => match sigil {
            PreprocessorSigil::KeyRefClose => if name.len() == 0 {
                Err(ErrorKind::EmptyReference)
            } else {
                Ok(
                    ReferenceScan {
                        tokens: tokens.push(ReferenceToken::Key(name)),
                        mode: ReferenceMode::Copying(Seq::empty()),
                    },
                )
            },
            PreprocessorSigil::Non(_) => Ok(
                ReferenceScan { tokens, mode: ReferenceMode::CopyingKey(name.push(ch)) },
            ),
            _ => Err(ErrorKind::IllegalSymbol),
        },
    }
}

/// The lexer behind the first `n` characters of a text, or the kind and
/// the position of the first failure among them.
pub open spec fn reference_scan_prefix(s: Seq<char>, n: nat) -> Result<
    ReferenceScan,
    (ErrorKind, nat),
>
    decreases n,
{
    if n == 0 {
        Ok(initial_reference_scan())
    } else {
        match reference_scan_prefix(s, (n - 1) as nat) {
            Err(failure) => Err(failure),
            Ok(scan) => match reference_step(scan, s[n - 1]) {
                Ok(next) => Ok(next),
                Err(kind) => Err((kind, (n - 1) as nat)),
            },
        }
    }
}

/// The end of the input: literal text is flushed, anything else is an
/// unterminated construct.
pub open spec fn reference_finish(scan: ReferenceScan) -> Result<Seq<ReferenceToken>, ErrorKind> {
    match scan.mode {
        ReferenceMode::Copying(text) => Ok(reference_flush(scan.tokens, text)),
        _ => Err(ErrorKind::InvalidToken),
    }
}

/// The tokens of a string, or the kind and the position of the first
/// failure.  A failure at the end of the input has the length of the input
/// as its position.
pub open spec fn reference_lex(s: Seq<char>) -> Result<Seq<ReferenceToken>, (ErrorKind, nat)> {
    match reference_scan_prefix(s, s.len()) {
        Err(failure) => Err(failure),
        Ok(scan) => match reference_finish(scan) {
            Ok(tokens) => Ok(tokens),
            Err(kind) => Err((kind, s.len())),
        },
    }
}

/// Whether no literal text among the tokens is empty and no two pieces of
/// literal text are neighbours.
pub open spec fn coalesced(tokens: Seq<ReferenceToken>) -> bool {
    &&& forall|i: int|
        0 <= i < tokens.len() ==> (#[trigger] tokens[i] matches ReferenceToken::Raw(text)
            ==> text.len() > 0)
    &&& forall|i: int|
        0 <= i < tokens.len() - 1 ==> !((#[trigger] tokens[i]) is Raw && tokens[i + 1] is Raw)
}

spec fn tidy(scan: ReferenceScan) -> bool {
    &&& coalesced(scan.tokens)
    &&& (scan.mode is Copying || scan.mode is EmbedFound) ==> (scan.tokens.len() == 0
        || !(scan.tokens.last() is Raw))
}

proof fn lemma_reference_step_tidy(scan: ReferenceScan, ch: char)
    requires
        tidy(scan),
        reference_step(scan, ch) is Ok,
    ensures
        tidy(reference_step(scan, ch)->Ok_0),
{
}

proof fn lemma_reference_scan_tidy(s: Seq<char>, n: nat)
    requires
        reference_scan_prefix(s, n) is Ok,
    ensures
        tidy(reference_scan_prefix(s, n)->Ok_0),
    decreases n,
{
    if n > 0 {
        lemma_reference_scan_tidy(s, (n - 1) as nat);
        lemma_reference_step_tidy(reference_scan_prefix(s, (n - 1) as nat)->Ok_0, s[n - 1]);
    }
}

/// The lexer never emits empty literal text, and it emits neighbouring
/// literal text as one token.
pub proof fn lemma_reference_lex_coalesced(s: Seq<char>)
    requires
        reference_lex(s) is Ok,
    ensures
        coalesced(reference_lex(s)->Ok_0),
{
    lemma_reference_scan_tidy(s, s.len());
}

proof fn lemma_reference_scan_failure_kind(s: Seq<char>, n: nat)
    ensures
        reference_scan_prefix(s, n) matches Err((kind, _)) ==> kind == ErrorKind::IllegalSymbol
            || kind == ErrorKind::EmptyReference,
    decreases n,
{
    if n > 0 {
        lemma_reference_scan_failure_kind(s, (n - 1) as nat);
    }
}

/// The lexer fails in three ways only.
pub proof fn lemma_reference_lex_failure_kind(s: Seq<char>)
    ensures
        reference_lex(s) matches Err((kind, _)) ==> kind == ErrorKind::IllegalSymbol || kind
            == ErrorKind::EmptyReference || kind == ErrorKind::InvalidToken,
{
    lemma_reference_scan_failure_kind(s, s.len());
}

/// Once a prefix has failed, every longer prefix fails in the same way.
pub proof fn lemma_reference_scan_prefix_failure(s: Seq<char>, n: nat, m: nat)
    requires
        n <= m,
        reference_scan_prefix(s, n) is Err,
    ensures
        reference_scan_prefix(s, m) == reference_scan_prefix(s, n),
    decreases m,
{
    if n < m {
        lemma_reference_scan_prefix_failure(s, n, (m - 1) as nat);
    }
}

fn push_token(parts: &mut Vec<PreprocessorToken>, token: PreprocessorToken)
    ensures
        reference_views(final(parts)@) == reference_views(old(parts)@).push(token@),
{
    parts.push(token);
    assert(reference_views(parts@) =~= reference_views(old(parts)@).push(token@));
}

fn flush_text(parts: &mut Vec<PreprocessorToken>, text: String)
    ensures
        reference_views(final(parts)@) == reference_flush(reference_views(old(parts)@), text@),
{
    if !text.as_str().is_empty() {
        push_token(parts, PreprocessorToken::Raw(text));
    }
}

fn advance(
    state: PreprocessorTokenizerState,
    parts: &mut Vec<PreprocessorToken>,
    ch: char,
) -> (next:
    Result<PreprocessorTokenizerState, ErrorKind>)
    ensures
        ({
            let scan = ReferenceScan { tokens: reference_views(old(parts)@), mode: state@ };
            match next {
                Ok(state_after) => reference_step(scan, ch) == Ok::<ReferenceScan, ErrorKind>(
                    ReferenceScan {
                        tokens: reference_views(final(parts)@),
                        mode: state_after@,
                    },
                ),
                Err(kind) => reference_step(scan, ch) == Err::<ReferenceScan, ErrorKind>(kind),
            }
        }),
{
    let sigil = PreprocessorSigil::from(ch);
    match state {
        PreprocessorTokenizerState::Copying(mut text) => match sigil {
            PreprocessorSigil::TokenStart => {
                flush_text(parts, text);
                Ok(PreprocessorTokenizerState::SigilFound)
            },
            PreprocessorSigil::TokenEmbed => Ok(PreprocessorTokenizerState::EmbedFound(text)),
            _ => {
                text.push(ch);
                Ok(PreprocessorTokenizerState::Copying(text))
            },
        },
        PreprocessorTokenizerState::EmbedFound(mut text) => match sigil {
            PreprocessorSigil::TokenStart | PreprocessorSigil::TokenEmbed => {
                text.push(ch);
                Ok(PreprocessorTokenizerState::Copying(text))
            },
            _ => Err(ErrorKind::IllegalSymbol),
        },
        PreprocessorTokenizerState::SigilFound => match sigil {
            PreprocessorSigil::KeyRefOpen => Ok(
                PreprocessorTokenizerState::CopyingKey(String::new()),
            ),
            _ => Err(ErrorKind::IllegalSymbol),
        },
        PreprocessorTokenizerState::CopyingKey(mut name) => match sigil {
            PreprocessorSigil::KeyRefClose => {
                if name.as_str().is_empty() {
                    Err(ErrorKind::EmptyReference)
                } else {
                    push_token(parts, PreprocessorToken::Key(name));
                    Ok(PreprocessorTokenizerState::Copying(String::new()))
                }
            },
            PreprocessorSigil::Non(_) => {
                name.push(ch);
                Ok(PreprocessorTokenizerState::CopyingKey(name))
            },
            _ => Err(ErrorKind::IllegalSymbol),
        },
    }
}

/// Splits a string into literal text and key references.
///
/// Succeeds exactly on the strings that the grammar accepts; the error of
/// any other string has the kind and the position of the first failure.
pub fn preprocessor_string_tokenizer(s: &str) -> (result: Result<Vec<PreprocessorToken>, Error>)
    ensures
        match result {
            Ok(tokens) => reference_lex(s@) == Ok::<Seq<ReferenceToken>, (ErrorKind, nat)>(
                reference_views(tokens@),
            ) && coalesced(reference_views(tokens@)),
            Err(e) => reference_lex(s@) == Err::<Seq<ReferenceToken>, (ErrorKind, nat)>(
                (e.kind, e.index as nat),
            ) && e@ == Failure::at(e.kind, s@, e.index as nat),
        },
{
    let chars = chars_of(s);
    let mut parts: Vec<PreprocessorToken> = Vec::new();
    let mut state = PreprocessorTokenizerState::Copying(String::new());
    let mut i: usize = 0;
    assert(reference_views(parts@) =~= Seq::<ReferenceToken>::empty());
    while i < chars.len()
        invariant
            0 <= i <= chars.len(),
            chars@ == s@,
            reference_scan_prefix(s@, i as nat) == Ok::<ReferenceScan, (ErrorKind, nat)>(
                ReferenceScan { tokens: reference_views(parts@), mode: state@ },
            ),
        decreases chars.len() - i,
    {
        match advance(state, &mut parts, chars[i]) {
            Err(kind) => {
                proof {
                    lemma_reference_scan_prefix_failure(s@, (i + 1) as nat, s@.len());
                }
                return Err(Error::at(kind, s, i));
            },
            Ok(next) => {
                state = next;
            },
        }
        i = i + 1;
    }
    match state {
        PreprocessorTokenizerState::Copying(text) => {
            flush_text(&mut parts, text);
            proof {
                lemma_reference_lex_coalesced(s@);
            }
            Ok(parts)
        },
        _ => Err(Error::at(ErrorKind::InvalidToken, s, i)),
    }
}

} // verus!
