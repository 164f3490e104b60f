//! The template lexer and its inverse.

use vstd::prelude::*;

use crate::error::{Error, ErrorKind, Failure};
use crate::sigil::CompilerSigil;
use crate::text::{chars_of, decimal, parse_index, push_decimal, read_index};

verus! {

/// One piece of a template string.
#[derive(Debug, Clone, PartialEq, Eq)]
pub enum CompilerToken {
    /// Literal text.
    Raw(String),
    /// A reference to a named argument.
    NamedArgumentRef(String),
    /// A reference to an argument of the current group, by its index.
    UnamedArgumentRef(usize),
    /// The number of the current group, counted from one.
    Position,
    /// Text that is left out of the last group.
    SkipLast(String),
}

/// What a token means.
pub enum TemplateToken {
    Raw(Seq<char>),
    NamedArgumentRef(Seq<char>),
    UnamedArgumentRef(nat),
    Position,
    SkipLast(Seq<char>),
}

impl View for CompilerToken {
    type V = TemplateToken;

    open spec fn view(&self) -> TemplateToken {
        match self {
            CompilerToken::Raw(text) => TemplateToken::Raw(text@),
            CompilerToken::NamedArgumentRef(name) => TemplateToken::NamedArgumentRef(name@),
            CompilerToken::UnamedArgumentRef(index) => TemplateToken::UnamedArgumentRef(
                *index as nat,
            ),
            CompilerToken::Position => TemplateToken::Position,
            CompilerToken::SkipLast(text) => TemplateToken::SkipLast(text@),
        }
    }
}

impl DeepView for CompilerToken {
    type V = TemplateToken;

    open spec fn deep_view(&self) -> TemplateToken {
        self@
    }
}

/// What the tokens of a sequence mean.
pub open spec fn token_views(tokens: Seq<CompilerToken>) -> Seq<TemplateToken> {
    Seq::new(tokens.len(), |i: int| tokens[i]@)
}

/// The state of the template lexer between two characters.
#[derive(Debug, Clone, PartialEq, Eq)]
pub enum CompilerTokenizerState {
    /// Inside literal text.
    Copying(String),
    /// Inside the name of a named reference.
    CopyingNamedArgumentRef(String),
    /// Inside the index of an indexed reference.
    CopyingUnamedArgumentRef(String),
    /// Inside the text of a skip-last construct.
    CopyingSkipLast(String),
    /// Behind an embed character inside a skip-last construct.
    CopyingSkipLastEmbed(String),
    /// Behind the character that starts a construct.
    SigilFound,
    /// Behind an embed character inside literal text.
    EmbedFound(String),
}

/// What a lexer state means.
pub enum Mode {
    Copying(Seq<char>),
    CopyingNamedArgumentRef(Seq<char>),
    CopyingUnamedArgumentRef(Seq<char>),
    CopyingSkipLast(Seq<char>),
    CopyingSkipLastEmbed(Seq<char>),
    SigilFound,
    EmbedFound(Seq<char>),
}

impl View for CompilerTokenizerState {
    type V = Mode;

    open spec fn view(&self) -> Mode {
        match self {
            CompilerTokenizerState::Copying(text) => Mode::Copying(text@),
            CompilerTokenizerState::CopyingNamedArgumentRef(text) => Mode::CopyingNamedArgumentRef(
                text@,
            ),
            CompilerTokenizerState::CopyingUnamedArgumentRef(text) => {
                Mode::CopyingUnamedArgumentRef(text@)
            },
            CompilerTokenizerState::CopyingSkipLast(text) => Mode::CopyingSkipLast(text@),
            CompilerTokenizerState::CopyingSkipLastEmbed(text) => Mode::CopyingSkipLastEmbed(
                text@,
            ),
            CompilerTokenizerState::SigilFound => Mode::SigilFound,
            CompilerTokenizerState::EmbedFound(text) => Mode::EmbedFound(text@),
        }
    }
}

/// A token as it was written: an indexed reference keeps its digits.
pub enum Lexeme {
    Raw(Seq<char>),
    NamedArgumentRef(Seq<char>),
    UnamedArgumentRef(Seq<char>),
    Position,
    SkipLast(Seq<char>),
}

/// The lexemes read so far and the state the lexer is in.
pub struct Scan {
    pub lexemes: Seq<Lexeme>,
    pub mode: Mode,
}

/// The lexer before the first character.
pub open spec fn initial_scan() -> Scan {
    Scan { lexemes: Seq::empty(), mode: Mode::Copying(Seq::empty()) }
}

/// The lexemes with the literal text read so far added, if there is any.
pub open spec fn flush(lexemes: Seq<Lexeme>, text: Seq<char>) -> Seq<Lexeme> {
    if text.len() > 0 {
        lexemes.push(Lexeme::Raw(text))
    } else {
        lexemes
    }
}

/// One character read.
pub open spec fn step(scan: Scan, ch: char) -> Result<Scan, ErrorKind> {
    let sigil = CompilerSigil::classify(ch);
    let lexemes = scan.lexemes;
    match scan.mode {
        Mode::Copying(text) => match sigil {
            CompilerSigil::TokenStart => Ok(
                Scan { lexemes: flush(lexemes, text), mode: Mode::SigilFound },
            ),
            CompilerSigil::TokenEmbed => Ok(Scan { lexemes, mode: Mode::EmbedFound(text) }),
            _ => Ok(Scan { lexemes, mode: Mode::Copying(text.push(ch)) }),
        },
        Mode::EmbedFound(text) => match sigil {
            CompilerSigil::TokenStart | CompilerSigil::TokenEmbed => Ok(
                Scan { lexemes, mode: Mode::Copying(text.push(ch)) },
            ),
            _ => Err(ErrorKind::IllegalSymbol),
        },
        Mode::SigilFound => match sigil {
            CompilerSigil::PositionDot => Ok(
                Scan {
                    lexemes: lexemes.push(Lexeme::Position),
                    mode: Mode::Copying(Seq::empty()),
                },
            ),
            CompilerSigil::NamedArgumentRefOpen => Ok(
                Scan { lexemes, mode: Mode::CopyingNamedArgumentRef(Seq::empty()) },
            ),
            CompilerSigil::UnamedArgumentRefOpen => Ok(
                Scan { lexemes, mode: Mode::CopyingUnamedArgumentRef(Seq::empty()) },
            ),
            CompilerSigil::SkipLastOpen => Ok(
                Scan { lexemes, mode: Mode::CopyingSkipLast(Seq::empty()) },
            ),
            _ => Err(ErrorKind::IllegalSymbol),
        },
        Mode::CopyingNamedArgumentRef(name) => match sigil {
            CompilerSigil::NamedArgumentRefClose => if name.len() == 0 {
                Err(ErrorKind::EmptyReference)
            } else {
                Ok(
                    Scan {
                        lexemes: lexemes.push(Lexeme::NamedArgumentRef(name)),
                        mode: Mode::Copying(Seq::empty()),
                    },
                )
            },
            CompilerSigil::PositionDot | CompilerSigil::Non(_) => Ok(
                Scan { lexemes, mode: Mode::CopyingNamedArgumentRef(name.push(ch)) },
            ),
            _ => Err(ErrorKind::IllegalSymbol),
        },
        Mode::CopyingUnamedArgumentRef(digits) => match sigil {
            CompilerSigil::UnamedArgumentRefClose => if digits.len() == 0 {
                Err(ErrorKind::EmptyReference)
            } else if parse_index(digits) is None {
                Err(ErrorKind::InvalidReference)
            } else {
                Ok(
                    Scan {
                        lexemes: lexemes.push(Lexeme::UnamedArgumentRef(digits)),
                        mode: Mode::Copying(Seq::empty()),
                    },
                )
            },
            CompilerSigil::PositionDot | CompilerSigil::Non(_) => Ok(
                Scan { lexemes, mode: Mode::CopyingUnamedArgumentRef(digits.push(ch)) },
            ),
            _ => Err(ErrorKind::IllegalSymbol),
        },
        Mode::CopyingSkipLast(text) => match sigil {
            CompilerSigil::SkipLastClose => if text.len() == 0 {
                Err(ErrorKind::EmptyReference)
            } else {
                Ok(
                    Scan {
                        lexemes: lexemes.push(Lexeme::SkipLast(text)),
                        mode: Mode::Copying(Seq::empty()),
                    },
                )
            },
            CompilerSigil::TokenEmbed => Ok(Scan { lexemes, mode: Mode::CopyingSkipLastEmbed(text) }),
            _ => Ok(Scan { lexemes, mode: Mode::CopyingSkipLast(text.push(ch)) }),
        },
        Mode::CopyingSkipLastEmbed(text) => match sigil {
            CompilerSigil::SkipLastClose | CompilerSigil::TokenEmbed => Ok(
                Scan { lexemes, mode: Mode::CopyingSkipLast(text.push(ch)) },
            ),
            _ => Err(ErrorKind::IllegalSymbol),
        },
    }
}

/// The lexer behind the first `n` characters of a text, or the kind and
/// the position of the first failure among them.
pub open spec fn scan_prefix(s: Seq<char>, n: nat) -> Result<Scan, (ErrorKind, nat)>
    decreases n,
{
    if n == 0 {
        Ok(initial_scan())
    } else {
        match scan_prefix(s, (n - 1) as nat) {
            Err(failure) => Err(failure),
            Ok(scan) => match step(scan, s[n - 1]) {
                Ok(next) => Ok(next),
                Err(kind) => Err((kind, (n - 1) as nat)),
            },
        }
    }
}

/// The end of the input: literal text is flushed, anything else is an
/// unterminated construct.
pub open spec fn finish(scan: Scan) -> Result<Seq<Lexeme>, ErrorKind> {
    match scan.mode {
        Mode::Copying(text) => Ok(flush(scan.lexemes, text)),
        _ => Err(ErrorKind::InvalidToken),
    }
}

/// The lexemes of a template string, or the kind and the position of the
/// first failure.  A failure at the end of the input has the length of the
/// input as its position.
pub open spec fn lex(s: Seq<char>) -> Result<Seq<Lexeme>, (ErrorKind, nat)> {
    match scan_prefix(s, s.len()) {
        Err(failure) => Err(failure),
        Ok(scan) => match finish(scan) {
            Ok(lexemes) => Ok(lexemes),
            Err(kind) => Err((kind, s.len())),
        },
    }
}

/// The token that a lexeme stands for.
pub open spec fn token_of(lexeme: Lexeme) -> TemplateToken {
    match lexeme {
        Lexeme::Raw(text) => TemplateToken::Raw(text),
        Lexeme::NamedArgumentRef(name) => TemplateToken::NamedArgumentRef(name),
        Lexeme::UnamedArgumentRef(digits) => TemplateToken::UnamedArgumentRef(
            match parse_index(digits) {
                Some(index) => index,
                None => 0,
            },
        ),
        Lexeme::Position => TemplateToken::Position,
        Lexeme::SkipLast(text) => TemplateToken::SkipLast(text),
    }
}

/// The tokens that a sequence of lexemes stands for.
pub open spec fn tokens_of(lexemes: Seq<Lexeme>) -> Seq<TemplateToken> {
    Seq::new(lexemes.len(), |i: int| token_of(lexemes[i]))
}

/// The tokens of a template string, or the kind and the position of the
/// first failure.
pub open spec fn tokenize_spec(s: Seq<char>) -> Result<Seq<TemplateToken>, (ErrorKind, nat)> {
    match lex(s) {
        Ok(lexemes) => Ok(tokens_of(lexemes)),
        Err(failure) => Err(failure),
    }
}

/// Whether no literal text among the tokens is empty and no two pieces of
/// literal text are neighbours.
pub open spec fn coalesced(tokens: Seq<TemplateToken>) -> bool {
    &&& forall|i: int|
        0 <= i < tokens.len() ==> (#[trigger] tokens[i] matches TemplateToken::Raw(text)
            ==> text.len() > 0)
    &&& forall|i: int|
        0 <= i < tokens.len() - 1 ==> !((#[trigger] tokens[i]) is Raw && tokens[i + 1] is Raw)
}

spec fn tidy(scan: Scan) -> bool {
    &&& forall|i: int|
        0 <= i < scan.lexemes.len() ==> (#[trigger] scan.lexemes[i] matches Lexeme::Raw(text)
            ==> text.len() > 0)
    &&& forall|i: int|
        0 <= i < scan.lexemes.len() - 1 ==> !((#[trigger] scan.lexemes[i]) is Raw
            && scan.lexemes[i + 1] is Raw)
    &&& (scan.mode is Copying || scan.mode is EmbedFound) ==> (scan.lexemes.len() == 0
        || !(scan.lexemes.last() is Raw))
}

proof fn lemma_step_tidy(scan: Scan, ch: char)
    requires
        tidy(scan),
        step(scan, ch) is Ok,
    ensures
        tidy(step(scan, ch)->Ok_0),
{
}

proof fn lemma_scan_tidy(s: Seq<char>, n: nat)
    requires
        scan_prefix(s, n) is Ok,
    ensures
        tidy(scan_prefix(s, n)->Ok_0),
    decreases n,
{
    if n > 0 {
        lemma_scan_tidy(s, (n - 1) as nat);
        lemma_step_tidy(scan_prefix(s, (n - 1) as nat)->Ok_0, s[n - 1]);
    }
}

/// The lexer never emits empty literal text, and it emits neighbouring
/// literal text as one token.
pub proof fn lemma_tokenize_coalesced(s: Seq<char>)
    requires
        tokenize_spec(s) is Ok,
    ensures
        coalesced(tokenize_spec(s)->Ok_0),
{
    lemma_scan_tidy(s, s.len());
    let lexemes = lex(s)->Ok_0;
    let tokens = tokens_of(lexemes);
    assert forall|i: int| 0 <= i < tokens.len() implies (#[trigger] tokens[i] matches TemplateToken::Raw(
        text,
    ) ==> text.len() > 0) by {
        assert(tokens[i] == token_of(lexemes[i]));
    }
    assert forall|i: int| 0 <= i < tokens.len() - 1 implies !((#[trigger] tokens[i]) is Raw
        && tokens[i + 1] is Raw) by {
        assert(tokens[i] == token_of(lexemes[i]));
        assert(tokens[i + 1] == token_of(lexemes[i + 1]));
    }
}

proof fn lemma_tokens_of_push(lexemes: Seq<Lexeme>, lexeme: Lexeme)
    ensures
        tokens_of(lexemes.push(lexeme)) == tokens_of(lexemes).push(token_of(lexeme)),
{
    assert(tokens_of(lexemes.push(lexeme)) =~= tokens_of(lexemes).push(token_of(lexeme)));
}

proof fn lemma_token_views_push(before: Seq<CompilerToken>, token: CompilerToken)
    ensures
        token_views(before.push(token)) == token_views(before).push(token@),
{
    assert(token_views(before.push(token)) =~= token_views(before).push(token@));
}

fn push_token(
    parts: &mut Vec<CompilerToken>,
    token: CompilerToken,
    Ghost(lexemes): Ghost<Seq<Lexeme>>,
    Ghost(lexeme): Ghost<Lexeme>,
)
    requires
        token_views(old(parts)@) == tokens_of(lexemes),
        token@ == token_of(lexeme),
    ensures
        token_views(final(parts)@) == tokens_of(lexemes.push(lexeme)),
{
    let ghost before = parts@;
    parts.push(token);
    proof {
        lemma_token_views_push(before, token);
        lemma_tokens_of_push(lexemes, lexeme);
    }
}

fn flush_text(parts: &mut Vec<CompilerToken>, text: String, Ghost(lexemes): Ghost<Seq<Lexeme>>)
    requires
        token_views(old(parts)@) == tokens_of(lexemes),
    ensures
        token_views(final(parts)@) == tokens_of(flush(lexemes, text@)),
{
    if !text.as_str().is_empty() {
        let ghost lexeme = Lexeme::Raw(text@);
        push_token(parts, CompilerToken::Raw(text), Ghost(lexemes), Ghost(lexeme));
    }
}

fn advance(
    state: CompilerTokenizerState,
    parts: &mut Vec<CompilerToken>,
    ch: char,
    Ghost(scan): Ghost<Scan>,
) -> (next: Result<CompilerTokenizerState, ErrorKind>)
    requires
        state@ == scan.mode,
        token_views(old(parts)@) == tokens_of(scan.lexemes),
    ensures
        match next {
            Ok(state_after) => step(scan, ch) matches Ok(after) && state_after@ == after.mode
                && token_views(final(parts)@) == tokens_of(after.lexemes),
            Err(kind) => step(scan, ch) == Err::<Scan, ErrorKind>(kind),
        },
{
    let sigil = CompilerSigil::from(ch);
    match state {
        CompilerTokenizerState::Copying(mut text) => match sigil {
            CompilerSigil::TokenStart => {
                flush_text(parts, text, Ghost(scan.lexemes));
                Ok(CompilerTokenizerState::SigilFound)
            },
            CompilerSigil::TokenEmbed => Ok(CompilerTokenizerState::EmbedFound(text)),
            _ => {
                text.push(ch);
                Ok(CompilerTokenizerState::Copying(text))
            },
        },
        CompilerTokenizerState::EmbedFound(mut text) => match sigil {
            CompilerSigil::TokenStart | CompilerSigil::TokenEmbed => {
                text.push(ch);
                Ok(CompilerTokenizerState::Copying(text))
            },
            _ => Err(ErrorKind::IllegalSymbol),
        },
        CompilerTokenizerState::SigilFound => match sigil {
            CompilerSigil::PositionDot => {
                push_token(
                    parts,
                    CompilerToken::Position,
                    Ghost(scan.lexemes),
                    Ghost(Lexeme::Position),
                );
                Ok(CompilerTokenizerState::Copying(String::new()))
            },
            CompilerSigil::NamedArgumentRefOpen => Ok(
                CompilerTokenizerState::CopyingNamedArgumentRef(String::new()),
            ),
            CompilerSigil::UnamedArgumentRefOpen => Ok(
                CompilerTokenizerState::CopyingUnamedArgumentRef(String::new()),
            ),
            CompilerSigil::SkipLastOpen => Ok(
                CompilerTokenizerState::CopyingSkipLast(String::new()),
            ),
            _ => Err(ErrorKind::IllegalSymbol),
        },
        CompilerTokenizerState::CopyingNamedArgumentRef(mut name) => match sigil {
            CompilerSigil::NamedArgumentRefClose => {
                if name.as_str().is_empty() {
                    Err(ErrorKind::EmptyReference)
                } else {
                    let ghost lexeme = Lexeme::NamedArgumentRef(name@);
                    push_token(
                        parts,
                        CompilerToken::NamedArgumentRef(name),
                        Ghost(scan.lexemes),
                        Ghost(lexeme),
                    );
                    Ok(CompilerTokenizerState::Copying(String::new()))
                }
            },
            CompilerSigil::PositionDot | CompilerSigil::Non(_) => {
                name.push(ch);
                Ok(CompilerTokenizerState::CopyingNamedArgumentRef(name))
            },
            _ => Err(ErrorKind::IllegalSymbol),
        },
        CompilerTokenizerState::CopyingUnamedArgumentRef(mut digits) => match sigil {
            CompilerSigil::UnamedArgumentRefClose => {
                if digits.as_str().is_empty() {
                    Err(ErrorKind::EmptyReference)
                } else {
                    match read_index(digits.as_str()) {
                        None => Err(ErrorKind::InvalidReference),
                        Some(index) => {
                            let ghost lexeme = Lexeme::UnamedArgumentRef(digits@);
                            push_token(
                                parts,
                                CompilerToken::UnamedArgumentRef(index),
                                Ghost(scan.lexemes),
                                Ghost(lexeme),
                            );
                            Ok(CompilerTokenizerState::Copying(String::new()))
                        },
                    }
                }
            },
            CompilerSigil::PositionDot | CompilerSigil::Non(_) => {
                digits.push(ch);
                Ok(CompilerTokenizerState::CopyingUnamedArgumentRef(digits))
            },
            _ => Err(ErrorKind::IllegalSymbol),
        },
        CompilerTokenizerState::CopyingSkipLast(mut text) => match sigil {
            CompilerSigil::SkipLastClose => {
                if text.as_str().is_empty() {
                    Err(ErrorKind::EmptyReference)
                } else {
                    let ghost lexeme = Lexeme::SkipLast(text@);
                    push_token(
                        parts,
                        CompilerToken::SkipLast(text),
                        Ghost(scan.lexemes),
                        Ghost(lexeme),
                    );
                    Ok(CompilerTokenizerState::Copying(String::new()))
                }
            },
            CompilerSigil::TokenEmbed => Ok(CompilerTokenizerState::CopyingSkipLastEmbed(text)),
            _ => {
                text.push(ch);
                Ok(CompilerTokenizerState::CopyingSkipLast(text))
            },
        },
        CompilerTokenizerState::CopyingSkipLastEmbed(mut text) => match sigil {
            CompilerSigil::SkipLastClose | CompilerSigil::TokenEmbed => {
                text.push(ch);
                Ok(CompilerTokenizerState::CopyingSkipLast(text))
            },
            _ => Err(ErrorKind::IllegalSymbol),
        },
    }
}

impl CompilerToken {
    /// Splits a template string into its tokens.
    ///
    /// Succeeds exactly on the strings that the grammar accepts; the error
    /// of any other string has the kind and the position of the first
    /// failure.  Literal text is never empty, and neighbouring literal text
    /// is one token.
    pub fn tokenize(s: &str) -> (result: Result<Vec<CompilerToken>, Error>)
        ensures
            match result {
                Ok(tokens) => tokenize_spec(s@) == Ok::<Seq<TemplateToken>, (ErrorKind, nat)>(
                    token_views(tokens@),
                ) && coalesced(token_views(tokens@)),
                Err(e) => tokenize_spec(s@) == Err::<Seq<TemplateToken>, (ErrorKind, nat)>(
                    (e.kind, e.index as nat),
                ) && e@ == Failure::at(e.kind, s@, e.index as nat),
            },
    {
        let chars = chars_of(s);
        let mut parts: Vec<CompilerToken> = Vec::new();
        let mut state = CompilerTokenizerState::Copying(String::new());
        let ghost mut scan = initial_scan();
        let mut i: usize = 0;
        assert(token_views(parts@) =~= tokens_of(scan.lexemes));
        while i < chars.len()
            invariant
                0 <= i <= chars.len(),
                chars@ == s@,
                scan_prefix(s@, i as nat) == Ok::<Scan, (ErrorKind, nat)>(scan),
                state@ == scan.mode,
                token_views(parts@) == tokens_of(scan.lexemes),
            decreases chars.len() - i,
        {
            match advance(state, &mut parts, chars[i], Ghost(scan)) {
                Err(kind) => {
                    proof {
                        lemma_scan_prefix_failure(s@, (i + 1) as nat, s@.len());
                    }
                    return Err(Error::at(kind, s, i));
                },
                Ok(next) => {
                    state = next;
                    proof {
                        scan = step(scan, chars@[i as int])->Ok_0;
                    }
                },
            }
            i = i + 1;
        }
        match state {
            CompilerTokenizerState::Copying(text) => {
                flush_text(&mut parts, text, Ghost(scan.lexemes));
                proof {
                    lemma_tokenize_coalesced(s@);
                }
                Ok(parts)
            },
            _ => Err(Error::at(ErrorKind::InvalidToken, s, i)),
        }
    }
}

/// One character of literal text as it is written: behind an embed
/// character if it is the embed character itself or `special`.
pub open spec fn escape_char(ch: char, special: char) -> Seq<char> {
    if ch == '\\' || ch == special {
        seq!['\\', ch]
    } else {
        seq![ch]
    }
}

/// Literal text as it is written, each character by `escape_char`.
pub open spec fn escape(text: Seq<char>, special: char) -> Seq<char>
    decreases text.len(),
{
    if text.len() == 0 {
        Seq::empty()
    } else {
        escape(text.drop_last(), special) + escape_char(text.last(), special)
    }
}

/// A token as it is written in a template string.
pub open spec fn untokenize_spec(token: TemplateToken) -> Seq<char> {
    match token {
        TemplateToken::Raw(text) => escape(text, '$'),
        TemplateToken::Position => seq!['$', '.'],
        TemplateToken::NamedArgumentRef(name) => seq!['$', '{'] + name + seq!['}'],
        TemplateToken::UnamedArgumentRef(index) => seq!['$', '('] + decimal(index) + seq![')'],
        TemplateToken::SkipLast(text) => seq!['$', '['] + escape(text, ']') + seq![']'],
    }
}

/// The tokens of a sequence as they are written, one after the other.
pub open spec fn untokenize_all(tokens: Seq<TemplateToken>) -> Seq<char>
    decreases tokens.len(),
{
    if tokens.len() == 0 {
        Seq::empty()
    } else {
        untokenize_all(tokens.drop_last()) + untokenize_spec(tokens.last())
    }
}

/// A token outside a repeat body: only literal text and named references
/// keep their meaning, every other token is the literal text it was
/// written as.
pub open spec fn surface_of(token: TemplateToken) -> TemplateToken {
    match token {
        TemplateToken::Raw(_) => token,
        TemplateToken::NamedArgumentRef(_) => token,
        _ => TemplateToken::Raw(untokenize_spec(token)),
    }
}

/// The tokens of a template string that is no repeat body.
pub open spec fn tokenize_surface_spec(s: Seq<char>) -> Result<
    Seq<TemplateToken>,
    (ErrorKind, nat),
> {
    match tokenize_spec(s) {
        Ok(tokens) => Ok(Seq::new(tokens.len(), |i: int| surface_of(tokens[i]))),
        Err(failure) => Err(failure),
    }
}

fn push_escaped(out: &mut String, text: &str, special: char)
    ensures
        final(out)@ == old(out)@ + escape(text@, special),
{
    let chars = chars_of(text);
    let mut i: usize = 0;
    while i < chars.len()
        invariant
            0 <= i <= chars.len(),
            chars@ == text@,
            out@ == old(out)@ + escape(text@.take(i as int), special),
        decreases chars.len() - i,
    {
        let ch = chars[i];
        proof {
            assert(text@.take(i + 1).drop_last() =~= text@.take(i as int));
        }
        if ch == '\\' || ch == special {
            out.push('\\');
        }
        out.push(ch);
        assert(out@ =~= old(out)@ + escape(text@.take(i + 1), special));
        i = i + 1;
    }
    assert(text@.take(chars.len() as int) =~= text@);
}

impl CompilerToken {
    /// The token as it is written in a template string.
    pub fn untokenize(&self) -> (text: String)
        ensures
            text@ == untokenize_spec(self@),
    {
        let mut text = String::new();
        match self {
            CompilerToken::Raw(value) => {
                push_escaped(&mut text, value.as_str(), CompilerSigil::TokenStart.symbol());
            },
            CompilerToken::Position => {
                text.push(CompilerSigil::TokenStart.symbol());
                text.push(CompilerSigil::PositionDot.symbol());
            },
            CompilerToken::NamedArgumentRef(value) => {
                text.push(CompilerSigil::TokenStart.symbol());
                text.push(CompilerSigil::NamedArgumentRefOpen.symbol());
                text.append(value.as_str());
                text.push(CompilerSigil::NamedArgumentRefClose.symbol());
            },
            CompilerToken::UnamedArgumentRef(value) => {
                text.push(CompilerSigil::TokenStart.symbol());
                text.push(CompilerSigil::UnamedArgumentRefOpen.symbol());
                push_decimal(&mut text, *value as u128);
                text.push(CompilerSigil::UnamedArgumentRefClose.symbol());
            },
            CompilerToken::SkipLast(value) => {
                text.push(CompilerSigil::TokenStart.symbol());
                text.push(CompilerSigil::SkipLastOpen.symbol());
                push_escaped(&mut text, value.as_str(), CompilerSigil::SkipLastClose.symbol());
                text.push(CompilerSigil::SkipLastClose.symbol());
            },
        }
        assert(text@ =~= untokenize_spec(self@));
        text
    }

    /// Splits a template string that is no repeat body into its tokens:
    /// literal text and named references.
    pub fn tokenize_surface(s: &str) -> (result: Result<Vec<CompilerToken>, Error>)
        ensures
            match result {
                Ok(tokens) => tokenize_surface_spec(s@) == Ok::<
                    Seq<TemplateToken>,
                    (ErrorKind, nat),
                >(token_views(tokens@)),
                Err(e) => tokenize_surface_spec(s@) == Err::<Seq<TemplateToken>, (ErrorKind, nat)>(
                    (e.kind, e.index as nat),
                ) && e@ == Failure::at(e.kind, s@, e.index as nat),
            },
    {
        let tokens = match CompilerToken::tokenize(s) {
            Ok(tokens) => tokens,
            Err(e) => {
                return Err(e);
            },
        };
        let mut surface: Vec<CompilerToken> = Vec::new();
        let mut i: usize = 0;
        while i < tokens.len()
            invariant
                0 <= i <= tokens.len(),
                surface@.len() == i,
                forall|k: int| 0 <= k < i ==> (#[trigger] surface@[k])@ == surface_of(tokens@[k]@),
            decreases tokens.len() - i,
        {
            let token = match &tokens[i] {
                CompilerToken::Raw(value) => CompilerToken::Raw(value.clone()),
                CompilerToken::NamedArgumentRef(value) => CompilerToken::NamedArgumentRef(
                    value.clone(),
                ),
                other => CompilerToken::Raw(other.untokenize()),
            };
            surface.push(token);
            i = i + 1;
        }
        assert(token_views(surface@) =~= Seq::new(
            token_views(tokens@).len(),
            |i: int| surface_of(token_views(tokens@)[i]),
        ));
        Ok(surface)
    }
}

/// A lexeme as it is written in a template string.
pub open spec fn unlex(lexeme: Lexeme) -> Seq<char> {
    match lexeme {
        Lexeme::Raw(text) => escape(text, '$'),
        Lexeme::Position => seq!['$', '.'],
        Lexeme::NamedArgumentRef(name) => seq!['$', '{'] + name + seq!['}'],
        Lexeme::UnamedArgumentRef(digits) => seq!['$', '('] + digits + seq![')'],
        Lexeme::SkipLast(text) => seq!['$', '['] + escape(text, ']') + seq![']'],
    }
}

/// The lexemes of a sequence as they are written, one after the other.
pub open spec fn unlex_all(lexemes: Seq<Lexeme>) -> Seq<char>
    decreases lexemes.len(),
{
    if lexemes.len() == 0 {
        Seq::empty()
    } else {
        unlex_all(lexemes.drop_last()) + unlex(lexemes.last())
    }
}

/// What has been read of the construct that the lexer is in.
pub open spec fn pending(mode: Mode) -> Seq<char> {
    match mode {
        Mode::Copying(text) => escape(text, '$'),
        Mode::EmbedFound(text) => escape(text, '$') + seq!['\\'],
        Mode::SigilFound => seq!['$'],
        Mode::CopyingNamedArgumentRef(name) => seq!['$', '{'] + name,
        Mode::CopyingUnamedArgumentRef(digits) => seq!['$', '('] + digits,
        Mode::CopyingSkipLast(text) => seq!['$', '['] + escape(text, ']'),
        Mode::CopyingSkipLastEmbed(text) => seq!['$', '['] + escape(text, ']') + seq!['\\'],
    }
}

/// Whether an index is written as `decimal` writes it: without a sign and
/// without leading zeros.
pub open spec fn canonical_index(digits: Seq<char>) -> bool {
    match parse_index(digits) {
        Some(index) => decimal(index) == digits,
        None => false,
    }
}

/// Whether every indexed reference among the lexemes is written as
/// `decimal` writes it.
pub open spec fn canonical_indices(lexemes: Seq<Lexeme>) -> bool {
    forall|i: int|
        0 <= i < lexemes.len() ==> (#[trigger] lexemes[i] matches Lexeme::UnamedArgumentRef(digits)
            ==> canonical_index(digits))
}

proof fn lemma_escape_push(text: Seq<char>, ch: char, special: char)
    ensures
        escape(text.push(ch), special) == escape(text, special) + escape_char(ch, special),
{
    assert(text.push(ch).drop_last() =~= text);
}

proof fn lemma_unlex_all_push(lexemes: Seq<Lexeme>, lexeme: Lexeme)
    ensures
        unlex_all(lexemes.push(lexeme)) == unlex_all(lexemes) + unlex(lexeme),
{
    assert(lexemes.push(lexeme).drop_last() =~= lexemes);
}

proof fn lemma_unlex_all_flush(lexemes: Seq<Lexeme>, text: Seq<char>)
    ensures
        unlex_all(flush(lexemes, text)) == unlex_all(lexemes) + escape(text, '$'),
{
    if text.len() > 0 {
        lemma_unlex_all_push(lexemes, Lexeme::Raw(text));
    } else {
        assert(unlex_all(lexemes) + escape(text, '$') =~= unlex_all(lexemes));
    }
}

proof fn lemma_step_round_trip(scan: Scan, ch: char)
    requires
        step(scan, ch) is Ok,
    ensures
        ({
            let after = step(scan, ch)->Ok_0;
            unlex_all(after.lexemes) + pending(after.mode) == (unlex_all(scan.lexemes) + pending(
                scan.mode,
            )).push(ch)
        }),
{
    let after = step(scan, ch)->Ok_0;
    let done = unlex_all(scan.lexemes);
    let goal = (done + pending(scan.mode)).push(ch);
    let sigil = CompilerSigil::classify(ch);
    match scan.mode {
        Mode::Copying(text) => {
            lemma_escape_push(text, ch, '$');
            lemma_unlex_all_flush(scan.lexemes, text);
            assert(unlex_all(after.lexemes) + pending(after.mode) =~= goal);
        },
        Mode::EmbedFound(text) => {
            lemma_escape_push(text, ch, '$');
            assert(unlex_all(after.lexemes) + pending(after.mode) =~= goal);
        },
        Mode::SigilFound => {
            if sigil == CompilerSigil::PositionDot {
                lemma_unlex_all_push(scan.lexemes, Lexeme::Position);
            }
            assert(escape(Seq::<char>::empty(), '$') =~= Seq::<char>::empty());
            assert(escape(Seq::<char>::empty(), ']') =~= Seq::<char>::empty());
            assert(unlex_all(after.lexemes) + pending(after.mode) =~= goal);
        },
        Mode::CopyingNamedArgumentRef(name) => {
            if sigil == CompilerSigil::NamedArgumentRefClose {
                lemma_unlex_all_push(scan.lexemes, Lexeme::NamedArgumentRef(name));
            }
            assert(escape(Seq::<char>::empty(), '$') =~= Seq::<char>::empty());
            assert(unlex_all(after.lexemes) + pending(after.mode) =~= goal);
        },
        Mode::CopyingUnamedArgumentRef(digits) => {
            if sigil == CompilerSigil::UnamedArgumentRefClose {
                lemma_unlex_all_push(scan.lexemes, Lexeme::UnamedArgumentRef(digits));
            }
            assert(escape(Seq::<char>::empty(), '$') =~= Seq::<char>::empty());
            assert(unlex_all(after.lexemes) + pending(after.mode) =~= goal);
        },
        Mode::CopyingSkipLast(text) => {
            if sigil == CompilerSigil::SkipLastClose {
                lemma_unlex_all_push(scan.lexemes, Lexeme::SkipLast(text));
            }
            lemma_escape_push(text, ch, ']');
            assert(escape(Seq::<char>::empty(), '$') =~= Seq::<char>::empty());
            assert(unlex_all(after.lexemes) + pending(after.mode) =~= goal);
        },
        Mode::CopyingSkipLastEmbed(text) => {
            lemma_escape_push(text, ch, ']');
            assert(unlex_all(after.lexemes) + pending(after.mode) =~= goal);
        },
    }
}

/// What the lexer has read of a prefix, written out again, is that prefix.
pub proof fn lemma_scan_round_trip(s: Seq<char>, n: nat)
    requires
        n <= s.len(),
        scan_prefix(s, n) is Ok,
    ensures
        ({
            let scan = scan_prefix(s, n)->Ok_0;
            unlex_all(scan.lexemes) + pending(scan.mode) == s.take(n as int)
        }),
    decreases n,
{
    if n == 0 {
        assert(escape(Seq::<char>::empty(), '$') =~= Seq::<char>::empty());
        assert(unlex_all(Seq::<Lexeme>::empty()) + pending(initial_scan().mode) =~= s.take(0));
    } else {
        lemma_scan_round_trip(s, (n - 1) as nat);
        let before = scan_prefix(s, (n - 1) as nat)->Ok_0;
        lemma_step_round_trip(before, s[n - 1]);
        assert(s.take(n - 1).push(s[n - 1]) =~= s.take(n as int));
    }
}

/// The lexemes of a string that the grammar accepts, written out again one
/// after the other, are that string.
pub proof fn lemma_unlex_lex(s: Seq<char>)
    requires
        lex(s) is Ok,
    ensures
        unlex_all(lex(s)->Ok_0) == s,
{
    lemma_scan_round_trip(s, s.len());
    let scan = scan_prefix(s, s.len())->Ok_0;
    match scan.mode {
        Mode::Copying(text) => {
            lemma_unlex_all_flush(scan.lexemes, text);
        },
        _ => {},
    }
    assert(s.take(s.len() as int) =~= s);
}

/// Lexemes whose indices are written as `decimal` writes them are written
/// as their tokens are.
pub proof fn lemma_untokenize_all_canonical(lexemes: Seq<Lexeme>)
    requires
        canonical_indices(lexemes),
    ensures
        untokenize_all(tokens_of(lexemes)) == unlex_all(lexemes),
    decreases lexemes.len(),
{
    if lexemes.len() > 0 {
        let front = lexemes.drop_last();
        assert forall|i: int| 0 <= i < front.len() implies (#[trigger] front[i] matches Lexeme::UnamedArgumentRef(
            digits,
        ) ==> canonical_index(digits)) by {
            assert(front[i] == lexemes[i]);
        }
        lemma_untokenize_all_canonical(front);
        assert(tokens_of(lexemes).drop_last() =~= tokens_of(front));
        assert(tokens_of(lexemes).last() == token_of(lexemes.last()));
        let last = lexemes[lexemes.len() - 1];
        assert(untokenize_spec(token_of(last)) == unlex(last));
    }
}

/// Tokenizing and untokenizing give the string back.
///
/// This holds of every string that the grammar accepts and whose indexed
/// references are written without a sign and without leading zeros: an
/// index is kept as a number, and a number is written in one way only.
pub proof fn lemma_untokenize_tokenize(s: Seq<char>)
    requires
        lex(s) is Ok,
        canonical_indices(lex(s)->Ok_0),
    ensures
        tokenize_spec(s) is Ok,
        untokenize_all(tokenize_spec(s)->Ok_0) == s,
{
    lemma_unlex_lex(s);
    lemma_untokenize_all_canonical(lex(s)->Ok_0);
}

/// Once a prefix has failed, every longer prefix fails in the same way.
pub proof fn lemma_scan_prefix_failure(s: Seq<char>, n: nat, m: nat)
    requires
        n <= m,
        scan_prefix(s, n) is Err,
    ensures
        scan_prefix(s, m) == scan_prefix(s, n),
    decreases m,
{
    if n < m {
        lemma_scan_prefix_failure(s, n, (m - 1) as nat);
    }
}

} // verus!
