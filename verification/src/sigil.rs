//! The two sigil classifiers: one character in, one role out.

use vstd::prelude::*;
use vstd::std_specs::convert::FromSpecImpl;

verus! {

/// The roles of the reference grammar.
#[derive(Debug, Clone, Copy, PartialEq, Eq, Hash, Structural)]
pub enum PreprocessorSigil {
    /// An ordinary character.
    Non(char),
    TokenStart,
    TokenEmbed,
    KeyRefOpen,
    KeyRefClose,
}

/// The roles of the template grammar.
#[derive(Debug, Clone, Copy, PartialEq, Eq, Hash, Structural)]
pub enum CompilerSigil {
    /// An ordinary character.
    Non(char),
    TokenStart,
    TokenEmbed,
    PositionDot,
    NamedArgumentRefOpen,
    NamedArgumentRefClose,
    UnamedArgumentRefOpen,
    UnamedArgumentRefClose,
    SkipLastOpen,
    SkipLastClose,
}

impl PreprocessorSigil {
    /// The role of a character in the reference grammar.
    pub open spec fn classify(value: char) -> PreprocessorSigil {
        match value {
            '@' => PreprocessorSigil::TokenStart,
            '\\' => PreprocessorSigil::TokenEmbed,
            '{' => PreprocessorSigil::KeyRefOpen,
            '}' => PreprocessorSigil::KeyRefClose,
            _ => PreprocessorSigil::Non(value),
        }
    }

    /// The character that a role is written with.
    pub open spec fn symbol_of(self) -> char {
        match self {
            PreprocessorSigil::Non(value) => value,
            PreprocessorSigil::TokenStart => '@',
            PreprocessorSigil::TokenEmbed => '\\',
            PreprocessorSigil::KeyRefOpen => '{',
            PreprocessorSigil::KeyRefClose => '}',
        }
    }

    /// The character that this role is written with.
    pub fn symbol(&self) -> (ch: char)
        ensures
            ch == self.symbol_of(),
    {
        match self {
            PreprocessorSigil::Non(value) => *value,
            PreprocessorSigil::TokenStart => '@',
            PreprocessorSigil::TokenEmbed => '\\',
            PreprocessorSigil::KeyRefOpen => '{',
            PreprocessorSigil::KeyRefClose => '}',
        }
    }

    /// Two characters with the same role are the same character.
    pub proof fn lemma_classify_injective(a: char, b: char)
        requires
            Self::classify(a) == Self::classify(b),
        ensures
            a == b,
    {
    }

    /// A character is what its role is written with, and no role but
    /// `Non` is ever written with an ordinary character.
    pub proof fn lemma_symbol_of_classify(value: char)
        ensures
            Self::classify(value).symbol_of() == value,
            Self::classify(value) matches PreprocessorSigil::Non(inner) ==> inner == value,
    {
    }
}

impl From<char> for PreprocessorSigil {
    fn from(value: char) -> (sigil: PreprocessorSigil) {
        match value {
            '@' => PreprocessorSigil::TokenStart,
            '\\' => PreprocessorSigil::TokenEmbed,
            '{' => PreprocessorSigil::KeyRefOpen,
            '}' => PreprocessorSigil::KeyRefClose,
            _ => PreprocessorSigil::Non(value),
        }
    }
}

impl FromSpecImpl<char> for PreprocessorSigil {
    open spec fn obeys_from_spec() -> bool {
        true
    }

    open spec fn from_spec(value: char) -> PreprocessorSigil {
        PreprocessorSigil::classify(value)
    }
}

impl CompilerSigil {
    /// The role of a character in the template grammar.
    pub open spec fn classify(value: char) -> CompilerSigil {
        match value {
            '$' => CompilerSigil::TokenStart,
            '\\' => CompilerSigil::TokenEmbed,
            '.' => CompilerSigil::PositionDot,
            '{' => CompilerSigil::NamedArgumentRefOpen,
            '}' => CompilerSigil::NamedArgumentRefClose,
            '(' => CompilerSigil::UnamedArgumentRefOpen,
            ')' => CompilerSigil::UnamedArgumentRefClose,
            '[' => CompilerSigil::SkipLastOpen,
            ']' => CompilerSigil::SkipLastClose,
            _ => CompilerSigil::Non(value),
        }
    }

    /// The character that a role is written with.
    pub open spec fn symbol_of(self) -> char {
        match self {
            CompilerSigil::Non(value) => value,
            CompilerSigil::TokenStart => '$',
            CompilerSigil::TokenEmbed => '\\',
            CompilerSigil::PositionDot => '.',
            CompilerSigil::NamedArgumentRefOpen => '{',
            CompilerSigil::NamedArgumentRefClose => '}',
            CompilerSigil::UnamedArgumentRefOpen => '(',
            CompilerSigil::UnamedArgumentRefClose => ')',
            CompilerSigil::SkipLastOpen => '[',
            CompilerSigil::SkipLastClose => ']',
        }
    }

    /// The character that this role is written with.
    pub fn symbol(&self) -> (ch: char)
        ensures
            ch == self.symbol_of(),
    {
        match self {
            CompilerSigil::Non(value) => *value,
            CompilerSigil::TokenStart => '$',
            CompilerSigil::TokenEmbed => '\\',
            CompilerSigil::PositionDot => '.',
            CompilerSigil::NamedArgumentRefOpen => '{',
            CompilerSigil::NamedArgumentRefClose => '}',
            CompilerSigil::UnamedArgumentRefOpen => '(',
            CompilerSigil::UnamedArgumentRefClose => ')',
            CompilerSigil::SkipLastOpen => '[',
            CompilerSigil::SkipLastClose => ']',
        }
    }

    /// Two characters with the same role are the same character.
    pub proof fn lemma_classify_injective(a: char, b: char)
        requires
            Self::classify(a) == Self::classify(b),
        ensures
            a == b,
    {
    }

    /// A character is what its role is written with, and no role but
    /// `Non` is ever written with an ordinary character.
    pub proof fn lemma_symbol_of_classify(value: char)
        ensures
            Self::classify(value).symbol_of() == value,
            Self::classify(value) matches CompilerSigil::Non(inner) ==> inner == value,
    {
    }
}

impl From<char> for CompilerSigil {
    fn from(value: char) -> (sigil: CompilerSigil) {
        match value {
            '$' => CompilerSigil::TokenStart,
            '\\' => CompilerSigil::TokenEmbed,
            '.' => CompilerSigil::PositionDot,
            '{' => CompilerSigil::NamedArgumentRefOpen,
            '}' => CompilerSigil::NamedArgumentRefClose,
            '(' => CompilerSigil::UnamedArgumentRefOpen,
            ')' => CompilerSigil::UnamedArgumentRefClose,
            '[' => CompilerSigil::SkipLastOpen,
            ']' => CompilerSigil::SkipLastClose,
            _ => CompilerSigil::Non(value),
        }
    }
}

impl FromSpecImpl<char> for CompilerSigil {
    open spec fn obeys_from_spec() -> bool {
        true
    }

    open spec fn from_spec(value: char) -> CompilerSigil {
        CompilerSigil::classify(value)
    }
}

} // verus!
