use xmvagen::compiler::token::CompilerToken;
use xmvagen::config::{CommonKeyable, Name, StringWithTags, Tag, Todo};
use xmvagen::preprocessor::token::{preprocessor_string_tokenizer, PreprocessorToken};
use xmvagen::preprocessor::Preprocessable;
use xmvagen::sigil::{CompilerSigil, PreprocessorSigil};
use xmvagen::text::{chars_of, push_decimal, push_joined, read_index};

fn untokenized(tokens: &[CompilerToken]) -> String {
    tokens.iter().map(|token| token.untokenize()).collect::<Vec<String>>().join("")
}

#[test]
fn every_character_has_one_role_in_the_reference_grammar() {
    assert_eq!(PreprocessorSigil::from('@'), PreprocessorSigil::TokenStart);
    assert_eq!(PreprocessorSigil::from('\\'), PreprocessorSigil::TokenEmbed);
    assert_eq!(PreprocessorSigil::from('{'), PreprocessorSigil::KeyRefOpen);
    assert_eq!(PreprocessorSigil::from('}'), PreprocessorSigil::KeyRefClose);
    for ordinary in ['$', '.', '(', ')', '[', ']', 'a', ' ', '\n', 'é', '😍'] {
        assert_eq!(PreprocessorSigil::from(ordinary), PreprocessorSigil::Non(ordinary));
    }
    for sigil in [
        PreprocessorSigil::TokenStart,
        PreprocessorSigil::TokenEmbed,
        PreprocessorSigil::KeyRefOpen,
        PreprocessorSigil::KeyRefClose,
        PreprocessorSigil::Non('x'),
    ] {
        assert_eq!(PreprocessorSigil::from(sigil.symbol()), sigil);
    }
}

#[test]
fn every_character_has_one_role_in_the_template_grammar() {
    let table = [
        ('$', CompilerSigil::TokenStart),
        ('\\', CompilerSigil::TokenEmbed),
        ('.', CompilerSigil::PositionDot),
        ('{', CompilerSigil::NamedArgumentRefOpen),
        ('}', CompilerSigil::NamedArgumentRefClose),
        ('(', CompilerSigil::UnamedArgumentRefOpen),
        (')', CompilerSigil::UnamedArgumentRefClose),
        ('[', CompilerSigil::SkipLastOpen),
        (']', CompilerSigil::SkipLastClose),
    ];
    for (ch, sigil) in table {
        assert_eq!(CompilerSigil::from(ch), sigil);
        assert_eq!(sigil.symbol(), ch);
    }
    for ordinary in ['@', 'a', '0', ' ', '\t', 'Š', '💕'] {
        assert_eq!(CompilerSigil::from(ordinary), CompilerSigil::Non(ordinary));
        assert_eq!(CompilerSigil::Non(ordinary).symbol(), ordinary);
    }
}

#[test]
fn an_index_is_an_optional_plus_and_decimal_digits() {
    assert_eq!(read_index("0"), Some(0));
    assert_eq!(read_index("000"), Some(0));
    assert_eq!(read_index("01"), Some(1));
    assert_eq!(read_index("+5"), Some(5));
    assert_eq!(read_index("12031000"), Some(12031000));
    assert_eq!(read_index(&usize::MAX.to_string()), Some(usize::MAX));
    assert_eq!(read_index(""), None);
    assert_eq!(read_index("+"), None);
    assert_eq!(read_index("++1"), None);
    assert_eq!(read_index("-1"), None);
    assert_eq!(read_index("1+"), None);
    assert_eq!(read_index("1 "), None);
    assert_eq!(read_index("1.0"), None);
    assert_eq!(read_index("٣"), None);
    assert_eq!(read_index(&format!("{}0", usize::MAX)), None);
    assert_eq!(read_index(&format!("{}", usize::MAX as u128 + 1)), None);
    for text in ["0", "7", "+5", "0042", "x", "", "18446744073709551615", "99999999999999999999"] {
        assert_eq!(read_index(text), text.parse::<usize>().ok());
    }
}

#[test]
fn numbers_are_written_in_decimal() {
    for n in [0u128, 1, 9, 10, 11, 99, 100, 1000, 12031000, u64::MAX as u128, u128::MAX] {
        let mut out = "x".to_owned();
        push_decimal(&mut out, n);
        assert_eq!(out, format!("x{}", n));
    }
}

#[test]
fn texts_are_joined_with_the_separator_between_them() {
    let join = |parts: &[&str]| {
        let parts: Vec<String> = parts.iter().map(|part| (*part).to_owned()).collect();
        let mut out = "(".to_owned();
        push_joined(&mut out, &parts, ", ");
        out
    };
    assert_eq!(join(&[]), "(");
    assert_eq!(join(&["a"]), "(a");
    assert_eq!(join(&["a", "b"]), "(a, b");
    assert_eq!(join(&["a", "", "c"]), "(a, , c");
}

#[test]
fn the_characters_of_a_string() {
    assert_eq!(chars_of(""), Vec::<char>::new());
    assert_eq!(chars_of("aŠ😍"), vec!['a', 'Š', '😍']);
}

#[test]
fn tags_decide_what_is_done_to_a_name() {
    assert_eq!(Todo::presets(), vec![Todo::ApplyPrefix]);
    assert_eq!(Todo::from_tags_with_presets(&vec![]), vec![Todo::ApplyPrefix]);
    assert_eq!(Todo::from_tags_with_presets(&vec![Tag::NoPrefix]), vec![]);
    assert_eq!(Todo::from_tags_with_presets(&vec![Tag::NoPrefix, Tag::NoPrefix]), vec![]);
    let keys = CommonKeyable { prefix: "PRE_".to_owned() };
    let plain = StringWithTags { tags: vec![], string: "NAME".to_owned() };
    assert_eq!(plain.apply_tags(&keys), "PRE_NAME");
    let bare = StringWithTags { tags: vec![Tag::NoPrefix], string: "NAME".to_owned() };
    assert_eq!(bare.apply_tags(&keys), "NAME");
    assert_eq!(Name::Raw("RAW".to_owned()).initialize(&keys), "PRE_RAW");
    assert_eq!(Name::Tagged(bare.clone()).initialize(&keys), "NAME");
    assert_eq!(Name::Tagged(bare.clone()).duplicate(), Name::Tagged(bare));
}

#[test]
fn entities_start_as_they_are_written() {
    assert_eq!(Name::default(), Name::Raw(String::new()));
    assert_eq!(
        Preprocessable::<Name>::default(),
        Preprocessable::NotPreprocessed(Name::Raw(String::new()))
    );
    assert_eq!(Preprocessable::<String>::default(), Preprocessable::NotPreprocessed(String::new()));
    assert_eq!(Preprocessable::new(3u8), Preprocessable::NotPreprocessed(3u8));
    let entity: Preprocessable<String> = Preprocessable::Preprocessed("x".to_owned());
    assert_eq!(entity.duplicate(), entity);
}

#[test]
fn tokenizing_and_untokenizing_give_the_string_back() {
    for source in [
        "",
        "plain",
        "$.",
        "${name}",
        "$(0)",
        "$(42)",
        "$[,]",
        "$[[]",
        "$[a\\]b\\\\c$d{e}]",
        "\\$\\\\",
        "a\\$b$.c${d.e}f$(7)g$[h]i",
        "{}()[].",
        "$.$.$.",
    ] {
        let tokens = CompilerToken::tokenize(source).unwrap();
        assert_eq!(untokenized(&tokens), source);
    }
}

#[test]
fn an_index_is_written_back_without_sign_and_leading_zeros() {
    assert_eq!(untokenized(&CompilerToken::tokenize("$(007)").unwrap()), "$(7)");
    assert_eq!(untokenized(&CompilerToken::tokenize("$(+7)").unwrap()), "$(7)");
}

#[test]
fn the_text_to_be_skipped_takes_every_character_but_the_closing_one() {
    assert_eq!(
        CompilerToken::tokenize("$[[]").unwrap(),
        vec![CompilerToken::SkipLast("[".to_owned())]
    );
    assert_eq!(
        CompilerToken::tokenize("$[$.${(]").unwrap(),
        vec![CompilerToken::SkipLast("$.${(".to_owned())]
    );
}

#[test]
fn names_may_hold_dots() {
    assert_eq!(
        CompilerToken::tokenize("${a.b}").unwrap(),
        vec![CompilerToken::NamedArgumentRef("a.b".to_owned())]
    );
}

#[test]
fn literal_text_between_references_is_one_token() {
    assert_eq!(
        preprocessor_string_tokenizer("a\\@b\\\\c@{k}d{}e").unwrap(),
        vec![
            PreprocessorToken::Raw("a@b\\c".to_owned()),
            PreprocessorToken::Key("k".to_owned()),
            PreprocessorToken::Raw("d{}e".to_owned()),
        ]
    );
    assert_eq!(preprocessor_string_tokenizer("").unwrap(), vec![]);
}
