use xmvagen::compiler::arguments::gather_arguments;
use xmvagen::compiler::assembler::{
    assemble_generator_macro_string, assemble_main_macro_string,
    compile_and_assemble_repeat_string,
};
use xmvagen::compiler::surface::{compile_surface_string, compile_surface_strings};
use xmvagen::compiler::token::CompilerToken;
use xmvagen::config::{
    Argument, Common, CommonKeyable, Config, Core, Definition, Fallbacks, Generator, Key, Name,
    NamedArgument, Preamble, Serialized, SerializedEntry, SerializedValue,
};
use xmvagen::error::{Error, ErrorKind};
use xmvagen::preprocessor::table::{AnyPreprocessable, KeyTable};
use xmvagen::preprocessor::token::preprocessor_string_tokenizer;
use xmvagen::preprocessor::Preprocessable;

fn written(source: &str) -> Preprocessable<String> {
    Preprocessable::NotPreprocessed(source.to_owned())
}

fn resolved(text: &str) -> Preprocessable<String> {
    Preprocessable::Preprocessed(text.to_owned())
}

fn seeds() -> Serialized {
    Serialized::Object(vec![SerializedEntry {
        key: "prefix".to_owned(),
        value: SerializedValue::String("P".to_owned()),
    }])
}

fn config() -> Config {
    Config {
        common: Common { keyable: CommonKeyable { prefix: "P".to_owned() }, repeats: 2 },
        preamble: None,
        definition: None,
        core: Core {
            xmva: resolved("M"),
            args: vec![
                Argument::Named(NamedArgument { key: "n".to_owned(), name: resolved("N") }),
                Argument::Varadict { varadict: 1 },
            ],
        },
        generator: vec![Generator {
            fallbacks: Fallbacks { unparity: resolved("u"), empty: resolved("e") },
            preamble: resolved("<"),
            repeat: resolved("$(0)"),
            postamble: resolved(">"),
        }],
    }
}

fn named(entries: &[(&str, Preprocessable<String>)]) -> KeyTable {
    let mut table = KeyTable::new();
    for (key, value) in entries {
        table.insert((*key).to_owned(), AnyPreprocessable::String(value.clone())).unwrap();
    }
    table
}

fn template_failure(source: &str) -> (ErrorKind, usize) {
    let error = CompilerToken::tokenize(source).unwrap_err();
    assert_eq!(error.source, source);
    (error.kind, error.index)
}

fn reference_failure(source: &str) -> (ErrorKind, usize) {
    let error = preprocessor_string_tokenizer(source).unwrap_err();
    assert_eq!(error.source, source);
    (error.kind, error.index)
}

#[test]
fn the_template_lexer_names_the_kind_and_the_place_of_a_failure() {
    assert_eq!(template_failure("ab$$"), (ErrorKind::IllegalSymbol, 3));
    assert_eq!(template_failure("$x"), (ErrorKind::IllegalSymbol, 1));
    assert_eq!(template_failure("$}"), (ErrorKind::IllegalSymbol, 1));
    assert_eq!(template_failure("$\\"), (ErrorKind::IllegalSymbol, 1));
    assert_eq!(template_failure("a\\b"), (ErrorKind::IllegalSymbol, 2));
    assert_eq!(template_failure("${a$}"), (ErrorKind::IllegalSymbol, 3));
    assert_eq!(template_failure("${a\\}"), (ErrorKind::IllegalSymbol, 3));
    assert_eq!(template_failure("$(1[)"), (ErrorKind::IllegalSymbol, 3));
    assert_eq!(template_failure("$[a\\b]"), (ErrorKind::IllegalSymbol, 4));
    assert_eq!(template_failure("x${}"), (ErrorKind::EmptyReference, 3));
    assert_eq!(template_failure("$()"), (ErrorKind::EmptyReference, 2));
    assert_eq!(template_failure("$[]"), (ErrorKind::EmptyReference, 2));
    assert_eq!(template_failure("$(one)"), (ErrorKind::InvalidReference, 5));
    assert_eq!(template_failure("$(1.5)"), (ErrorKind::InvalidReference, 5));
    assert_eq!(template_failure("$(-1)"), (ErrorKind::InvalidReference, 4));
    assert_eq!(template_failure("$(+)"), (ErrorKind::InvalidReference, 3));
    assert_eq!(template_failure("$(1 )"), (ErrorKind::InvalidReference, 4));
    assert_eq!(template_failure("ab$"), (ErrorKind::InvalidToken, 3));
    assert_eq!(template_failure("ab\\"), (ErrorKind::InvalidToken, 3));
    assert_eq!(template_failure("${ab"), (ErrorKind::InvalidToken, 4));
    assert_eq!(template_failure("$(12"), (ErrorKind::InvalidToken, 4));
    assert_eq!(template_failure("$[ab"), (ErrorKind::InvalidToken, 4));
    assert_eq!(template_failure("$[ab\\"), (ErrorKind::InvalidToken, 5));
}

#[test]
fn the_first_failure_of_a_template_string_is_the_one_that_is_named() {
    assert_eq!(template_failure("${}$$"), (ErrorKind::EmptyReference, 2));
    assert_eq!(template_failure("$$${}"), (ErrorKind::IllegalSymbol, 1));
    assert_eq!(template_failure("$(x)${"), (ErrorKind::InvalidReference, 3));
}

#[test]
fn an_index_that_does_not_fit_is_an_invalid_reference() {
    let fits = format!("$({})", usize::MAX);
    assert_eq!(
        CompilerToken::tokenize(&fits).unwrap(),
        vec![CompilerToken::UnamedArgumentRef(usize::MAX)]
    );
    let overflows = format!("$({}0)", usize::MAX);
    assert_eq!(CompilerToken::tokenize(&overflows).unwrap_err().kind, ErrorKind::InvalidReference);
    let next = format!("$({})", usize::MAX as u128 + 1);
    assert_eq!(CompilerToken::tokenize(&next).unwrap_err().kind, ErrorKind::InvalidReference);
}

#[test]
fn the_reference_lexer_names_the_kind_and_the_place_of_a_failure() {
    assert_eq!(reference_failure("a@@"), (ErrorKind::IllegalSymbol, 2));
    assert_eq!(reference_failure("@a"), (ErrorKind::IllegalSymbol, 1));
    assert_eq!(reference_failure("@}"), (ErrorKind::IllegalSymbol, 1));
    assert_eq!(reference_failure("\\a"), (ErrorKind::IllegalSymbol, 1));
    assert_eq!(reference_failure("@{a\\}"), (ErrorKind::IllegalSymbol, 3));
    assert_eq!(reference_failure("ab@{}"), (ErrorKind::EmptyReference, 4));
    assert_eq!(reference_failure("ab@"), (ErrorKind::InvalidToken, 3));
    assert_eq!(reference_failure("ab\\"), (ErrorKind::InvalidToken, 3));
    assert_eq!(reference_failure("@{ab"), (ErrorKind::InvalidToken, 4));
}

#[test]
fn serialized_settings_that_are_no_object_are_a_serialization_failure() {
    let error = config().preprocess(&Serialized::Other).unwrap_err();
    assert_eq!(error.kind, ErrorKind::Serialization);
}

#[test]
fn two_entries_under_one_key_are_a_duplicate_key() {
    let key = |key: &str| Key {
        key: key.to_owned(),
        name: Preprocessable::NotPreprocessed(Name::Raw("X".to_owned())),
    };
    let definition = |key: &str| Definition {
        key: key.to_owned(),
        name: Preprocessable::NotPreprocessed(Name::Raw("X".to_owned())),
        parameters: None,
        expansion: written("1"),
    };
    let mut among_keys = config();
    among_keys.preamble = Some(Preamble { raw: None, keys: Some(vec![key("a"), key("a")]) });
    assert_eq!(among_keys.preprocess(&seeds()).unwrap_err().kind, ErrorKind::DuplicateKey);
    let mut with_a_seed = config();
    with_a_seed.preamble = Some(Preamble { raw: None, keys: Some(vec![key("prefix")]) });
    assert_eq!(with_a_seed.preprocess(&seeds()).unwrap_err().kind, ErrorKind::DuplicateKey);
    let mut with_a_definition = config();
    with_a_definition.preamble = Some(Preamble { raw: None, keys: Some(vec![key("a")]) });
    with_a_definition.definition = Some(vec![definition("b"), definition("a")]);
    assert_eq!(
        with_a_definition.preprocess(&seeds()).unwrap_err().kind,
        ErrorKind::DuplicateKey
    );
    let among_seeds = Serialized::Object(vec![
        SerializedEntry { key: "k".to_owned(), value: SerializedValue::String("1".to_owned()) },
        SerializedEntry { key: "k".to_owned(), value: SerializedValue::String("2".to_owned()) },
    ]);
    assert_eq!(config().preprocess(&among_seeds).unwrap_err().kind, ErrorKind::DuplicateKey);
}

#[test]
fn the_reference_stage_fails_with_the_first_failure() {
    let mut cycle = config();
    cycle.preamble = Some(Preamble {
        raw: Some(written("@{nowhere}")),
        keys: Some(vec![Key {
            key: "a".to_owned(),
            name: Preprocessable::NotPreprocessed(Name::Raw("@{a}".to_owned())),
        }]),
    });
    assert_eq!(cycle.preprocess(&seeds()).unwrap_err().kind, ErrorKind::MutualReference);
    let mut missing = config();
    missing.core.xmva = written("@{nowhere}");
    missing.generator[0].repeat = written("@{");
    assert_eq!(missing.preprocess(&seeds()).unwrap_err().kind, ErrorKind::NonExistentReference);
    let mut unfinished = config();
    unfinished.generator[0].repeat = written("@{");
    assert_eq!(unfinished.preprocess(&seeds()).unwrap_err().kind, ErrorKind::InvalidToken);
}

#[test]
fn two_named_arguments_under_one_key_are_a_duplicate_argument() {
    let mut twice = config();
    twice.core.args.push(Argument::Named(NamedArgument {
        key: "n".to_owned(),
        name: resolved("OTHER"),
    }));
    let error = twice.load_named_arguments().unwrap_err();
    assert_eq!(error.kind, ErrorKind::DuplicateArgument);
    assert_eq!(error.names, vec!["n".to_owned()]);
    assert_eq!(twice.compile().unwrap_err().kind, ErrorKind::DuplicateArgument);
    assert_eq!(twice.compile_and_assemble().unwrap_err().kind, ErrorKind::DuplicateArgument);
}

#[test]
fn the_group_size_must_be_declared_once() {
    let mut twice = config();
    twice.core.args.push(Argument::Varadict { varadict: 3 });
    assert_eq!(gather_arguments(&twice.core, true).unwrap_err().kind, ErrorKind::DuplicateArgument);
    assert_eq!(gather_arguments(&twice.core, false).unwrap().group_size, Some(3));
    assert_eq!(
        compile_and_assemble_repeat_string(&twice.generator[0], &twice.common, &twice.core, 0)
            .unwrap_err()
            .kind,
        ErrorKind::DuplicateArgument
    );
    assert_eq!(
        assemble_main_macro_string(&twice.core, &twice.common, 1).unwrap_err().kind,
        ErrorKind::DuplicateArgument
    );
    assert!(assemble_generator_macro_string(&twice.common, &twice.core, 0).is_ok());
    let mut never = config();
    never.core.args.pop();
    assert_eq!(gather_arguments(&never.core, true).unwrap().group_size, None);
    assert_eq!(
        compile_and_assemble_repeat_string(&never.generator[0], &never.common, &never.core, 0)
            .unwrap_err()
            .kind,
        ErrorKind::NonExistentArgument
    );
    assert_eq!(never.compile_and_assemble().unwrap_err().kind, ErrorKind::NonExistentArgument);
}

#[test]
fn a_named_reference_to_no_argument_is_a_non_existent_argument() {
    let table = named(&[("n", resolved("N"))]);
    let mut entity = resolved("a${n}b${m}");
    let error = compile_surface_string(&mut entity, &table).unwrap_err();
    assert_eq!(error.kind, ErrorKind::NonExistentArgument);
    assert_eq!(error.names, vec!["m".to_owned()]);
    assert_eq!(entity, resolved("a${n}b${m}"));
}

#[test]
fn what_was_not_resolved_is_not_compiled() {
    let table = named(&[("n", written("N"))]);
    let mut unresolved = written("text");
    assert_eq!(
        compile_surface_string(&mut unresolved, &table).unwrap_err().kind,
        ErrorKind::NotPreprocessed
    );
    assert_eq!(unresolved, written("text"));
    let mut refers = resolved("${n}");
    assert_eq!(
        compile_surface_string(&mut refers, &table).unwrap_err().kind,
        ErrorKind::NotPreprocessed
    );
    let mut unprocessed = config();
    unprocessed.core.xmva = written("M");
    assert_eq!(
        unprocessed.compile_and_assemble().unwrap_err().kind,
        ErrorKind::NotPreprocessed
    );
    let mut argument = config();
    argument.core.args[0] =
        Argument::Named(NamedArgument { key: "n".to_owned(), name: written("N") });
    assert_eq!(
        assemble_generator_macro_string(&argument.common, &argument.core, 0).unwrap_err().kind,
        ErrorKind::NotPreprocessed
    );
    let mut body = config();
    body.generator[0].repeat = written("$(0)");
    assert_eq!(
        compile_and_assemble_repeat_string(&body.generator[0], &body.common, &body.core, 0)
            .unwrap_err()
            .kind,
        ErrorKind::NotPreprocessed
    );
    let mut definition = config();
    definition.definition = Some(vec![Definition {
        key: "d".to_owned(),
        name: Preprocessable::Preprocessed("D".to_owned()),
        parameters: None,
        expansion: written("1"),
    }]);
    assert_eq!(definition.assemble_preamble().unwrap_err().kind, ErrorKind::NotPreprocessed);
}

#[test]
fn the_surface_compiler_stops_at_the_first_entity_that_fails() {
    let table = named(&[("n", resolved("N"))]);
    let mut entities = vec![resolved("${n}"), resolved("${"), resolved("${n}")];
    let error = compile_surface_strings(&mut entities, &table).unwrap_err();
    assert_eq!(error.kind, ErrorKind::InvalidToken);
    assert_eq!(entities, vec![resolved("N"), resolved("${"), resolved("${n}")]);
}

#[test]
fn a_repeat_body_that_the_grammar_rejects_fails_as_the_lexer_does() {
    let mut broken = config();
    broken.generator[0].repeat = resolved("$(x)");
    assert!(broken.is_expandable());
    assert_eq!(broken.compile_and_assemble().unwrap_err().kind, ErrorKind::InvalidReference);
}

#[test]
fn errors_carry_their_context() {
    let plain = Error::new(ErrorKind::Serialization);
    assert_eq!(plain.kind, ErrorKind::Serialization);
    assert_eq!(plain.source, "");
    assert_eq!(plain.index, 0);
    assert!(plain.names.is_empty());
    let placed = Error::at(ErrorKind::IllegalSymbol, "a$$", 2);
    assert_eq!(placed.source, "a$$");
    assert_eq!(placed.index, 2);
    let named = Error::named(ErrorKind::DuplicateKey, "key");
    assert_eq!(named.names, vec!["key".to_owned()]);
}

#[test]
fn a_failure_of_a_stage_carries_the_context_of_the_step_that_failed() {
    let mut unfinished = config();
    unfinished.generator[0].repeat = written("ab@{");
    let error = unfinished.preprocess(&seeds()).unwrap_err();
    assert_eq!(error.kind, ErrorKind::InvalidToken);
    assert_eq!(error.source, "ab@{");
    assert_eq!(error.index, 4);
    assert!(error.names.is_empty());

    let mut missing = config();
    missing.core.xmva = written("x@{nowhere}");
    let error = missing.preprocess(&seeds()).unwrap_err();
    assert_eq!(error.kind, ErrorKind::NonExistentReference);
    assert_eq!(error.source, "");
    assert_eq!(error.index, 0);
    assert_eq!(error.names, vec!["nowhere".to_owned()]);

    let key = |key: &str, name: &str| Key {
        key: key.to_owned(),
        name: Preprocessable::NotPreprocessed(Name::Raw(name.to_owned())),
    };
    let mut duplicate = config();
    duplicate.preamble =
        Some(Preamble { raw: None, keys: Some(vec![key("a", "1"), key("b", "2"), key("b", "3")]) });
    let error = duplicate.preprocess(&seeds()).unwrap_err();
    assert_eq!(error.kind, ErrorKind::DuplicateKey);
    assert_eq!(error.names, vec!["b".to_owned()]);

    let mut cycle = config();
    cycle.preamble = Some(Preamble {
        raw: None,
        keys: Some(vec![key("a", "@{c}"), key("b", "fine"), key("c", "@{a}@{b}")]),
    });
    let error = cycle.preprocess(&seeds()).unwrap_err();
    assert_eq!(error.kind, ErrorKind::MutualReference);
    assert_eq!(error.names, vec!["a".to_owned(), "c".to_owned()]);

    let serialization = config().preprocess(&Serialized::Other).unwrap_err();
    assert_eq!(serialization.source, "");
    assert!(serialization.names.is_empty());
}

#[test]
fn a_failure_of_the_template_stage_carries_its_context() {
    let mut rejected = config();
    rejected.generator[0].fallbacks.unparity = resolved("odd $(x)");
    let error = rejected.compile_and_assemble().unwrap_err();
    assert_eq!(error.kind, ErrorKind::InvalidReference);
    assert_eq!(error.source, "odd $(x)");
    assert_eq!(error.index, 7);

    let mut body = config();
    body.generator[0].repeat = resolved("$(0)$[");
    let error = body.compile_and_assemble().unwrap_err();
    assert_eq!(error.kind, ErrorKind::InvalidToken);
    assert_eq!(error.source, "$(0)$[");
    assert_eq!(error.index, 6);

    let mut unknown = config();
    unknown.generator[0].postamble = resolved("${nobody}");
    let error = unknown.compile_and_assemble().unwrap_err();
    assert_eq!(error.kind, ErrorKind::NonExistentArgument);
    assert_eq!(error.names, vec!["nobody".to_owned()]);

    let mut unresolved = config();
    unresolved.generator[0].preamble = written("as written");
    let error = unresolved.compile_and_assemble().unwrap_err();
    assert_eq!(error.kind, ErrorKind::NotPreprocessed);
    assert_eq!(error.source, "as written");
    assert_eq!(error.index, 0);

    let mut argument = config();
    argument.core.args[0] =
        Argument::Named(NamedArgument { key: "n".to_owned(), name: written("N") });
    let error = assemble_main_macro_string(&argument.core, &argument.common, 1).unwrap_err();
    assert_eq!(error.kind, ErrorKind::NotPreprocessed);
    assert_eq!(error.names, vec!["n".to_owned()]);

    let mut definition = config();
    definition.definition = Some(vec![Definition {
        key: "d".to_owned(),
        name: Preprocessable::NotPreprocessed(Name::Raw("D".to_owned())),
        parameters: None,
        expansion: resolved("1"),
    }]);
    let error = definition.assemble_preamble().unwrap_err();
    assert_eq!(error.kind, ErrorKind::NotPreprocessed);
    assert_eq!(error.names, vec!["d".to_owned()]);
}
