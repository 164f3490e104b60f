use xmvagen::compiler::assembler::{
    assemble_generator_macro_string, assemble_main_macro_string,
    compile_and_assemble_repeat_string, load_pattern,
};
use xmvagen::config::{
    Argument, Common, CommonKeyable, Config, Core, Definition, Fallbacks, Generator, Key, Name,
    NamedArgument, Preamble, Serialized, SerializedEntry, SerializedValue, StringWithTags, Tag,
};
use xmvagen::error::ErrorKind;
use xmvagen::preprocessor::Preprocessable;

fn written(source: &str) -> Preprocessable<String> {
    Preprocessable::NotPreprocessed(source.to_owned())
}

fn resolved(text: &str) -> Preprocessable<String> {
    Preprocessable::Preprocessed(text.to_owned())
}

fn seeds(prefix: &str) -> Serialized {
    Serialized::Object(vec![SerializedEntry {
        key: "prefix".to_owned(),
        value: SerializedValue::String(prefix.to_owned()),
    }])
}

fn generator(empty: &str, unparity: &str, preamble: &str, repeat: &str, postamble: &str) -> Generator {
    Generator {
        fallbacks: Fallbacks { unparity: written(unparity), empty: written(empty) },
        preamble: written(preamble),
        repeat: written(repeat),
        postamble: written(postamble),
    }
}

fn config() -> Config {
    Config {
        common: Common { keyable: CommonKeyable { prefix: "P_".to_owned() }, repeats: 3 },
        preamble: Some(Preamble {
            raw: Some(written("// @{prefix}")),
            keys: Some(vec![Key {
                key: "item".to_owned(),
                name: Preprocessable::NotPreprocessed(Name::Raw("ITEM".to_owned())),
            }]),
        }),
        definition: Some(vec![Definition {
            key: "def".to_owned(),
            name: Preprocessable::NotPreprocessed(Name::Tagged(StringWithTags {
                tags: vec![Tag::NoPrefix],
                string: "STR".to_owned(),
            })),
            parameters: Some(vec!["x".to_owned()]),
            expansion: written("#x @{item}"),
        }]),
        core: Core {
            xmva: written("@{prefix}XMVA"),
            args: vec![
                Argument::Named(NamedArgument { key: "name".to_owned(), name: written("NAME") }),
                Argument::Varadict { varadict: 2 },
            ],
        },
        generator: vec![generator(
            "/* none of ${name} */",
            "/* odd */",
            "enum ${name} { ",
            "$(0) = $(1)$[, ]",
            " };",
        )],
    }
}

#[test]
fn the_reference_stage_resolves_every_entity() {
    let preprocessed = config().preprocess(&seeds("P_")).unwrap();
    let expected = Config {
        common: Common { keyable: CommonKeyable { prefix: "P_".to_owned() }, repeats: 3 },
        preamble: Some(Preamble {
            raw: Some(resolved("// P_")),
            keys: Some(vec![Key {
                key: "item".to_owned(),
                name: Preprocessable::Preprocessed("P_ITEM".to_owned()),
            }]),
        }),
        definition: Some(vec![Definition {
            key: "def".to_owned(),
            name: Preprocessable::Preprocessed("STR".to_owned()),
            parameters: Some(vec!["x".to_owned()]),
            expansion: resolved("#x P_ITEM"),
        }]),
        core: Core {
            xmva: resolved("P_XMVA"),
            args: vec![
                Argument::Named(NamedArgument { key: "name".to_owned(), name: resolved("NAME") }),
                Argument::Varadict { varadict: 2 },
            ],
        },
        generator: vec![Generator {
            fallbacks: Fallbacks {
                unparity: resolved("/* odd */"),
                empty: resolved("/* none of ${name} */"),
            },
            preamble: resolved("enum ${name} { "),
            repeat: resolved("$(0) = $(1)$[, ]"),
            postamble: resolved(" };"),
        }],
    };
    assert_eq!(preprocessed, expected);
}

#[test]
fn the_strings_are_loaded_in_their_order() {
    let strings = config().load_preprocessable_strings();
    assert_eq!(
        strings,
        vec![
            written("// @{prefix}"),
            written("#x @{item}"),
            written("@{prefix}XMVA"),
            written("NAME"),
            written("enum ${name} { "),
            written("$(0) = $(1)$[, ]"),
            written(" };"),
            written("/* odd */"),
            written("/* none of ${name} */"),
        ]
    );
}

#[test]
fn the_key_table_holds_the_seeds_then_the_keys_then_the_definitions() {
    let table = config().load_preprocessable_key_name_pairs(&seeds("P_")).unwrap();
    assert_eq!(table.len(), 3);
    assert_eq!(table.find(&"prefix".to_owned()), Some(0));
    assert_eq!(table.find(&"item".to_owned()), Some(1));
    assert_eq!(table.find(&"def".to_owned()), Some(2));
}

#[test]
fn seeds_that_are_no_strings_are_passed_over() {
    let serialized = Serialized::Object(vec![
        SerializedEntry { key: "number".to_owned(), value: SerializedValue::Other },
        SerializedEntry {
            key: "prefix".to_owned(),
            value: SerializedValue::String("P_".to_owned()),
        },
    ]);
    let table = config().load_preprocessable_key_name_pairs(&serialized).unwrap();
    assert_eq!(table.len(), 3);
    assert_eq!(table.find(&"number".to_owned()), None);
    assert_eq!(table.find(&"prefix".to_owned()), Some(0));
}

#[test]
fn the_surface_compiler_leaves_the_repeat_body_alone() {
    let preprocessed = config().preprocess(&seeds("P_")).unwrap();
    let compiled = preprocessed.compile().unwrap();
    assert_eq!(
        compiled,
        vec![Generator {
            fallbacks: Fallbacks {
                unparity: resolved("/* odd */"),
                empty: resolved("/* none of NAME */"),
            },
            preamble: resolved("enum NAME { "),
            repeat: resolved("$(0) = $(1)$[, ]"),
            postamble: resolved(" };"),
        }]
    );
}

#[test]
fn the_whole_output() {
    let preprocessed = config().preprocess(&seeds("P_")).unwrap();
    assert!(preprocessed.is_expandable());
    let output = preprocessed.compile_and_assemble().unwrap();
    let expected = "// P_\n\
        #define STR(x) #x P_ITEM\n\
        \n\
        #define P___ARGS__0_0(NAME) /* none of NAME */\n\
        #define P___ARGS__0_1(NAME, __0__) /* odd */\n\
        #define P___ARGS__0_2(NAME, __0__, __1__) enum NAME { __0__ = __1__ };\n\
        #define P___ARGS__0(__0__, __1__, __2__, __NAME__, ...) __NAME__\n\
        #define P___GENERATOR__0(NAME, __GEN__, ...) __GEN__(NAME, __VA_ARGS__)\n\
        \n\
        #define P_XMVA(NAME, ...) P___GENERATOR__0(NAME, \
        P___ARGS__0(\"empty\", ##__VA_ARGS__, P___ARGS__0_2, P___ARGS__0_1, P___ARGS__0_0), \
        __VA_ARGS__) ";
    assert_eq!(output, expected);
}

#[test]
fn two_generators_are_put_out_in_their_order() {
    let mut two = config();
    two.preamble = None;
    two.definition = None;
    two.core.xmva = written("M");
    two.common.keyable.prefix = String::new();
    two.common.repeats = 2;
    two.core.args = vec![
        Argument::Varadict { varadict: 1 },
        Argument::Named(NamedArgument { key: "a".to_owned(), name: written("A") }),
        Argument::Named(NamedArgument { key: "b".to_owned(), name: written("B") }),
    ];
    two.generator = vec![
        generator("e0", "u0", "<", "$(0)", ">"),
        generator("e1${b}", "u1", "${a}(", "$.", ")"),
    ];
    let preprocessed = two.preprocess(&seeds("")).unwrap();
    let output = preprocessed.compile_and_assemble().unwrap();
    let expected = "\n\
        #define __ARGS__0_0(A, B) e0\n\
        #define __ARGS__0_1(A, B, __0__) <__0__>\n\
        #define __ARGS__0(__0__, __1__, __NAME__, ...) __NAME__\n\
        #define __ARGS__1_0(A, B) e1B\n\
        #define __ARGS__1_1(A, B, __0__) A(1)\n\
        #define __ARGS__1(__0__, __1__, __NAME__, ...) __NAME__\n\
        #define __GENERATOR__0(A, B, __GEN__, ...) __GEN__(A, B, __VA_ARGS__)\n\
        \n\
        #define __GENERATOR__1(A, B, __GEN__, ...) __GEN__(A, B, __VA_ARGS__)\n\
        \n\
        #define M(A, B, ...) \
        __GENERATOR__0(A, B, __ARGS__0(\"empty\", ##__VA_ARGS__, __ARGS__0_1, __ARGS__0_0), \
        __VA_ARGS__) \
        __GENERATOR__1(A, B, __ARGS__1(\"empty\", ##__VA_ARGS__, __ARGS__1_1, __ARGS__1_0), \
        __VA_ARGS__) ";
    assert_eq!(output, expected);
}

#[test]
fn the_preamble_holds_the_raw_text_and_the_definitions() {
    let mut changed = config();
    changed.definition.as_mut().unwrap().push(Definition {
        key: "plain".to_owned(),
        name: Preprocessable::NotPreprocessed(Name::Raw("PLAIN".to_owned())),
        parameters: None,
        expansion: written("1"),
    });
    changed.definition.as_mut().unwrap().push(Definition {
        key: "wide".to_owned(),
        name: Preprocessable::NotPreprocessed(Name::Raw("WIDE".to_owned())),
        parameters: Some(vec!["a".to_owned(), "b".to_owned(), "c".to_owned()]),
        expansion: written("@{plain}"),
    });
    let preprocessed = changed.preprocess(&seeds("P_")).unwrap();
    assert_eq!(
        preprocessed.assemble_preamble().unwrap(),
        "// P_\n#define STR(x) #x P_ITEM\n#define P_PLAIN 1\n#define P_WIDE(a, b, c) P_PLAIN\n"
    );
    let mut bare = config();
    bare.preamble = None;
    bare.definition = None;
    assert_eq!(bare.preprocess(&seeds("P_")).unwrap().assemble_preamble().unwrap(), "");
}

#[test]
fn the_block_of_a_generator_read_from_the_configuration() {
    let common = Common { keyable: CommonKeyable { prefix: "Q".to_owned() }, repeats: 2 };
    let core = Core {
        xmva: resolved("M"),
        args: vec![
            Argument::Named(NamedArgument { key: "k".to_owned(), name: resolved("K") }),
            Argument::Varadict { varadict: 1 },
        ],
    };
    let generator = Generator {
        fallbacks: Fallbacks { unparity: resolved("u"), empty: resolved("e") },
        preamble: resolved("{"),
        repeat: resolved("$(0)"),
        postamble: resolved("}"),
    };
    let pattern = load_pattern(&generator, &common, &core, 5).unwrap();
    assert_eq!(pattern.index, 5);
    assert_eq!(pattern.repeats, 2);
    assert_eq!(pattern.group_size, 1);
    assert_eq!(pattern.named_arguments, vec!["K".to_owned()]);
    assert_eq!(
        compile_and_assemble_repeat_string(&generator, &common, &core, 5).unwrap(),
        "#define Q__ARGS__5_0(K) e\n\
         #define Q__ARGS__5_1(K, __0__) {__0__}\n\
         #define Q__ARGS__5(__0__, __1__, __NAME__, ...) __NAME__"
    );
    assert_eq!(
        assemble_generator_macro_string(&common, &core, 5).unwrap(),
        "#define Q__GENERATOR__5(K, __GEN__, ...) __GEN__(K, __VA_ARGS__)\n"
    );
    assert_eq!(
        assemble_main_macro_string(&core, &common, 1).unwrap(),
        "#define M(K, ...) Q__GENERATOR__0(K, Q__ARGS__0(\"empty\", ##__VA_ARGS__, \
         Q__ARGS__0_1, Q__ARGS__0_0), __VA_ARGS__) "
    );
    assert_eq!(assemble_main_macro_string(&core, &common, 0).unwrap(), "#define M(K, ...) ");
}

#[test]
fn the_repeat_count_of_the_configuration_is_clamped() {
    let common = Common { keyable: CommonKeyable { prefix: String::new() }, repeats: 5000 };
    let core = Core { xmva: resolved("M"), args: vec![Argument::Varadict { varadict: 1 }] };
    let generator = Generator {
        fallbacks: Fallbacks { unparity: resolved(""), empty: resolved("") },
        preamble: resolved(""),
        repeat: resolved(""),
        postamble: resolved(""),
    };
    let text = compile_and_assemble_repeat_string(&generator, &common, &core, 0).unwrap();
    assert_eq!(text.matches("#define ").count(), 1001);
    assert!(text.contains("#define __ARGS__0_999("));
    assert!(!text.contains("#define __ARGS__0_1000("));
}

#[test]
fn a_configuration_that_cannot_be_expanded_is_told_apart() {
    let mut zero = config();
    zero.core.args = vec![Argument::Varadict { varadict: 0 }];
    assert!(!zero.preprocess(&seeds("")).unwrap().is_expandable());
    let mut named = config();
    named.generator[0].repeat = written("${name}");
    assert!(!named.preprocess(&seeds("")).unwrap().is_expandable());
    let mut twice = config();
    twice.core.args.push(Argument::Varadict { varadict: 0 });
    twice.core.args.push(Argument::Varadict { varadict: 0 });
    let twice = twice.preprocess(&seeds("")).unwrap();
    assert!(twice.is_expandable());
    assert_eq!(twice.compile_and_assemble().unwrap_err().kind, ErrorKind::DuplicateArgument);
}
