use xmvagen::compiler::token::CompilerToken;
use xmvagen::error::ErrorKind;
use xmvagen::sigil::CompilerSigil;

#[test]
fn compiler_tokenizer_string_simple() {
    assert_eq!(
        CompilerToken::tokenize(
            "hello world${argument}"
        ).unwrap(),
        vec![
            CompilerToken::Raw("hello world".to_owned()),
            CompilerToken::NamedArgumentRef("argument".to_owned())
        ]
    );
}

#[test]
fn compiler_tokenizer_complex() {
    assert_eq!(
        CompilerToken::tokenize(
            "$.$.[HELLO_ ## ${NAME} ## _ ## $(000)] = \"\\$$(01)$[,\\]]\""
        ).unwrap(),
        vec![
            CompilerToken::Position,
            CompilerToken::Position,
            CompilerToken::Raw("[HELLO_ ## ".to_owned()),
            CompilerToken::NamedArgumentRef("NAME".to_owned()),
            CompilerToken::Raw(" ## _ ## ".to_owned()),
            CompilerToken::UnamedArgumentRef(0),
            CompilerToken::Raw("] = \"$".to_owned()),
            CompilerToken::UnamedArgumentRef(1),
            CompilerToken::SkipLast(",]".to_owned()),
            CompilerToken::Raw("\"".to_owned())
        ]
    );
}

#[test]
fn compiler_tokenizer_surface() {
    assert_eq!(
        CompilerToken::tokenize_surface(
            "$.$.[HELLO_ ## ${NAME} ## _ ## $(000)] = \"\\$$(01)$[,\\]]\""
        ).unwrap(),
        vec![
            CompilerToken::Raw("$.".to_owned()),
            CompilerToken::Raw("$.".to_owned()),
            CompilerToken::Raw("[HELLO_ ## ".to_owned()),
            CompilerToken::NamedArgumentRef("NAME".to_owned()),
            CompilerToken::Raw(" ## _ ## ".to_owned()),
            CompilerToken::Raw("$(0)".to_owned()),
            CompilerToken::Raw("] = \"$".to_owned()),
            CompilerToken::Raw("$(1)".to_owned()),
            CompilerToken::Raw("$[,\\]]".to_owned()),
            CompilerToken::Raw("\"".to_owned())
        ]
    );
}

#[test]
fn compiler_untokenizer() {
    let variants: Vec<CompilerToken> = vec![
        CompilerToken::Raw(String::new()),
        CompilerToken::NamedArgumentRef(String::new()),
        CompilerToken::UnamedArgumentRef(0),
        CompilerToken::Position,
        CompilerToken::SkipLast(String::new()),
    ];

    for ref variant in variants {
        match variant {
            CompilerToken::Raw(value) => {
                assert_eq!(value.to_owned(), variant.untokenize())
            }
            CompilerToken::Position => {
                assert_eq!(
                    format!("{}{}",
                        CompilerSigil::TokenStart.symbol(),
                        CompilerSigil::PositionDot.symbol(),
                    ),
                    variant.untokenize()
                )
            }
            CompilerToken::NamedArgumentRef(value) => {
                assert_eq!(
                    format!("{}{}{value}{}",
                        CompilerSigil::TokenStart.symbol(),
                        CompilerSigil::NamedArgumentRefOpen.symbol(),
                        CompilerSigil::NamedArgumentRefClose.symbol()
                    ),
                    variant.untokenize()
                )
            }
            CompilerToken::UnamedArgumentRef(value) => {
                assert_eq!(
                    format!("{}{}{value}{}",
                        CompilerSigil::TokenStart.symbol(),
                        CompilerSigil::UnamedArgumentRefOpen.symbol(),
                        CompilerSigil::UnamedArgumentRefClose.symbol()
                    ),
                    variant.untokenize()
                )
            }
            CompilerToken::SkipLast(value) => {
                assert_eq!(
                    format!("{}{}{value}{}",
                        CompilerSigil::TokenStart.symbol(),
                        CompilerSigil::SkipLastOpen.symbol(),
                        CompilerSigil::SkipLastClose.symbol()
                    ),
                    variant.untokenize()
                )
            }
        }
    }
}

#[test]
fn compiler_tokenize_and_untokenize() {
    let s = "$.$.[HELLO_ ## ${NAME} ## _ ## $(0)] = \"\\$$(1)$[,\\]\\\\]\"";

    assert_eq!(
        s.to_owned(),
        CompilerToken::tokenize(s)
            .unwrap()
            .into_iter()
            .map(|x| x.untokenize())
            .collect::<Vec<String>>()
            .join("")
    );

    let s1 = "\\$$.\\\\{[gello${wo.rldðŸ’”ðŸ”¥}${..skadkAK100'0'ðŸ’”ðŸ’”ðŸ’”ðŸ”¥@..}]}$[,,,ðŸ’”ðŸ”¥.sfak\\]\\]\\]]$.$(12031000)$.\\$$(1000)$[\\\\\\]\\]\\]]\\\\\\$";

    assert_eq!(
        s1.to_owned(),
        CompilerToken::tokenize(s1)
            .unwrap()
            .into_iter()
            .map(|x| x.untokenize())
            .collect::<Vec<String>>()
            .join("")
    );
}

#[test]
fn compiler_tokenizer_errors() {
    let empty_named = "${}";
    let empty_unamed = "$()";
    let empty_skip = "$[]";
    let illegal_sigil_named = "${{}";
    let illegal_sigil_unamed = "$(()";
    let illegal_sigil_skip = "$[[]";

    assert_eq!(
        CompilerToken::tokenize(empty_named).unwrap_err().kind,
        ErrorKind::EmptyReference
    );

    assert_eq!(
        CompilerToken::tokenize(empty_unamed).unwrap_err().kind,
        ErrorKind::EmptyReference
    );

    assert_eq!(
        CompilerToken::tokenize(empty_skip).unwrap_err().kind,
        ErrorKind::EmptyReference
    );

    assert_eq!(
        CompilerToken::tokenize(illegal_sigil_named).unwrap_err().kind,
        ErrorKind::IllegalSymbol
    );

    assert_eq!(
        CompilerToken::tokenize(illegal_sigil_unamed).unwrap_err().kind,
        ErrorKind::IllegalSymbol
    );

    assert!(
        CompilerToken::tokenize(illegal_sigil_skip).is_ok()
    );
}

#[test]
fn compiler_tokenizer_embed() {
    assert_eq!(
        CompilerToken::tokenize("").unwrap(),
        vec![]
    );

    assert!(
        CompilerToken::tokenize("\\").is_err()
    );

    assert!(
        CompilerToken::tokenize("\\s").is_err()
    );

    assert_eq!(
        CompilerToken::tokenize("\\\\").unwrap(),
        vec![CompilerToken::Raw("\\".to_owned())]
    );

    assert_eq!(
        CompilerToken::tokenize("\\$").unwrap(),
        vec![CompilerToken::Raw("$".to_owned())]
    );

    assert_eq!(
        CompilerToken::tokenize("\\\\n\\$\\\\\\\\%\\\\").unwrap(),
        vec![CompilerToken::Raw("\\n$\\\\%\\".to_owned())]
    );

    assert_eq!(
        CompilerToken::tokenize("$[\\\\n\\\\$\\\\\\\\%\\]]").unwrap(),
        vec![CompilerToken::SkipLast("\\n\\$\\\\%]".to_owned())]
    );
}
