use xmvagen::error::ErrorKind;
use xmvagen::preprocessor::token::{preprocessor_string_tokenizer, PreprocessorToken};

#[test]
fn tokenizer_simple() {
    assert_eq!(
        preprocessor_string_tokenizer(
            "hello world@{prefix}"
        ).unwrap(),
        vec![
            PreprocessorToken::Raw("hello world".to_owned()),
            PreprocessorToken::Key("prefix".to_owned())
        ]
    );
}

#[test]
fn preprocessor_tokenizer_complex() {
    assert_eq!(
        preprocessor_string_tokenizer(
            "@{#$%\"\"!23O1''???ŠSĆDsl😍💕😳****}\\@{destroyer}\\\\@{beyonce}#$%\"\"!23O1''???ŠSĆDsl😍💕😳****@{prefix}@{dufus}\\\\"
        ).unwrap(),
        vec![
            PreprocessorToken::Key("#$%\"\"!23O1''???ŠSĆDsl😍💕😳****".to_owned()),
            PreprocessorToken::Raw("@{destroyer}\\".to_owned()),
            PreprocessorToken::Key("beyonce".to_owned()),
            PreprocessorToken::Raw("#$%\"\"!23O1''???ŠSĆDsl😍💕😳****".to_owned()),
            PreprocessorToken::Key("prefix".to_owned()),
            PreprocessorToken::Key("dufus".to_owned()),
            PreprocessorToken::Raw("\\".to_owned()),
        ]
    );
}

#[test]
fn tokenizer_check_embed() {
    assert_eq!(
        preprocessor_string_tokenizer(
            "\\@ \\\\\\\\"
        ).unwrap(),
        vec![
            PreprocessorToken::Raw("@ \\\\".to_owned())
        ]
    );

    assert!(
        preprocessor_string_tokenizer(
            "\\"
        ).is_err()
    );

    assert!(
        preprocessor_string_tokenizer(
            "\\$"
        ).is_err()
    );

    assert!(
        preprocessor_string_tokenizer(
            "\\\\n"
        ).is_ok()
    );
}

#[test]
fn tokenizer_check_no_empty_raws() {
    assert_eq!(
        preprocessor_string_tokenizer(
            "@{hello}@{hi}@{byebye}"
        ).unwrap(),
        vec![
            PreprocessorToken::Key("hello".to_owned()),
            PreprocessorToken::Key("hi".to_owned()),
            PreprocessorToken::Key("byebye".to_owned()),
        ]
    );
}

#[test]
fn tokenizer_check_no_empty_reference() {
    assert_eq!(
        preprocessor_string_tokenizer(
            "@{}"
        ).unwrap_err().kind,
        ErrorKind::EmptyReference
    );
}

#[test]
fn tokenizer_check_illegal_symbol_in_reference() {
    assert_eq!(
        preprocessor_string_tokenizer(
            "@{@}"
        ).unwrap_err().kind,
        ErrorKind::IllegalSymbol
    );

    assert_eq!(
        preprocessor_string_tokenizer(
            "@{{}"
        ).unwrap_err().kind,
        ErrorKind::IllegalSymbol
    );

    assert!(
        preprocessor_string_tokenizer(
            "@{a}}"
        ).is_ok()
    );
}
