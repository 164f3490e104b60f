use xmvagen::compiler::surface::{compile_surface_string, compile_surface_strings};
use xmvagen::compiler::token::CompilerToken;
use xmvagen::preprocessor::table::{AnyPreprocessable, KeyTable};
use xmvagen::preprocessor::Preprocessable;

fn resolved(text: &str) -> Preprocessable<String> {
    Preprocessable::Preprocessed(text.to_owned())
}

fn named() -> KeyTable {
    let mut table = KeyTable::new();
    table.insert("type".to_owned(), AnyPreprocessable::String(resolved("TYPE"))).unwrap();
    table.insert("name".to_owned(), AnyPreprocessable::String(resolved("${type}"))).unwrap();
    table
}

#[test]
fn named_references_are_replaced() {
    let mut entity = resolved("struct ${type} ${name};");
    compile_surface_string(&mut entity, &named()).unwrap();
    assert_eq!(entity, resolved("struct TYPE ${type};"));
}

#[test]
fn what_belongs_to_a_repeat_body_stays_as_it_is_written() {
    let mut entity = resolved("$.${type}$(007)$[,\\]\\\\]");
    compile_surface_string(&mut entity, &named()).unwrap();
    assert_eq!(entity, resolved("$.TYPE$(7)$[,\\]\\\\]"));
}

#[test]
fn escapes_of_literal_text_are_taken_out() {
    let mut entity = resolved("\\$\\\\${type}");
    compile_surface_string(&mut entity, &named()).unwrap();
    assert_eq!(entity, resolved("$\\TYPE"));
}

#[test]
fn every_entity_of_a_list_is_compiled() {
    let mut entities = vec![resolved("${type}"), resolved(""), resolved("a${name}b")];
    compile_surface_strings(&mut entities, &named()).unwrap();
    assert_eq!(entities, vec![resolved("TYPE"), resolved(""), resolved("a${type}b")]);
}

#[test]
fn tokens_of_text_that_is_no_repeat_body() {
    assert_eq!(
        CompilerToken::tokenize_surface("a$.${n}$(1)$[x]").unwrap(),
        vec![
            CompilerToken::Raw("a".to_owned()),
            CompilerToken::Raw("$.".to_owned()),
            CompilerToken::NamedArgumentRef("n".to_owned()),
            CompilerToken::Raw("$(1)".to_owned()),
            CompilerToken::Raw("$[x]".to_owned()),
        ]
    );
}
