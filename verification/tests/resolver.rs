use xmvagen::config::{CommonKeyable, Name, StringWithTags, Tag};
use xmvagen::error::ErrorKind;
use xmvagen::preprocessor::resolver::{
    preprocess_key_name_pairs, preprocess_strings, preprocessor_token_assembly_attempt, sweep,
};
use xmvagen::preprocessor::table::{AnyPreprocessable, KeyTable};
use xmvagen::preprocessor::token::PreprocessorToken;
use xmvagen::preprocessor::{Preprocess, Preprocessable};

fn common(prefix: &str) -> CommonKeyable {
    CommonKeyable { prefix: prefix.to_owned() }
}

fn pending(source: &str) -> AnyPreprocessable {
    AnyPreprocessable::String(Preprocessable::NotPreprocessed(source.to_owned()))
}

fn done(text: &str) -> AnyPreprocessable {
    AnyPreprocessable::String(Preprocessable::Preprocessed(text.to_owned()))
}

fn table(entries: &[(&str, AnyPreprocessable)]) -> KeyTable {
    let mut table = KeyTable::new();
    for (key, value) in entries {
        table.insert((*key).to_owned(), value.clone()).unwrap();
    }
    table
}

fn text_of(table: &KeyTable, key: &str) -> Option<String> {
    match table.get(&key.to_owned()) {
        Some(AnyPreprocessable::String(Preprocessable::Preprocessed(text))) => Some(text.clone()),
        Some(AnyPreprocessable::Name(Preprocessable::Preprocessed(text))) => Some(text.clone()),
        _ => None,
    }
}

#[test]
fn table_rejects_a_second_entry_under_one_name() {
    let mut keys = KeyTable::new();
    assert!(keys.insert("a".to_owned(), done("1")).is_ok());
    let error = keys.insert("a".to_owned(), done("2")).unwrap_err();
    assert_eq!(error.kind, ErrorKind::DuplicateKey);
    assert_eq!(error.names, vec!["a".to_owned()]);
    assert_eq!(keys.len(), 1);
    assert_eq!(text_of(&keys, "a"), Some("1".to_owned()));
}

#[test]
fn table_finds_entries_by_name() {
    let keys = table(&[("a", done("1")), ("b", done("2"))]);
    assert_eq!(keys.find(&"a".to_owned()), Some(0));
    assert_eq!(keys.find(&"b".to_owned()), Some(1));
    assert_eq!(keys.find(&"c".to_owned()), None);
    assert!(keys.get(&"c".to_owned()).is_none());
}

#[test]
fn attempt_splices_resolved_keys() {
    let keys = table(&[("a", done("1")), ("b", done("2"))]);
    let tokens = vec![
        PreprocessorToken::Raw("x".to_owned()),
        PreprocessorToken::Key("a".to_owned()),
        PreprocessorToken::Raw("y".to_owned()),
        PreprocessorToken::Key("b".to_owned()),
    ];
    let text = preprocessor_token_assembly_attempt(tokens, &keys).unwrap();
    assert_eq!(text, Some("x1y2".to_owned()));
}

#[test]
fn attempt_gives_nothing_at_a_pending_key() {
    let keys = table(&[("a", done("1")), ("b", pending("@{a}"))]);
    let tokens = vec![
        PreprocessorToken::Key("a".to_owned()),
        PreprocessorToken::Key("b".to_owned()),
        PreprocessorToken::Key("missing".to_owned()),
    ];
    assert_eq!(preprocessor_token_assembly_attempt(tokens, &keys).unwrap(), None);
}

#[test]
fn attempt_fails_at_a_missing_key() {
    let keys = table(&[("a", done("1")), ("b", pending("@{a}"))]);
    let tokens = vec![
        PreprocessorToken::Key("missing".to_owned()),
        PreprocessorToken::Key("b".to_owned()),
    ];
    let error = preprocessor_token_assembly_attempt(tokens, &keys).unwrap_err();
    assert_eq!(error.kind, ErrorKind::NonExistentReference);
    assert_eq!(error.names, vec!["missing".to_owned()]);
}

#[test]
fn attempt_on_no_tokens_gives_the_empty_text() {
    let keys = KeyTable::new();
    assert_eq!(preprocessor_token_assembly_attempt(vec![], &keys).unwrap(), Some(String::new()));
}

#[test]
fn sweep_resolves_in_table_order_and_counts_the_deferred() {
    // `c` refers to `b`, which stands behind it: one sweep resolves `a` and
    // `b` and defers `c`.
    let mut keys = table(&[("a", pending("A")), ("c", pending("@{b}!")), ("b", pending("@{a}B"))]);
    assert_eq!(sweep(&mut keys, &common("")).unwrap(), 1);
    assert_eq!(text_of(&keys, "a"), Some("A".to_owned()));
    assert_eq!(text_of(&keys, "b"), Some("AB".to_owned()));
    assert_eq!(text_of(&keys, "c"), None);
    assert_eq!(sweep(&mut keys, &common("")).unwrap(), 0);
    assert_eq!(text_of(&keys, "c"), Some("AB!".to_owned()));
}

#[test]
fn resolution_converges_on_a_chain() {
    let mut keys = table(&[
        ("first", pending("<@{second}>")),
        ("second", pending("[@{third}@{third}]")),
        ("third", pending("x")),
        ("seed", done("s")),
        ("fourth", pending("@{seed}@{first}")),
    ]);
    preprocess_key_name_pairs(&mut keys, &common("")).unwrap();
    assert_eq!(text_of(&keys, "third"), Some("x".to_owned()));
    assert_eq!(text_of(&keys, "second"), Some("[xx]".to_owned()));
    assert_eq!(text_of(&keys, "first"), Some("<[xx]>".to_owned()));
    assert_eq!(text_of(&keys, "fourth"), Some("s<[xx]>".to_owned()));
    assert_eq!(text_of(&keys, "seed"), Some("s".to_owned()));
}

#[test]
fn resolution_does_not_depend_on_the_order_of_the_entries() {
    let entries = [
        ("a", "@{b}-@{c}"),
        ("b", "@{c}@{d}"),
        ("c", "@{d}!"),
        ("d", "D"),
    ];
    let orders: [[usize; 4]; 4] = [[0, 1, 2, 3], [3, 2, 1, 0], [1, 3, 0, 2], [2, 0, 3, 1]];
    for order in orders {
        let mut keys = KeyTable::new();
        for place in order {
            let (key, source) = entries[place];
            keys.insert(key.to_owned(), pending(source)).unwrap();
        }
        preprocess_key_name_pairs(&mut keys, &common("")).unwrap();
        assert_eq!(text_of(&keys, "d"), Some("D".to_owned()));
        assert_eq!(text_of(&keys, "c"), Some("D!".to_owned()));
        assert_eq!(text_of(&keys, "b"), Some("D!D".to_owned()));
        assert_eq!(text_of(&keys, "a"), Some("D!D-D!".to_owned()));
    }
}

#[test]
fn resolution_of_an_empty_table_succeeds() {
    let mut keys = KeyTable::new();
    assert!(preprocess_key_name_pairs(&mut keys, &common("")).is_ok());
    assert_eq!(keys.len(), 0);
}

#[test]
fn resolution_of_a_resolved_table_changes_nothing() {
    let mut keys = table(&[("a", done("@{a}")), ("b", done("2"))]);
    let before = keys.clone();
    preprocess_key_name_pairs(&mut keys, &common("")).unwrap();
    assert_eq!(keys, before);
}

#[test]
fn a_key_that_refers_to_itself_is_a_mutual_reference() {
    let mut keys = table(&[("a", pending("x@{a}"))]);
    let before = keys.clone();
    let error = preprocess_key_name_pairs(&mut keys, &common("")).unwrap_err();
    assert_eq!(error.kind, ErrorKind::MutualReference);
    assert_eq!(error.names, vec!["a".to_owned()]);
    assert_eq!(keys, before);
}

#[test]
fn two_keys_that_refer_to_each_other_are_a_mutual_reference() {
    let mut keys = table(&[("a", pending("@{b}")), ("b", pending("@{a}"))]);
    let before = keys.clone();
    let error = preprocess_key_name_pairs(&mut keys, &common("")).unwrap_err();
    assert_eq!(error.kind, ErrorKind::MutualReference);
    assert_eq!(error.names, vec!["a".to_owned(), "b".to_owned()]);
    assert_eq!(keys, before);
}

#[test]
fn a_cycle_leaves_what_does_not_hang_on_it_resolved() {
    let mut keys = table(&[
        ("free", pending("F")),
        ("a", pending("@{b}")),
        ("b", pending("@{a}")),
        ("hanging", pending("@{a}@{free}")),
    ]);
    let error = preprocess_key_name_pairs(&mut keys, &common("")).unwrap_err();
    assert_eq!(error.kind, ErrorKind::MutualReference);
    assert_eq!(error.names, vec!["a".to_owned(), "b".to_owned(), "hanging".to_owned()]);
    assert_eq!(text_of(&keys, "free"), Some("F".to_owned()));
    assert_eq!(text_of(&keys, "a"), None);
    assert_eq!(text_of(&keys, "b"), None);
    assert_eq!(text_of(&keys, "hanging"), None);
}

#[test]
fn resolution_fails_as_the_lexer_does() {
    let mut keys = table(&[("a", pending("fine")), ("b", pending("@{}"))]);
    let error = preprocess_key_name_pairs(&mut keys, &common("")).unwrap_err();
    assert_eq!(error.kind, ErrorKind::EmptyReference);
    assert_eq!(error.index, 2);
    assert_eq!(text_of(&keys, "a"), Some("fine".to_owned()));
    assert_eq!(text_of(&keys, "b"), None);
}

#[test]
fn resolution_fails_at_a_key_that_the_table_lacks() {
    let mut keys = table(&[("a", pending("@{nowhere}"))]);
    let error = preprocess_key_name_pairs(&mut keys, &common("")).unwrap_err();
    assert_eq!(error.kind, ErrorKind::NonExistentReference);
}

#[test]
fn names_get_the_prefix_unless_tagged_otherwise() {
    let plain = AnyPreprocessable::Name(Preprocessable::NotPreprocessed(Name::Raw(
        "PLAIN".to_owned(),
    )));
    let tagged = AnyPreprocessable::Name(Preprocessable::NotPreprocessed(Name::Tagged(
        StringWithTags { tags: vec![Tag::NoPrefix], string: "@{plain}_BARE".to_owned() },
    )));
    let untagged = AnyPreprocessable::Name(Preprocessable::NotPreprocessed(Name::Tagged(
        StringWithTags { tags: vec![], string: "TAGLESS".to_owned() },
    )));
    let mut keys = table(&[("plain", plain), ("tagged", tagged), ("untagged", untagged)]);
    preprocess_key_name_pairs(&mut keys, &common("PRE_")).unwrap();
    assert_eq!(text_of(&keys, "plain"), Some("PRE_PLAIN".to_owned()));
    assert_eq!(text_of(&keys, "tagged"), Some("PRE_PLAIN_BARE".to_owned()));
    assert_eq!(text_of(&keys, "untagged"), Some("PRE_TAGLESS".to_owned()));
}

#[test]
fn strings_have_their_keys_replaced_in_one_pass() {
    let keys = table(&[("a", done("1")), ("b", done("@{a}"))]);
    let mut strings = vec![
        Preprocessable::NotPreprocessed("@{a}+@{b}".to_owned()),
        Preprocessable::Preprocessed("@{a}".to_owned()),
        Preprocessable::NotPreprocessed("\\@{a}\\\\".to_owned()),
        Preprocessable::NotPreprocessed(String::new()),
    ];
    preprocess_strings(&mut strings, &keys, &common("")).unwrap();
    assert_eq!(
        strings,
        vec![
            Preprocessable::Preprocessed("1+@{a}".to_owned()),
            Preprocessable::Preprocessed("@{a}".to_owned()),
            Preprocessable::Preprocessed("@{a}\\".to_owned()),
            Preprocessable::Preprocessed(String::new()),
        ]
    );
}

#[test]
fn substitution_stops_at_the_first_string_that_fails() {
    let keys = table(&[("a", done("1"))]);
    let mut strings = vec![
        Preprocessable::NotPreprocessed("@{a}".to_owned()),
        Preprocessable::NotPreprocessed("@{missing}".to_owned()),
        Preprocessable::NotPreprocessed("@{a}".to_owned()),
    ];
    let error = preprocess_strings(&mut strings, &keys, &common("")).unwrap_err();
    assert_eq!(error.kind, ErrorKind::NonExistentReference);
    assert_eq!(
        strings,
        vec![
            Preprocessable::Preprocessed("1".to_owned()),
            Preprocessable::NotPreprocessed("@{missing}".to_owned()),
            Preprocessable::NotPreprocessed("@{a}".to_owned()),
        ]
    );
}

#[test]
fn strings_and_names_are_read_for_references() {
    let keys = common("P_");
    assert_eq!(
        "a@{b}".to_owned().into_preprocessor_tokens(&keys).unwrap(),
        vec![PreprocessorToken::Raw("a".to_owned()), PreprocessorToken::Key("b".to_owned())]
    );
    assert_eq!(
        Name::Raw("@{b}".to_owned()).into_preprocessor_tokens(&keys).unwrap(),
        vec![PreprocessorToken::Raw("P_".to_owned()), PreprocessorToken::Key("b".to_owned())]
    );
    let bare = Name::Tagged(StringWithTags { tags: vec![Tag::NoPrefix], string: "@".to_owned() });
    let error = bare.into_preprocessor_tokens(&keys).unwrap_err();
    assert_eq!(error.kind, ErrorKind::InvalidToken);
    assert_eq!(error.index, 1);
    assert_eq!(error.source, "@");
}
