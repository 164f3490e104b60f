use xmvagen::compiler::repeat::{
    generate_generator_macro_name, generate_repeat_name, generate_repeat_picker_macro_name,
    refers_to_no_named_argument, GeneratablePattern,
};
use xmvagen::compiler::token::CompilerToken;
use xmvagen::config::{Common, CommonKeyable, MAX_REPEATS};

fn common(prefix: &str, repeats: usize) -> Common {
    Common { keyable: CommonKeyable { prefix: prefix.to_owned() }, repeats }
}

fn pattern(body: &str, repeats: usize, group_size: usize) -> GeneratablePattern {
    GeneratablePattern {
        pattern: CompilerToken::tokenize(body).unwrap(),
        macro_prefix: "X".to_owned(),
        index: 0,
        repeats,
        group_size,
        named_arguments: vec!["N".to_owned()],
        fallback_empty: "EMPTY".to_owned(),
        fallback_unparity: "UNPARITY".to_owned(),
        preamble: "<".to_owned(),
        postamble: ">".to_owned(),
    }
}

fn lines(text: &str) -> Vec<String> {
    text.split('\n').map(|line| line.to_owned()).collect()
}

#[test]
fn names_follow_the_scheme() {
    let common = common("PRE_", 3);
    assert_eq!(generate_repeat_name(&common, 0, 0), "PRE___ARGS__0_0");
    assert_eq!(generate_repeat_name(&common, 12, 3), "PRE___ARGS__3_12");
    assert_eq!(generate_repeat_name(&common, 1000, 10), "PRE___ARGS__10_1000");
    assert_eq!(generate_repeat_picker_macro_name(&common, 7), "PRE___ARGS__7");
    assert_eq!(generate_generator_macro_name(&common, 21), "PRE___GENERATOR__21");
}

#[test]
fn a_count_that_is_no_multiple_of_the_group_size_gets_the_unparity_fallback() {
    let pattern = pattern("$(0)$[,]", 4, 2);
    assert!(pattern.is_wf());
    let text = pattern.generate();
    let lines = lines(&text);
    assert_eq!(lines[3], "#define X__ARGS__0_3(N, __0__, __1__, __2__) UNPARITY");
    assert_eq!(lines[1], "#define X__ARGS__0_1(N, __0__) UNPARITY");
}

#[test]
fn the_last_group_leaves_out_what_is_marked_to_be_skipped() {
    let pattern = pattern("$(0)$[,]", 5, 2);
    let text = pattern.generate();
    let lines = lines(&text);
    assert_eq!(lines[4], "#define X__ARGS__0_4(N, __0__, __1__, __2__, __3__) <__0__,__2__>");
}

#[test]
fn a_single_group_is_the_last_group() {
    let pattern = pattern("$(0)$[,]", 3, 2);
    let text = pattern.generate();
    let lines = lines(&text);
    assert_eq!(lines[2], "#define X__ARGS__0_2(N, __0__, __1__) <__0__>");
}

#[test]
fn the_whole_block_of_a_generator() {
    let pattern = pattern("[$.:$(1)-$(0)$[;]]", 5, 2);
    assert_eq!(
        pattern.generate(),
        "#define X__ARGS__0_0(N) EMPTY\n\
         #define X__ARGS__0_1(N, __0__) UNPARITY\n\
         #define X__ARGS__0_2(N, __0__, __1__) <[1:__1__-__0__]>\n\
         #define X__ARGS__0_3(N, __0__, __1__, __2__) UNPARITY\n\
         #define X__ARGS__0_4(N, __0__, __1__, __2__, __3__) <[1:__1__-__0__;][2:__3__-__2__]>\n\
         #define X__ARGS__0(__0__, __1__, __2__, __3__, __4__, __NAME__, ...) __NAME__"
    );
}

#[test]
fn groups_of_one_argument() {
    let mut pattern = pattern("$.=$(0)$[ ]", 4, 1);
    pattern.named_arguments = vec!["A".to_owned(), "B".to_owned()];
    pattern.index = 2;
    assert_eq!(
        pattern.generate(),
        "#define X__ARGS__2_0(A, B) EMPTY\n\
         #define X__ARGS__2_1(A, B, __0__) <1=__0__>\n\
         #define X__ARGS__2_2(A, B, __0__, __1__) <1=__0__ 2=__1__>\n\
         #define X__ARGS__2_3(A, B, __0__, __1__, __2__) <1=__0__ 2=__1__ 3=__2__>\n\
         #define X__ARGS__2(__0__, __1__, __2__, __3__, __NAME__, ...) __NAME__"
    );
}

#[test]
fn an_index_beyond_the_group_reaches_into_the_next_group() {
    let pattern = pattern("$(3)", 3, 2);
    let text = pattern.generate();
    let lines = lines(&text);
    assert_eq!(lines[2], "#define X__ARGS__0_2(N, __0__, __1__) <__3__>");
}

#[test]
fn the_largest_index_does_not_overflow() {
    let body = format!("$({})", usize::MAX);
    let pattern = pattern(&body, 5, 2);
    let text = pattern.generate();
    let lines = lines(&text);
    let first = usize::MAX as u128;
    let second = usize::MAX as u128 + 2;
    assert_eq!(
        lines[4],
        format!("#define X__ARGS__0_4(N, __0__, __1__, __2__, __3__) <__{}____{}__>", first, second)
    );
}

#[test]
fn no_repeats_leave_only_the_picker() {
    let pattern = pattern("$(0)", 0, 2);
    assert_eq!(pattern.generate(), "#define X__ARGS__0(, __NAME__, ...) __NAME__");
}

#[test]
fn a_pattern_with_a_named_reference_or_without_a_group_size_is_not_well_formed() {
    assert!(!pattern("${name}", 3, 2).is_wf());
    assert!(!pattern("$(0)", 3, 0).is_wf());
    assert!(pattern("", 3, 1).is_wf());
    assert!(refers_to_no_named_argument(&CompilerToken::tokenize("$.$(1)$[x]y").unwrap()));
    assert!(!refers_to_no_named_argument(&CompilerToken::tokenize("$.${a}").unwrap()));
}

#[test]
fn the_repeat_count_is_clamped_to_the_ceiling() {
    assert_eq!(MAX_REPEATS, 1000);
    assert_eq!(common("", 0).clamped_repeats(), 0);
    assert_eq!(common("", 999).clamped_repeats(), 999);
    assert_eq!(common("", 1000).clamped_repeats(), 1000);
    assert_eq!(common("", 1001).clamped_repeats(), 1000);
    assert_eq!(common("", usize::MAX).clamped_repeats(), 1000);
}

#[test]
fn the_picker_selects_the_macro_for_the_number_of_trailing_arguments() {
    // The picker expands to the parameter behind its placeholders.  Bind
    // the arguments that the outer macro hands to it, for every number of
    // trailing arguments, and see which name lands there.
    let repeats = 6;
    let common = common("P", repeats);
    for count in 0..repeats {
        let mut arguments: Vec<String> = vec!["\"empty\"".to_owned()];
        for trailing in 0..count {
            arguments.push(format!("arg{}", trailing));
        }
        for candidate in (0..repeats).rev() {
            arguments.push(generate_repeat_name(&common, candidate, 4));
        }
        assert_eq!(arguments[repeats], generate_repeat_name(&common, count, 4));
        assert_eq!(arguments[repeats], format!("P__ARGS__4_{}", count));
    }
}
