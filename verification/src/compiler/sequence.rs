//! How the two stages fit together: what the reference stage has resolved,
//! the template stage never finds unresolved.

use vstd::prelude::*;

use crate::compiler::arguments::{gather, gather_step, named_table, named_table_step};
use crate::compiler::assembler::{
    blocks, blocks_step, compiled_texts, definition_lines, definition_lines_step,
    repeat_string, surface_string, surface_strings, GeneratorTexts,
};
use crate::compiler::surface::{
    compile_prefix, compile_step, splice, splice_step, surface_compiled, surface_tokens,
};
use crate::compiler::token::{scan_prefix, tokenize_spec, TemplateToken};
use crate::config::{Argument, Common, Config, Core, Definition, Generator};
use crate::error::{ErrorKind, Failure};
use crate::preprocessor::loader::{argument_names, expansions, generator_strings, raw_strings};
use crate::preprocessor::table::lemma_position;
use crate::preprocessor::Preprocessable;

verus! {

/// Whether a failure is any but that of an entity that is not resolved.
pub open spec fn not_unresolved<T>(result: Result<T, Failure>) -> bool {
    match result {
        Ok(_) => true,
        Err(failure) => failure.kind != ErrorKind::NotPreprocessed,
    }
}

/// Whether the name of every named argument is resolved.
pub open spec fn arguments_resolved(arguments: Seq<Argument>) -> bool {
    forall|i: int|
        0 <= i < arguments.len() ==> ((#[trigger] arguments[i]) matches Argument::Named(named)
            ==> named.name.resolved() is Some)
}

/// Whether the name and the expansion of every definition are resolved.
pub open spec fn definitions_resolved(definitions: Seq<Definition>) -> bool {
    forall|i: int|
        0 <= i < definitions.len() ==> (#[trigger] definitions[i]).name.resolved() is Some
            && definitions[i].expansion.resolved() is Some
}

/// Whether every text of a generator is resolved.
pub open spec fn generator_resolved(generator: Generator) -> bool {
    &&& generator.fallbacks.empty.resolved() is Some
    &&& generator.fallbacks.unparity.resolved() is Some
    &&& generator.preamble.resolved() is Some
    &&& generator.repeat.resolved() is Some
    &&& generator.postamble.resolved() is Some
}

/// Whether every entity that the template stage reads is resolved.
pub open spec fn ready(config: Config) -> bool {
    &&& raw_strings(config.preamble).len() > 0 ==> raw_strings(config.preamble)[0].resolved()
        is Some
    &&& definitions_resolved(config.definitions())
    &&& config.core.xmva.resolved() is Some
    &&& arguments_resolved(config.core.args@)
    &&& forall|i: int|
        0 <= i < config.generator@.len() ==> generator_resolved(#[trigger] config.generator@[i])
}

proof fn lemma_argument_names_resolved(arguments: Seq<Argument>)
    requires
        forall|k: int|
            0 <= k < argument_names(arguments).len() ==> (#[trigger] argument_names(
                arguments,
            )[k]).resolved() is Some,
    ensures
        arguments_resolved(arguments),
    decreases arguments.len(),
{
    if arguments.len() > 0 {
        let front = arguments.drop_last();
        let names = argument_names(arguments);
        assert forall|k: int| 0 <= k < argument_names(front).len() implies (
        #[trigger] argument_names(front)[k]).resolved() is Some by {
            assert(argument_names(front)[k] == names[k]);
        }
        lemma_argument_names_resolved(front);
        assert forall|i: int| 0 <= i < arguments.len() implies ((#[trigger] arguments[i]) matches Argument::Named(
            named,
        ) ==> named.name.resolved() is Some) by {
            if i < arguments.len() - 1 {
                assert(front[i] == arguments[i]);
            } else {
                match arguments[i] {
                    Argument::Named(named) => {
                        assert(names[names.len() - 1] == named.name);
                    },
                    Argument::Varadict { varadict } => {},
                }
            }
        }
    }
}

/// A configuration of which every entity is resolved is ready for the
/// template stage.
pub proof fn lemma_all_preprocessed_ready(config: Config)
    requires
        config.all_preprocessed(),
    ensures
        ready(config),
{
    let strings = config.preprocessable_strings();
    let raw_part = raw_strings(config.preamble);
    let expansion_part = expansions(config.definitions());
    let argument_part = argument_names(config.core.args@);
    let generator_part = generator_strings(config.generator@);
    let first = raw_part.len() + expansion_part.len();
    if raw_part.len() > 0 {
        assert(strings[0] == raw_part[0]);
    }
    assert forall|i: int| 0 <= i < config.definitions().len() implies (
    #[trigger] config.definitions()[i]).name.resolved() is Some
        && config.definitions()[i].expansion.resolved() is Some by {
        assert(strings[raw_part.len() + i] == expansion_part[i]);
    }
    assert(strings[first as int] == config.core.xmva);
    assert forall|k: int| 0 <= k < argument_part.len() implies (#[trigger] argument_part[k]).resolved()
        is Some by {
        assert(strings[first + 1 + k] == argument_part[k]);
    }
    lemma_argument_names_resolved(config.core.args@);
    assert forall|i: int| 0 <= i < config.generator@.len() implies generator_resolved(
        #[trigger] config.generator@[i],
    ) by {
        let base = first + 1 + argument_part.len();
        assert(strings[base + 5 * i] == generator_part[5 * i]);
        assert(strings[base + 5 * i + 1] == generator_part[5 * i + 1]);
        assert(strings[base + 5 * i + 2] == generator_part[5 * i + 2]);
        assert(strings[base + 5 * i + 3] == generator_part[5 * i + 3]);
        assert(strings[base + 5 * i + 4] == generator_part[5 * i + 4]);
    }
}

proof fn lemma_scan_kind(s: Seq<char>, n: nat)
    ensures
        scan_prefix(s, n) matches Err((kind, _)) ==> kind != ErrorKind::NotPreprocessed,
    decreases n,
{
    if n > 0 {
        lemma_scan_kind(s, (n - 1) as nat);
    }
}

/// The template lexer does not fail as an unresolved entity does.
pub proof fn lemma_tokenize_kind(s: Seq<char>)
    ensures
        tokenize_spec(s) matches Err((kind, _)) ==> kind != ErrorKind::NotPreprocessed,
{
    lemma_scan_kind(s, s.len());
}

proof fn lemma_gather_resolved(arguments: Seq<Argument>, strict: bool)
    requires
        arguments_resolved(arguments),
    ensures
        not_unresolved(gather(arguments, strict)),
    decreases arguments.len(),
{
    if arguments.len() > 0 {
        let front = arguments.drop_last();
        assert forall|i: int| 0 <= i < front.len() implies ((#[trigger] front[i]) matches Argument::Named(
            named,
        ) ==> named.name.resolved() is Some) by {
            assert(front[i] == arguments[i]);
        }
        lemma_gather_resolved(front, strict);
        assert(arguments.last() == arguments[arguments.len() - 1]);
        assert(gather(arguments, strict) == gather_step(
            gather(front, strict),
            arguments.last(),
            strict,
        ));
    }
}

proof fn lemma_named_table_resolved(arguments: Seq<Argument>)
    requires
        arguments_resolved(arguments),
        named_table(arguments) is Ok,
    ensures
        ({
            let table = named_table(arguments)->Ok_0;
            &&& table.names.len() == table.texts.len()
            &&& forall|i: int| 0 <= i < table.texts.len() ==> (#[trigger] table.texts[i]) is Some
        }),
    decreases arguments.len(),
{
    if arguments.len() > 0 {
        let front = arguments.drop_last();
        assert forall|i: int| 0 <= i < front.len() implies ((#[trigger] front[i]) matches Argument::Named(
            named,
        ) ==> named.name.resolved() is Some) by {
            assert(front[i] == arguments[i]);
        }
        assert(named_table(arguments) == named_table_step(named_table(front), arguments.last()));
        lemma_named_table_resolved(front);
        assert(arguments.last() == arguments[arguments.len() - 1]);
    }
}

proof fn lemma_splice_resolved(
    tokens: Seq<TemplateToken>,
    names: Seq<Seq<char>>,
    texts: Seq<Option<Seq<char>>>,
)
    requires
        names.len() == texts.len(),
        forall|i: int| 0 <= i < texts.len() ==> (#[trigger] texts[i]) is Some,
    ensures
        not_unresolved(splice(tokens, names, texts)),
    decreases tokens.len(),
{
    if tokens.len() > 0 {
        lemma_splice_resolved(tokens.drop_last(), names, texts);
        assert(splice(tokens, names, texts) == splice_step(
            splice(tokens.drop_last(), names, texts),
            tokens.last(),
            names,
            texts,
        ));
        match tokens.last() {
            TemplateToken::NamedArgumentRef(name) => {
                lemma_position(names, name);
            },
            _ => {},
        }
    }
}

proof fn lemma_surface_compiled_resolved(
    entity: Preprocessable<String>,
    names: Seq<Seq<char>>,
    texts: Seq<Option<Seq<char>>>,
)
    requires
        entity.resolved() is Some,
        names.len() == texts.len(),
        forall|i: int| 0 <= i < texts.len() ==> (#[trigger] texts[i]) is Some,
    ensures
        not_unresolved(surface_compiled(entity, names, texts)),
{
    let text = entity.resolved()->0;
    lemma_tokenize_kind(text);
    match surface_tokens(entity) {
        Ok(tokens) => {
            lemma_splice_resolved(tokens, names, texts);
        },
        Err(_) => {},
    }
}

proof fn lemma_compile_prefix_resolved(
    entities: Seq<Preprocessable<String>>,
    names: Seq<Seq<char>>,
    texts: Seq<Option<Seq<char>>>,
    n: nat,
)
    requires
        n <= entities.len(),
        forall|k: int| 0 <= k < entities.len() ==> (#[trigger] entities[k]).resolved() is Some,
        names.len() == texts.len(),
        forall|i: int| 0 <= i < texts.len() ==> (#[trigger] texts[i]) is Some,
    ensures
        compile_prefix(entities, names, texts, n).failure matches Some(failure) ==> failure.kind
            != ErrorKind::NotPreprocessed,
        compile_prefix(entities, names, texts, n).failure is None ==> forall|k: int|
            0 <= k < n ==> surface_compiled(#[trigger] entities[k], names, texts) is Ok,
    decreases n,
{
    if n > 0 {
        lemma_compile_prefix_resolved(entities, names, texts, (n - 1) as nat);
        assert(compile_prefix(entities, names, texts, n) == compile_step(
            compile_prefix(entities, names, texts, (n - 1) as nat),
            entities[n - 1],
            names,
            texts,
        ));
        lemma_surface_compiled_resolved(entities[n - 1], names, texts);
    }
}

proof fn lemma_definition_lines_resolved(definitions: Seq<Definition>)
    requires
        definitions_resolved(definitions),
    ensures
        definition_lines(definitions) is Ok,
    decreases definitions.len(),
{
    if definitions.len() > 0 {
        let front = definitions.drop_last();
        assert forall|i: int| 0 <= i < front.len() implies (#[trigger] front[i]).name.resolved()
            is Some && front[i].expansion.resolved() is Some by {
            assert(front[i] == definitions[i]);
        }
        lemma_definition_lines_resolved(front);
        assert(definitions.last() == definitions[definitions.len() - 1]);
        assert(definition_lines(definitions) == definition_lines_step(
            definition_lines(front),
            definitions.last(),
        ));
    }
}

proof fn lemma_repeat_string_resolved(generator: GeneratorTexts, common: Common, core: Core, suffix: nat)
    requires
        generator.empty is Ok,
        generator.unparity is Ok,
        generator.preamble is Ok,
        generator.postamble is Ok,
        generator.repeat is Ok,
        arguments_resolved(core.args@),
    ensures
        not_unresolved(repeat_string(generator, common, core, suffix)),
{
    lemma_gather_resolved(core.args@, true);
    lemma_tokenize_kind(generator.repeat->Ok_0);
}

proof fn lemma_blocks_resolved(
    generators: Seq<GeneratorTexts>,
    common: Common,
    core: Core,
    n: nat,
)
    requires
        n <= generators.len(),
        arguments_resolved(core.args@),
        forall|i: int|
            0 <= i < generators.len() ==> (#[trigger] generators[i]).empty is Ok
                && generators[i].unparity is Ok && generators[i].preamble is Ok
                && generators[i].postamble is Ok && generators[i].repeat is Ok,
    ensures
        not_unresolved(blocks(generators, common, core, n)),
    decreases n,
{
    if n > 0 {
        lemma_blocks_resolved(generators, common, core, (n - 1) as nat);
        assert(blocks(generators, common, core, n) == blocks_step(
            blocks(generators, common, core, (n - 1) as nat),
            generators[n - 1],
            common,
            core,
            (n - 1) as nat,
        ));
        lemma_repeat_string_resolved(generators[n - 1], common, core, (n - 1) as nat);
        lemma_gather_resolved(core.args@, false);
    }
}

/// The template stage never finds unresolved what the reference stage has
/// resolved.
///
/// Of a configuration of which every entity is resolved, as the reference
/// stage gives it back, the template stage fails in no case with
/// `NotPreprocessed`.
pub proof fn lemma_resolved_is_consumed(config: Config)
    requires
        config.all_preprocessed(),
    ensures
        not_unresolved(config.compiled_generators()),
        not_unresolved(config.preamble_text()),
        not_unresolved(config.assembled()),
{
    lemma_all_preprocessed_ready(config);
    let generators = config.generator@;
    match named_table(config.core.args@) {
        Err(failure) => {
            lemma_named_table_kind(config.core.args@);
        },
        Ok(table) => {
            lemma_named_table_resolved(config.core.args@);
            let strings = surface_strings(generators);
            assert forall|k: int| 0 <= k < strings.len() implies (#[trigger] strings[k]).resolved()
                is Some by {
                assert(generator_resolved(generators[k / 4]));
                assert(strings[k] == surface_string(generators[k / 4], k % 4));
            }
            lemma_compile_prefix_resolved(strings, table.names, table.texts, strings.len());
            match config.compiled_generators() {
                Err(_) => {},
                Ok(compiled) => {
                    assert forall|i: int| 0 <= i < compiled.len() implies (
                    #[trigger] compiled[i]).empty is Ok && compiled[i].unparity is Ok
                        && compiled[i].preamble is Ok && compiled[i].postamble is Ok
                        && compiled[i].repeat is Ok by {
                        assert(compiled[i] == compiled_texts(
                            generators[i],
                            table.names,
                            table.texts,
                        ));
                        assert(generator_resolved(generators[i]));
                        assert(strings[4 * i] == generators[i].fallbacks.empty);
                        assert(strings[4 * i + 1] == generators[i].fallbacks.unparity);
                        assert(strings[4 * i + 2] == generators[i].postamble);
                        assert(strings[4 * i + 3] == generators[i].preamble);
                    }
                    lemma_blocks_resolved(compiled, config.common, config.core, compiled.len());
                    lemma_gather_resolved(config.core.args@, true);
                },
            }
        },
    }
    match config.definition {
        Some(definitions) => {
            lemma_definition_lines_resolved(definitions@);
        },
        None => {},
    }
    if raw_strings(config.preamble).len() > 0 {
        assert(raw_strings(config.preamble)[0] == config.preamble->0.raw->0);
    }
}

proof fn lemma_named_table_kind(arguments: Seq<Argument>)
    ensures
        not_unresolved(named_table(arguments)),
    decreases arguments.len(),
{
    if arguments.len() > 0 {
        lemma_named_table_kind(arguments.drop_last());
    }
}

} // verus!
